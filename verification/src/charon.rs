//! Reading the output of the IKE daemon (`charon-cmd`) that runs behind a pseudo-terminal:
//! the lines it logs and the credential prompts it prints.

use vstd::prelude::*;
use crate::protocol::{
    lemma_messages_push, messages_view, state_text, status_message, HelperMessage,
    HelperMessageView, TunnelState,
};
use crate::xfrm::{is_address, is_address_char};
use crate::text::{
    chars_of, contains, ends_with, find_in, lemma_find_in_bounds, lemma_skip_ws_back_bounds,
    lemma_skip_ws_bounds, lemma_find_in_first, lemma_find_in_finds, lemma_rfind_from_last, lemma_word_at,
    is_ws, occurs_at, skip_ws_back, joined, opt_view, rfind_in, span_contains,
    span_ends_with, span_find, span_rfind, span_string, spans, strip_brackets,
    strip_brackets_range, trim, trim_range, trim_span, words, words_from,
};

verus! {

pub open spec fn vip_tag() -> Seq<char> {
    "installing new virtual IP "@
}

/// The virtual IP that a log line announces: the first word after
/// `installing new virtual IP ` in the trimmed line.
pub open spec fn announced_virtual_ip(line: Seq<char>) -> Option<Seq<char>> {
    let t = trim_span(line, 0, line.len() as int);
    match find_in(line, vip_tag(), t.0, t.1) {
        None => None,
        Some(p) => {
            let w = words_from(line, false, p + vip_tag().len(), p + vip_tag().len(), t.1);
            if w.len() == 0 {
                None
            } else {
                Some(line.subrange(w[0].0, w[0].1))
            }
        },
    }
}

/// The gateway address that a log line announces: on a line that holds ` initiating ` and
/// ` IKE_SA `, the first word after the last ` to `, without enclosing brackets.
pub open spec fn announced_gateway_ip(line: Seq<char>) -> Option<Seq<char>> {
    let t = trim_span(line, 0, line.len() as int);
    if !contains(line, t.0, t.1, " initiating "@) || !contains(line, t.0, t.1, " IKE_SA "@) {
        None
    } else {
        match rfind_in(line, " to "@, t.0, t.1) {
            None => None,
            Some(k) => {
                let r = trim_span(line, k + " to "@.len(), t.1);
                let w = words_from(line, false, r.0, r.0, r.1);
                let first = if w.len() == 0 { (r.0, r.0) } else { w[0] };
                let b = strip_brackets(line, first.0, first.1);
                if b.0 == b.1 {
                    None
                } else {
                    Some(line.subrange(b.0, b.1))
                }
            },
        }
    }
}

pub open spec fn auth_failure_text() -> Seq<char> {
    "Authentication Failed: Invalid Pre-Shared Key (PSK) or Password."@
}

pub open spec fn proposal_failure_text() -> Seq<char> {
    "IPsec Proposal Mismatch: The gateway rejected the encryption proposals."@
}

/// The error that a log line reports, if any: a rejected credential, or else a rejected
/// proposal.
pub open spec fn reported_failure(line: Seq<char>) -> Option<Seq<char>> {
    let t = trim_span(line, 0, line.len() as int);
    if contains(line, t.0, t.1, "AUTHENTICATION_FAILED"@)
        || contains(line, t.0, t.1, "invalid preshared key"@)
        || contains(line, t.0, t.1, "XAuth authentication failed"@)
        || contains(line, t.0, t.1, "no secret found for"@) {
        Some(auth_failure_text())
    } else if contains(line, t.0, t.1, "NO_PROPOSAL_CHOSEN"@) {
        Some(proposal_failure_text())
    } else {
        None
    }
}

/// The messages that a log line is reported with: the trimmed line itself, then what it
/// announces and the error it reports. A blank line is not reported.
pub open spec fn line_messages(line: Seq<char>) -> Seq<HelperMessageView> {
    let t = trim(line);
    if t.len() == 0 {
        seq![]
    } else {
        let vip = match announced_virtual_ip(line) {
            Some(ip) => seq![HelperMessageView::Log { message: "Parsed virtual IP: "@ + ip }],
            None => seq![],
        };
        let gw = match announced_gateway_ip(line) {
            Some(ip) => seq![
                HelperMessageView::Log { message: "Parsed active tunnel Gateway IP: "@ + ip },
            ],
            None => seq![],
        };
        let err = match reported_failure(line) {
            Some(e) => seq![HelperMessageView::Error { message: e }],
            None => seq![],
        };
        seq![HelperMessageView::Log { message: t }] + vip + gw + err
    }
}

/// What one complete line of daemon output tells.
pub struct LineReport {
    /// Messages to report, in order.
    pub messages: Vec<HelperMessage>,
    /// The virtual IP that the line announces.
    pub virtual_ip: Option<String>,
    /// The gateway address that the line announces.
    pub gateway_ip: Option<String>,
}

/// The virtual IP announced in `line`, whose characters are `s`.
fn virtual_ip_of(line: &str, s: &Vec<char>, a: usize, b: usize) -> (r: Option<String>)
    requires
        s@ == line@,
        (a as int, b as int) == trim_span(s@, 0, s@.len() as int),
        a <= b <= s@.len(),
    ensures
        opt_view(r) == announced_virtual_ip(line@),
{
    let tag = chars_of("installing new virtual IP ");
    match span_find(s, a, b, &tag) {
        None => None,
        Some(p) => {
            let ws = words(s, p + tag.len(), b);
            if ws.len() == 0 {
                None
            } else {
                let (wa, wb) = ws[0];
                assert(spans(ws@)[0] == (wa as int, wb as int));
                Some(span_string(line, s, wa, wb))
            }
        },
    }
}

/// The gateway address announced in `line`, whose characters are `s`.
fn gateway_ip_of(line: &str, s: &Vec<char>, a: usize, b: usize) -> (r: Option<String>)
    requires
        s@ == line@,
        (a as int, b as int) == trim_span(s@, 0, s@.len() as int),
        a <= b <= s@.len(),
    ensures
        opt_view(r) == announced_gateway_ip(line@),
{
    let initiating = chars_of(" initiating ");
    let ike_sa = chars_of(" IKE_SA ");
    if !span_contains(s, a, b, &initiating) || !span_contains(s, a, b, &ike_sa) {
        return None;
    }
    let to = chars_of(" to ");
    match span_rfind(s, a, b, &to) {
        None => None,
        Some(k) => {
            let (ra, rb) = trim_range(s, k + to.len(), b);
            let ws = words(s, ra, rb);
            let (fa, fb) = if ws.len() == 0 {
                (ra, ra)
            } else {
                assert(spans(ws@)[0] == (ws@[0].0 as int, ws@[0].1 as int));
                ws[0]
            };
            let (ba, bb) = strip_brackets_range(s, fa, fb);
            if ba == bb {
                None
            } else {
                Some(span_string(line, s, ba, bb))
            }
        },
    }
}

/// The error reported in `line`, whose characters are `s`.
fn failure_of(s: &Vec<char>, a: usize, b: usize) -> (r: Option<String>)
    requires
        (a as int, b as int) == trim_span(s@, 0, s@.len() as int),
        a <= b <= s@.len(),
    ensures
        opt_view(r) == reported_failure(s@),
{
    if span_contains(s, a, b, &chars_of("AUTHENTICATION_FAILED"))
        || span_contains(s, a, b, &chars_of("invalid preshared key"))
        || span_contains(s, a, b, &chars_of("XAuth authentication failed"))
        || span_contains(s, a, b, &chars_of("no secret found for")) {
        Some("Authentication Failed: Invalid Pre-Shared Key (PSK) or Password.".to_owned())
    } else if span_contains(s, a, b, &chars_of("NO_PROPOSAL_CHOSEN")) {
        Some("IPsec Proposal Mismatch: The gateway rejected the encryption proposals.".to_owned())
    } else {
        None
    }
}

/// What a complete line of daemon output tells: the messages to report, and the virtual
/// IP and gateway address it announces.
pub fn interpret_line(line: &str) -> (r: LineReport)
    ensures
        messages_view(r.messages@) == line_messages(line@),
        trim(line@).len() == 0 ==> r.virtual_ip is None && r.gateway_ip is None,
        trim(line@).len() != 0 ==> opt_view(r.virtual_ip) == announced_virtual_ip(line@)
            && opt_view(r.gateway_ip) == announced_gateway_ip(line@),
{
    let s = chars_of(line);
    let (a, b) = trim_range(&s, 0, s.len());
    let mut messages: Vec<HelperMessage> = Vec::new();
    if a == b {
        assert(messages_view(messages@) =~= Seq::<HelperMessageView>::empty());
        return LineReport { messages, virtual_ip: None, gateway_ip: None };
    }
    let trimmed = span_string(line, &s, a, b);
    let ghost acc0 = seq![HelperMessageView::Log { message: trim(line@) }];
    proof {
        lemma_messages_push(messages@, HelperMessage::Log { message: trimmed });
    }
    messages.push(HelperMessage::Log { message: trimmed });
    assert(messages_view(messages@) =~= acc0);
    let virtual_ip = virtual_ip_of(line, &s, a, b);
    let ghost acc1 = acc0 + match announced_virtual_ip(line@) {
        Some(ip) => seq![HelperMessageView::Log { message: "Parsed virtual IP: "@ + ip }],
        None => Seq::<HelperMessageView>::empty(),
    };
    match &virtual_ip {
        Some(ip) => {
            let m = HelperMessage::Log { message: joined("Parsed virtual IP: ", ip.as_str()) };
            proof {
                lemma_messages_push(messages@, m);
            }
            messages.push(m);
        },
        None => {},
    }
    assert(messages_view(messages@) =~= acc1);
    let gateway_ip = gateway_ip_of(line, &s, a, b);
    let ghost acc2 = acc1 + match announced_gateway_ip(line@) {
        Some(ip) => seq![
            HelperMessageView::Log { message: "Parsed active tunnel Gateway IP: "@ + ip },
        ],
        None => Seq::<HelperMessageView>::empty(),
    };
    match &gateway_ip {
        Some(ip) => {
            let m = HelperMessage::Log {
                message: joined("Parsed active tunnel Gateway IP: ", ip.as_str()),
            };
            proof {
                lemma_messages_push(messages@, m);
            }
            messages.push(m);
        },
        None => {},
    }
    assert(messages_view(messages@) =~= acc2);
    let failure = failure_of(&s, a, b);
    match failure {
        Some(e) => {
            let m = HelperMessage::Error { message: e };
            proof {
                lemma_messages_push(messages@, m);
            }
            messages.push(m);
        },
        None => {},
    }
    assert(messages_view(messages@) =~= line_messages(line@));
    LineReport { messages, virtual_ip, gateway_ip }
}

/// A credential prompt printed by the daemon.
#[derive(Debug, Clone, Copy, PartialEq, Eq, Structural)]
pub enum Prompt {
    PresharedKey,
    Password,
    Otp,
    Nothing,
}

/// The prompt that ends the pending output `text`, judged on its trimmed form: a
/// pre-shared key prompt, an account password prompt, a one-time code prompt, or none.
pub open spec fn prompt_in(text: Seq<char>) -> Prompt {
    let t = trim_span(text, 0, text.len() as int);
    if ends_with(text, t.0, t.1, "Preshared Key:"@) {
        Prompt::PresharedKey
    } else if ends_with(text, t.0, t.1, "Password:"@) || ends_with(text, t.0, t.1, "EAP password:"@) {
        Prompt::Password
    } else if ends_with(text, t.0, t.1, "PIN:"@) || ends_with(text, t.0, t.1, "Passcode:"@)
        || contains(text, t.0, t.1, "Verification code:"@) || contains(text, t.0, t.1, "OTP:"@)
        || contains(text, t.0, t.1, "Enter OTP:"@) || contains(text, t.0, t.1, "Enter PIN:"@)
        || contains(text, t.0, t.1, "Token:"@) {
        Prompt::Otp
    } else {
        Prompt::Nothing
    }
}

/// The prompt at the end of the pending daemon output `text`.
pub fn detect_prompt(text: &str) -> (p: Prompt)
    ensures
        p == prompt_in(text@),
{
    let s = chars_of(text);
    let (a, b) = trim_range(&s, 0, s.len());
    if span_ends_with(&s, a, b, &chars_of("Preshared Key:")) {
        Prompt::PresharedKey
    } else if span_ends_with(&s, a, b, &chars_of("Password:"))
        || span_ends_with(&s, a, b, &chars_of("EAP password:")) {
        Prompt::Password
    } else if span_ends_with(&s, a, b, &chars_of("PIN:"))
        || span_ends_with(&s, a, b, &chars_of("Passcode:"))
        || span_contains(&s, a, b, &chars_of("Verification code:"))
        || span_contains(&s, a, b, &chars_of("OTP:"))
        || span_contains(&s, a, b, &chars_of("Enter OTP:"))
        || span_contains(&s, a, b, &chars_of("Enter PIN:"))
        || span_contains(&s, a, b, &chars_of("Token:")) {
        Prompt::Otp
    } else {
        Prompt::Nothing
    }
}

/// How the helper answers a prompt.
pub struct PromptAnswer {
    /// Text to type into the daemon's terminal now.
    pub reply: Option<String>,
    /// The state the tunnel enters.
    pub state: TunnelState,
    /// The status to report.
    pub status: HelperMessage,
    /// Whether the answer waits for a one-time code from the user.
    pub await_otp: bool,
}

/// The answer to `prompt`: the pre-shared key or the password, each followed by a newline,
/// with the tunnel then authenticating; or, for a one-time code, a wait for the user.
/// No answer when there is no prompt.
pub fn answer_prompt(prompt: Prompt, psk: &str, password: &str) -> (r: Option<PromptAnswer>)
    ensures
        prompt == Prompt::Nothing <==> r is None,
        prompt == Prompt::PresharedKey ==> (r matches Some(a) && opt_view(a.reply) == Some(psk@ + "\n"@)
            && a.state == TunnelState::Authenticating && !a.await_otp
            && a.status@ == (HelperMessageView::Status {
                state: state_text(TunnelState::Authenticating),
                message: "Sending pre-shared key..."@,
            })),
        prompt == Prompt::Password ==> (r matches Some(a) && opt_view(a.reply) == Some(password@ + "\n"@)
            && a.state == TunnelState::Authenticating && !a.await_otp
            && a.status@ == (HelperMessageView::Status {
                state: state_text(TunnelState::Authenticating),
                message: "Sending account password..."@,
            })),
        prompt == Prompt::Otp ==> (r matches Some(a) && a.reply is None
            && a.state == TunnelState::WaitingForOtp && a.await_otp
            && a.status@ == (HelperMessageView::Status {
                state: state_text(TunnelState::WaitingForOtp),
                message: "Two-Factor Security Code Required"@,
            })),
{
    match prompt {
        Prompt::PresharedKey => Some(PromptAnswer {
            reply: Some(joined(psk, "\n")),
            state: TunnelState::Authenticating,
            status: status_message(TunnelState::Authenticating, "Sending pre-shared key..."),
            await_otp: false,
        }),
        Prompt::Password => Some(PromptAnswer {
            reply: Some(joined(password, "\n")),
            state: TunnelState::Authenticating,
            status: status_message(TunnelState::Authenticating, "Sending account password..."),
            await_otp: false,
        }),
        Prompt::Otp => Some(PromptAnswer {
            reply: None,
            state: TunnelState::WaitingForOtp,
            status: status_message(TunnelState::WaitingForOtp, "Two-Factor Security Code Required"),
            await_otp: true,
        }),
        Prompt::Nothing => None,
    }
}

/// The answer once the user has given the one-time code `otp`: the code and a newline
/// are typed, and the tunnel is then being established.
pub fn answer_otp(otp: &str) -> (r: PromptAnswer)
    ensures
        opt_view(r.reply) == Some(otp@ + "\n"@),
        r.state == TunnelState::EstablishingTunnel,
        !r.await_otp,
        r.status@ == (HelperMessageView::Status {
            state: state_text(TunnelState::EstablishingTunnel),
            message: "Submitting Verification Code..."@,
        }),
{
    PromptAnswer {
        reply: Some(joined(otp, "\n")),
        state: TunnelState::EstablishingTunnel,
        status: status_message(TunnelState::EstablishingTunnel, "Submitting Verification Code..."),
        await_otp: false,
    }
}

/// The first complete line of the pending output `buffer`, newline included, which it
/// removes; `None`, and the buffer unchanged, when no newline has arrived yet.
pub fn take_line(buffer: &mut Vec<u8>) -> (r: Option<Vec<u8>>)
    ensures
        match r {
            Some(l) => l@.len() > 0 && l@.last() == 10u8
                && (forall|k: int| 0 <= k < l@.len() - 1 ==> l@[k] != 10u8)
                && old(buffer)@ == l@ + final(buffer)@,
            None => final(buffer)@ == old(buffer)@
                && forall|k: int| 0 <= k < old(buffer)@.len() ==> old(buffer)@[k] != 10u8,
        },
{
    let mut pos: usize = 0;
    while pos < buffer.len() && buffer[pos] != 10u8
        invariant
            pos <= buffer@.len(),
            forall|k: int| 0 <= k < pos ==> buffer@[k] != 10u8,
        decreases buffer@.len() - pos,
    {
        pos = pos + 1;
    }
    if pos == buffer.len() {
        return None;
    }
    let mut line = buffer.split_off(pos + 1);
    std::mem::swap(buffer, &mut line);
    assert(old(buffer)@ =~= line@ + buffer@);
    Some(line)
}

/// The arguments of `charon-cmd` for an IKEv1 aggressive-mode XAuth connection with a
/// pre-shared key to `host`, authenticating the gateway as `remote_id` and the user as
/// `username`.
pub open spec fn charon_argv(host: Seq<char>, remote_id: Seq<char>, username: Seq<char>) -> Seq<Seq<char>> {
    seq![
        "--host"@, host,
        "--identity"@, "%any"@,
        "--remote-identity"@, remote_id,
        "--xauth-username"@, username,
        "--profile"@, "ikev1-xauth-psk-am"@,
        "--ike-proposal"@, "aes128-sha256-modp2048"@,
        "--remote-ts"@, "0.0.0.0/0"@,
        "--debug"@, "1"@,
    ]
}

/// The arguments that `charon-cmd` is started with.
pub fn charon_args(host: &str, remote_id: &str, username: &str) -> (r: Vec<String>)
    ensures
        r@.map_values(|a: String| a@) == charon_argv(host@, remote_id@, username@),
{
    let mut r: Vec<String> = Vec::new();
    r.push("--host".to_owned());
    r.push(host.to_owned());
    r.push("--identity".to_owned());
    r.push("%any".to_owned());
    r.push("--remote-identity".to_owned());
    r.push(remote_id.to_owned());
    r.push("--xauth-username".to_owned());
    r.push(username.to_owned());
    r.push("--profile".to_owned());
    r.push("ikev1-xauth-psk-am".to_owned());
    r.push("--ike-proposal".to_owned());
    r.push("aes128-sha256-modp2048".to_owned());
    r.push("--remote-ts".to_owned());
    r.push("0.0.0.0/0".to_owned());
    r.push("--debug".to_owned());
    r.push("1".to_owned());
    assert(r@.map_values(|a: String| a@) =~= charon_argv(host@, remote_id@, username@));
    r
}

/// Whether the gateway identity must be looked up: it is blank.
pub fn needs_resolution(remote_identity: &str) -> (b: bool)
    ensures
        b == (trim(remote_identity@).len() == 0),
{
    let s = chars_of(remote_identity);
    let (a, b) = trim_range(&s, 0, s.len());
    a == b
}

/// The identity the gateway is authenticated as: the configured one, or, when that is
/// blank, the first address that `host` resolved to, or `host` itself.
pub fn choose_remote_id(remote_identity: &str, host: &str, resolved: Option<String>) -> (r: String)
    ensures
        r@ == (if trim(remote_identity@).len() == 0 {
            match resolved {
                Some(addr) => addr@,
                None => host@,
            }
        } else {
            remote_identity@
        }),
{
    if needs_resolution(remote_identity) {
        match resolved {
            Some(addr) => addr,
            None => host.to_owned(),
        }
    } else {
        remote_identity.to_owned()
    }
}

/// A line whose trimmed text holds one of the phrases by which the daemon rejects the
/// credentials (`AUTHENTICATION_FAILED`, `invalid preshared key`, `XAuth authentication
/// failed`, `no secret found for`) is reported as logged, and last with the error that the
/// pre-shared key or the password is invalid.
pub proof fn lemma_rejected_credentials_reported(line: Seq<char>, phrase: Seq<char>)
    requires
        phrase == "AUTHENTICATION_FAILED"@ || phrase == "invalid preshared key"@
            || phrase == "XAuth authentication failed"@ || phrase == "no secret found for"@,
        contains(line, trim_span(line, 0, line.len() as int).0, trim_span(line, 0, line.len() as int).1, phrase),
    ensures
        line_messages(line).len() >= 2,
        line_messages(line)[0] == (HelperMessageView::Log { message: trim(line) }),
        line_messages(line).last() == (HelperMessageView::Error {
            message: "Authentication Failed: Invalid Pre-Shared Key (PSK) or Password."@,
        }),
{
    let t = trim_span(line, 0, line.len() as int);
    lemma_skip_ws_bounds(line, 0, line.len() as int);
    lemma_skip_ws_back_bounds(line, t.0, line.len() as int);
    lemma_find_in_bounds(line, phrase, t.0, t.1);
    reveal_strlit("AUTHENTICATION_FAILED");
    reveal_strlit("invalid preshared key");
    reveal_strlit("XAuth authentication failed");
    reveal_strlit("no secret found for");
    assert(phrase.len() > 0);
    assert(trim(line).len() > 0);
    assert(reported_failure(line) == Some(auth_failure_text()));
}

/// Pending output whose trimmed text holds a one-time code request (`OTP:`, `Enter OTP:`,
/// `Enter PIN:`, `Verification code:`, `Token:`), and does not end as a pre-shared key or
/// password prompt, is a one-time code prompt.
pub proof fn lemma_code_request_detected(text: Seq<char>, phrase: Seq<char>)
    requires
        phrase == "OTP:"@ || phrase == "Enter OTP:"@ || phrase == "Enter PIN:"@
            || phrase == "Verification code:"@ || phrase == "Token:"@,
        contains(text, trim_span(text, 0, text.len() as int).0, trim_span(text, 0, text.len() as int).1, phrase),
        !ends_with(text, trim_span(text, 0, text.len() as int).0, trim_span(text, 0, text.len() as int).1, "Preshared Key:"@),
        !ends_with(text, trim_span(text, 0, text.len() as int).0, trim_span(text, 0, text.len() as int).1, "Password:"@),
        !ends_with(text, trim_span(text, 0, text.len() as int).0, trim_span(text, 0, text.len() as int).1, "EAP password:"@),
    ensures
        prompt_in(text) == Prompt::Otp,
{
}

/// Pending output whose trimmed text ends with `PIN:` or `Passcode:`, and does not end as a
/// pre-shared key or password prompt, is a one-time code prompt.
pub proof fn lemma_code_prompt_ending_detected(text: Seq<char>, ending: Seq<char>)
    requires
        ending == "PIN:"@ || ending == "Passcode:"@,
        ends_with(text, trim_span(text, 0, text.len() as int).0, trim_span(text, 0, text.len() as int).1, ending),
        !ends_with(text, trim_span(text, 0, text.len() as int).0, trim_span(text, 0, text.len() as int).1, "Preshared Key:"@),
        !ends_with(text, trim_span(text, 0, text.len() as int).0, trim_span(text, 0, text.len() as int).1, "Password:"@),
        !ends_with(text, trim_span(text, 0, text.len() as int).0, trim_span(text, 0, text.len() as int).1, "EAP password:"@),
    ensures
        prompt_in(text) == Prompt::Otp,
{
}

/// A line whose trimmed text holds `NO_PROPOSAL_CHOSEN`, and none of the phrases of rejected
/// credentials, is reported as logged, and last with the error that the gateway rejected
/// the proposals.
pub proof fn lemma_rejected_proposal_reported(line: Seq<char>)
    requires
        contains(line, trim_span(line, 0, line.len() as int).0, trim_span(line, 0, line.len() as int).1, "NO_PROPOSAL_CHOSEN"@),
        !contains(line, trim_span(line, 0, line.len() as int).0, trim_span(line, 0, line.len() as int).1, "AUTHENTICATION_FAILED"@),
        !contains(line, trim_span(line, 0, line.len() as int).0, trim_span(line, 0, line.len() as int).1, "invalid preshared key"@),
        !contains(line, trim_span(line, 0, line.len() as int).0, trim_span(line, 0, line.len() as int).1, "XAuth authentication failed"@),
        !contains(line, trim_span(line, 0, line.len() as int).0, trim_span(line, 0, line.len() as int).1, "no secret found for"@),
    ensures
        line_messages(line).len() >= 2,
        line_messages(line)[0] == (HelperMessageView::Log { message: trim(line) }),
        line_messages(line).last() == (HelperMessageView::Error {
            message: "IPsec Proposal Mismatch: The gateway rejected the encryption proposals."@,
        }),
{
    let t = trim_span(line, 0, line.len() as int);
    lemma_skip_ws_bounds(line, 0, line.len() as int);
    lemma_skip_ws_back_bounds(line, t.0, line.len() as int);
    lemma_find_in_bounds(line, "NO_PROPOSAL_CHOSEN"@, t.0, t.1);
    reveal_strlit("NO_PROPOSAL_CHOSEN");
    assert(trim(line).len() > 0);
    assert(reported_failure(line) == Some(proposal_failure_text()));
}

/// A line whose trimmed text holds none of the failure phrases reports no error: every
/// message it gives is a log entry.
pub proof fn lemma_plain_line_reports_no_error(line: Seq<char>, k: int)
    requires
        !contains(line, trim_span(line, 0, line.len() as int).0, trim_span(line, 0, line.len() as int).1, "NO_PROPOSAL_CHOSEN"@),
        !contains(line, trim_span(line, 0, line.len() as int).0, trim_span(line, 0, line.len() as int).1, "AUTHENTICATION_FAILED"@),
        !contains(line, trim_span(line, 0, line.len() as int).0, trim_span(line, 0, line.len() as int).1, "invalid preshared key"@),
        !contains(line, trim_span(line, 0, line.len() as int).0, trim_span(line, 0, line.len() as int).1, "XAuth authentication failed"@),
        !contains(line, trim_span(line, 0, line.len() as int).0, trim_span(line, 0, line.len() as int).1, "no secret found for"@),
        0 <= k < line_messages(line).len(),
    ensures
        line_messages(line)[k] is Log,
{
    assert(reported_failure(line) is None);
}

/// Pending output whose trimmed text ends with `Preshared Key:` is a pre-shared key prompt;
/// one that ends with `Password:` or `EAP password:` (and not as a pre-shared key prompt) is
/// a password prompt.
pub proof fn lemma_credential_prompts_detected(text: Seq<char>)
    ensures
        ends_with(text, trim_span(text, 0, text.len() as int).0, trim_span(text, 0, text.len() as int).1, "Preshared Key:"@)
            ==> prompt_in(text) == Prompt::PresharedKey,
        !ends_with(text, trim_span(text, 0, text.len() as int).0, trim_span(text, 0, text.len() as int).1, "Preshared Key:"@)
            && (ends_with(text, trim_span(text, 0, text.len() as int).0, trim_span(text, 0, text.len() as int).1, "Password:"@)
            || ends_with(text, trim_span(text, 0, text.len() as int).0, trim_span(text, 0, text.len() as int).1, "EAP password:"@))
            ==> prompt_in(text) == Prompt::Password,
{
}

/// The line `[IKE] installing new virtual IP <ip>` announces the address `<ip>` as the
/// virtual IP, and reports it right after the logged line as `Parsed virtual IP: <ip>`.
pub proof fn lemma_virtual_ip_announced(ip: Seq<char>)
    requires
        is_address(ip),
    ensures
        announced_virtual_ip("[IKE] installing new virtual IP "@ + ip + "\n"@) == Some(ip),
        line_messages("[IKE] installing new virtual IP "@ + ip + "\n"@)[1]
            == (HelperMessageView::Log { message: "Parsed virtual IP: "@ + ip }),
{
    reveal_strlit("[IKE] installing new virtual IP ");
    reveal_strlit("installing new virtual IP ");
    reveal_strlit("\n");
    let pre = "[IKE] installing new virtual IP "@;
    let line = pre + ip + "\n"@;
    let tag = vip_tag();
    let a = ip.len() as int;
    let n = 33 + a;
    assert(line.len() == n);
    assert forall|k: int| 0 <= k < a implies #[trigger] line[32 + k] == ip[k] by {}
    assert forall|k: int| 32 <= k < n - 1 implies is_address_char(#[trigger] line[k]) by {
        assert(line[32 + (k - 32)] == ip[k - 32]);
    }
    assert(line[n - 1] == '\n');
    assert(is_address_char(line[n - 2]));
    assert(skip_ws_back(line, 0, n - 1) == n - 1);
    assert(trim_span(line, 0, n) == (0int, n - 1));
    assert forall|j: int| 0 <= j < 6 implies !#[trigger] occurs_at(line, tag, j, n - 1) by {
        if occurs_at(line, tag, j, n - 1) {
            assert(line.subrange(j, j + 26)[0] == line[j]);
        }
    }
    assert(line.subrange(6, 32) =~= tag);
    lemma_find_in_first(line, tag, 0, 6, n - 1);
    assert forall|j: int| 32 <= j < n - 1 implies !is_ws(#[trigger] line[j]) by {
        assert(is_address_char(line[j]));
    }
    lemma_word_at(line, 32, n - 1, n - 1);
    assert(line.subrange(32, n - 1) =~= ip);
    assert(trim(line).len() > 0);
}

/// The line `[IKE] initiating Aggressive Mode IKE_SA charon-cmd[1] to <ip>` announces the
/// address `<ip>` as the gateway, and is reported with `Parsed active tunnel Gateway IP:
/// <ip>`.
pub proof fn lemma_gateway_ip_announced(ip: Seq<char>)
    requires
        is_address(ip),
    ensures
        announced_gateway_ip("[IKE] initiating Aggressive Mode IKE_SA charon-cmd[1] to "@ + ip + "\n"@)
            == Some(ip),
        line_messages("[IKE] initiating Aggressive Mode IKE_SA charon-cmd[1] to "@ + ip + "\n"@).contains(
            HelperMessageView::Log { message: "Parsed active tunnel Gateway IP: "@ + ip },
        ),
{
    reveal_strlit("[IKE] initiating Aggressive Mode IKE_SA charon-cmd[1] to ");
    reveal_strlit(" initiating ");
    reveal_strlit(" IKE_SA ");
    reveal_strlit(" to ");
    reveal_strlit("\n");
    let pre = "[IKE] initiating Aggressive Mode IKE_SA charon-cmd[1] to "@;
    let line = pre + ip + "\n"@;
    let a = ip.len() as int;
    let n = 58 + a;
    assert(line.len() == n);
    assert forall|k: int| 0 <= k < a implies #[trigger] line[57 + k] == ip[k] by {}
    assert forall|k: int| 57 <= k < n - 1 implies is_address_char(#[trigger] line[k]) by {
        assert(line[57 + (k - 57)] == ip[k - 57]);
    }
    assert(line[n - 1] == '\n');
    assert(is_address_char(line[n - 2]));
    assert(skip_ws_back(line, 0, n - 1) == n - 1);
    assert(trim_span(line, 0, n) == (0int, n - 1));
    assert(line.subrange(5, 17) =~= " initiating "@);
    lemma_find_in_finds(line, " initiating "@, 0, 5, n - 1);
    assert(line.subrange(32, 40) =~= " IKE_SA "@);
    lemma_find_in_finds(line, " IKE_SA "@, 0, 32, n - 1);
    let to = " to "@;
    assert(line.subrange(53, 57) =~= to);
    assert forall|j: int| 53 < j <= n - 5 implies !#[trigger] occurs_at(line, to, j, n - 1) by {
        if occurs_at(line, to, j, n - 1) {
            assert(line.subrange(j, j + 4)[0] == line[j]);
            assert(line.subrange(j, j + 4)[1] == line[j + 1]);
            if j >= 57 {
                assert(is_address_char(line[j]));
            } else if j == 56 {
                assert(is_address_char(line[57]));
            }
        }
    }
    lemma_rfind_from_last(line, to, 0, n - 5, 53, n - 1);
    assert(is_address_char(line[57]));
    assert(trim_span(line, 57, n - 1) == (57int, n - 1));
    assert forall|j: int| 57 <= j < n - 1 implies !is_ws(#[trigger] line[j]) by {
        assert(is_address_char(line[j]));
    }
    lemma_word_at(line, 57, n - 1, n - 1);
    assert(strip_brackets(line, 57, n - 1) == (57int, n - 1));
    assert(line.subrange(57, n - 1) =~= ip);
    assert(trim(line).len() > 0);
    let m = line_messages(line);
    let k = if announced_virtual_ip(line) is Some { 2int } else { 1int };
    assert(m[k] == HelperMessageView::Log { message: "Parsed active tunnel Gateway IP: "@ + ip });
}

} // verus!
