//! Decisions of the privileged helper: what it does with each command of the application,
//! and what it concludes each time it looks at the tunnel.

use vstd::prelude::*;
use crate::protocol::{
    lemma_messages_push, messages_view, state_text, status_message, GuiCommand, GuiCommandView,
    HelperMessage, HelperMessageView, TunnelState,
};
use crate::text::{
    chars_of, contains, find_char, find_in, joined, lines, lines_from, opt_view,
    span_contains, span_eq, span_find, span_find_char, span_string, spans, spans_within,
    trim_range, trim_span, lemma_find_char_at, lemma_find_in_finds, lemma_find_in_first,
    lemma_find_in_none, lemma_lines_to_newline, occurs_at,
};
use crate::xfrm::{is_address, is_address_char, parse_xfrm_stats, xfrm_traffic, xfrm_traffic_fits};

verus! {

/// What the helper does with a command.
pub enum CommandAction {
    /// Refuse the command, reporting `message`.
    Refuse { message: HelperMessage },
    /// Report `status`, then bring a tunnel up with these settings.
    Connect {
        status: HelperMessage,
        host: String,
        remote_identity: String,
        username: String,
        psk: String,
        password: String,
    },
    /// Hand the one-time code to the session that waits for it.
    ForwardOtp { otp: String },
    /// Nothing to do.
    Ignore,
    /// Report `notice` if there is one, stop the running tunnel if any, and exit.
    Shutdown { notice: Option<HelperMessage> },
}

/// What the helper does with `cmd`, given whether a tunnel runs and whether a session
/// waits for a one-time code: a second connection is refused; a connection is announced
/// as resolving its host; a code goes to the waiting session; a disconnect ends the
/// helper, announcing it when a tunnel ran.
pub fn on_command(connection_active: bool, otp_waiting: bool, cmd: GuiCommand) -> (r: CommandAction)
    ensures
        match (cmd@, r) {
            (GuiCommandView::Connect { host, remote_identity, username, psk, password },
                CommandAction::Refuse { message }) =>
                connection_active && message@ == (HelperMessageView::Error {
                    message: "VPN is already running"@,
                }),
            (GuiCommandView::Connect { host, remote_identity, username, psk, password },
                CommandAction::Connect { status, host: h, remote_identity: ri, username: u, psk: k, password: w }) =>
                !connection_active
                && status@ == (HelperMessageView::Status {
                    state: state_text(TunnelState::Resolving),
                    message: "Resolving and initiating connection to "@ + host,
                })
                && h@ == host && ri@ == remote_identity && u@ == username && k@ == psk
                && w@ == password,
            (GuiCommandView::SubmitOtp { otp }, CommandAction::ForwardOtp { otp: o }) =>
                otp_waiting && o@ == otp,
            (GuiCommandView::SubmitOtp { otp }, CommandAction::Ignore) => !otp_waiting,
            (GuiCommandView::Disconnect, CommandAction::Shutdown { notice }) =>
                match notice {
                    Some(m) => connection_active && m@ == (HelperMessageView::Status {
                        state: state_text(TunnelState::Disconnected),
                        message: "Disconnecting VPN..."@,
                    }),
                    None => !connection_active,
                },
            _ => false,
        },
{
    match cmd {
        GuiCommand::Connect { host, remote_identity, username, psk, password } => {
            if connection_active {
                CommandAction::Refuse {
                    message: HelperMessage::Error { message: "VPN is already running".to_owned() },
                }
            } else {
                let text = joined("Resolving and initiating connection to ", host.as_str());
                let status = status_message(TunnelState::Resolving, text.as_str());
                CommandAction::Connect { status, host, remote_identity, username, psk, password }
            }
        },
        GuiCommand::SubmitOtp { otp } => {
            if otp_waiting {
                CommandAction::ForwardOtp { otp }
            } else {
                CommandAction::Ignore
            }
        },
        GuiCommand::Disconnect => {
            if connection_active {
                CommandAction::Shutdown {
                    notice: Some(status_message(TunnelState::Disconnected, "Disconnecting VPN...")),
                }
            } else {
                CommandAction::Shutdown { notice: None }
            }
        },
    }
}

/// The messages that report the exit of the daemon with `status`.
pub fn exit_messages(status: &str) -> (r: Vec<HelperMessage>)
    ensures
        messages_view(r@) == seq![
            HelperMessageView::Log { message: "charon-cmd exited with status: "@ + status@ },
            HelperMessageView::Status {
                state: state_text(TunnelState::Disconnected),
                message: "VPN process disconnected: "@ + status@,
            },
        ],
{
    let mut r: Vec<HelperMessage> = Vec::new();
    r.push(HelperMessage::Log { message: joined("charon-cmd exited with status: ", status) });
    let text = joined("VPN process disconnected: ", status);
    r.push(status_message(TunnelState::Disconnected, text.as_str()));
    assert(messages_view(r@) =~= seq![
        HelperMessageView::Log { message: "charon-cmd exited with status: "@ + status@ },
        HelperMessageView::Status {
            state: state_text(TunnelState::Disconnected),
            message: "VPN process disconnected: "@ + status@,
        },
    ]);
    r
}

/// The error that reports a failure `detail` to poll the daemon.
pub fn poll_error_message(detail: &str) -> (m: HelperMessage)
    ensures
        m@ == (HelperMessageView::Error { message: "Error polling child process: "@ + detail@ }),
{
    HelperMessage::Error { message: joined("Error polling child process: ", detail) }
}

/// The address inside the tunnel, read from the security associations in `out` from line
/// `k` on: the first line that holds `sel src ` followed by an address other than
/// `0.0.0.0` (what comes before `/`, trimmed).
pub open spec fn sel_src_from(out: Seq<char>, ls: Seq<(int, int)>, k: int) -> Option<Seq<char>>
    decreases ls.len() - k,
{
    if k < 0 || k >= ls.len() {
        None
    } else {
        let l = ls[k];
        match find_in(out, "sel src "@, l.0, l.1) {
            Some(p) => {
                let st = p + "sel src "@.len();
                let t = trim_span(out, st, find_char(out, '/', st, l.1));
                if t.0 < t.1 && out.subrange(t.0, t.1) != "0.0.0.0"@ {
                    Some(out.subrange(t.0, t.1))
                } else {
                    sel_src_from(out, ls, k + 1)
                }
            },
            None => sel_src_from(out, ls, k + 1),
        }
    }
}

/// The address inside the tunnel that the listing `out` shows, if any.
pub open spec fn tunnel_source_ip(out: Seq<char>) -> Option<Seq<char>> {
    sel_src_from(out, lines_from(out, 0, 0, out.len() as int), 0)
}

/// The address inside the tunnel that the listing `out` shows, if any.
pub fn find_tunnel_source_ip(out: &str) -> (r: Option<String>)
    ensures
        opt_view(r) == tunnel_source_ip(out@),
{
    let s = chars_of(out);
    let ls = lines(&s, 0, s.len());
    let tag = chars_of("sel src ");
    let zero = chars_of("0.0.0.0");
    let ghost sl = spans(ls@);
    let mut k: usize = 0;
    while k < ls.len()
        invariant
            s@ == out@,
            sl == spans(ls@),
            sl == lines_from(s@, 0, 0, s@.len() as int),
            spans_within(sl, 0, s@.len() as int),
            tag@ == "sel src "@,
            zero@ == "0.0.0.0"@,
            k <= ls@.len(),
            sel_src_from(s@, sl, k as int) == tunnel_source_ip(out@),
        decreases ls@.len() - k,
    {
        let (a, b) = ls[k];
        assert(sl[k as int] == (a as int, b as int));
        match span_find(&s, a, b, &tag) {
            Some(p) => {
                let st = p + tag.len();
                let e = span_find_char(&s, st, b, '/');
                let (ta, tb) = trim_range(&s, st, e);
                if ta < tb && !span_eq(&s, ta, tb, &zero) {
                    return Some(span_string(out, &s, ta, tb));
                }
            },
            None => {},
        }
        k = k + 1;
    }
    None
}

/// What a look at the tunnel concluded.
pub struct TickOutcome {
    /// Messages to report, in order.
    pub messages: Vec<HelperMessage>,
    /// The state of the tunnel afterwards.
    pub state: TunnelState,
    /// The address inside the tunnel afterwards.
    pub vpn_ip: Option<String>,
    /// Whether the tunnel has just come up (its uptime starts now).
    pub started: bool,
    /// Whether the tunnel was lost: the helper then stops the daemon and exits.
    pub lost: bool,
}

pub open spec fn tunnel_protocol_text() -> Seq<char> {
    "IPsec ESP / NAT-T"@
}

pub open spec fn tunnel_encryption_text() -> Seq<char> {
    "AES_CBC_128 / SHA256"@
}

/// Whether the listing `xfrm` shows an association with the gateway `gw`.
pub open spec fn in_kernel(gw: Seq<char>, xfrm: Option<Seq<char>>) -> bool {
    match xfrm {
        Some(o) => contains(o, 0, o.len() as int, gw),
        None => false,
    }
}

/// The address the tunnel is known to have after a look: the one known before, or else
/// the one the listing shows.
pub open spec fn known_ip(vpn_ip: Option<Seq<char>>, o: Seq<char>) -> Option<Seq<char>> {
    match vpn_ip {
        Some(v) => Some(v),
        None => tunnel_source_ip(o),
    }
}

/// Whether a look at the tunnel finds it newly up: the gateway has an association, an
/// address is known, and the state was not `Connected` yet.
pub open spec fn comes_up(state: TunnelState, gw: Seq<char>, vpn_ip: Option<Seq<char>>, xfrm: Option<Seq<char>>) -> bool {
    in_kernel(gw, xfrm) && known_ip(vpn_ip, xfrm->0) is Some && state != TunnelState::Connected
}

/// Whether a look at the tunnel finds it lost: no association with the gateway while the
/// tunnel was up or being established.
pub open spec fn is_lost(state: TunnelState, gw: Seq<char>, xfrm: Option<Seq<char>>) -> bool {
    !in_kernel(gw, xfrm)
        && (state == TunnelState::Connected || state == TunnelState::EstablishingTunnel)
}

/// The messages of a look at the tunnel in `state`, with gateway `gw`, known address
/// `vpn_ip`, uptime `uptime` (when it has come up before) and the listing `xfrm` (when it
/// could be taken): on coming up, the tunnel's details and its `Connected` status; while
/// it has an association and an uptime, its traffic; on losing it, its loss.
pub open spec fn tick_messages(
    state: TunnelState,
    gw: Seq<char>,
    vpn_ip: Option<Seq<char>>,
    uptime: Option<u64>,
    xfrm: Option<Seq<char>>,
) -> Seq<HelperMessageView> {
    let up = comes_up(state, gw, vpn_ip, xfrm);
    let first = if up {
        seq![
            HelperMessageView::TunnelInfo {
                vpn_ip: known_ip(vpn_ip, xfrm->0)->0,
                gateway_ip: gw,
                protocol: tunnel_protocol_text(),
                encryption: tunnel_encryption_text(),
            },
            HelperMessageView::Status {
                state: state_text(TunnelState::Connected),
                message: "VPN connection successfully established!"@,
            },
        ]
    } else {
        seq![]
    };
    let stats = if in_kernel(gw, xfrm) && (up || uptime is Some) {
        seq![
            HelperMessageView::Stats {
                bytes_sent: xfrm_traffic(xfrm->0, gw).0 as u64,
                bytes_received: xfrm_traffic(xfrm->0, gw).1 as u64,
                uptime_secs: if up { 0 } else { uptime->0 },
            },
        ]
    } else {
        seq![]
    };
    let loss = if is_lost(state, gw, xfrm) {
        seq![
            HelperMessageView::Status {
                state: state_text(TunnelState::Disconnected),
                message: "IPsec security association lost"@,
            },
        ]
    } else {
        seq![]
    };
    first + stats + loss
}

/// A look at the tunnel in `state` with gateway `gateway_ip`, known address `vpn_ip`,
/// uptime `uptime` and the listing `xfrm` of `ip -s xfrm state` (`None` when it could not
/// be taken).
pub fn monitor_tick(
    state: TunnelState,
    gateway_ip: &str,
    vpn_ip: Option<String>,
    uptime: Option<u64>,
    xfrm: Option<&str>,
) -> (r: TickOutcome)
    requires
        xfrm matches Some(o) ==> xfrm_traffic_fits(o@, gateway_ip@),
    ensures
        messages_view(r.messages@) == tick_messages(
            state,
            gateway_ip@,
            opt_view(vpn_ip),
            uptime,
            match xfrm { Some(o) => Some(o@), None => None },
        ),
        ({
            let x = match xfrm { Some(o) => Some(o@), None => None };
            &&& r.started == comes_up(state, gateway_ip@, opt_view(vpn_ip), x)
            &&& r.lost == is_lost(state, gateway_ip@, x)
            &&& r.state == (if r.started { TunnelState::Connected } else { state })
            &&& opt_view(r.vpn_ip) == (if r.started {
                known_ip(opt_view(vpn_ip), x->0)
            } else {
                opt_view(vpn_ip)
            })
        }),
{
    let ghost x = match xfrm { Some(o) => Some(o@), None => None::<Seq<char>> };
    let ghost old_ip = opt_view(vpn_ip);
    let mut messages: Vec<HelperMessage> = Vec::new();
    let mut new_state = state;
    let mut new_ip = vpn_ip;
    let mut started = false;
    let mut kernel = false;
    match xfrm {
        Some(out) => {
            let (sent, received) = parse_xfrm_stats(out, gateway_ip);
            let s = chars_of(out);
            let g = chars_of(gateway_ip);
            if span_contains(&s, 0, s.len(), &g) {
                kernel = true;
                let ip = match &new_ip {
                    Some(v) => Some(v.clone()),
                    None => find_tunnel_source_ip(out),
                };
                assert(opt_view(ip) == known_ip(old_ip, out@));
                match ip {
                    Some(ip) => {
                        if state != TunnelState::Connected {
                            let info = HelperMessage::TunnelInfo {
                                vpn_ip: ip.clone(),
                                gateway_ip: gateway_ip.to_owned(),
                                protocol: "IPsec ESP / NAT-T".to_owned(),
                                encryption: "AES_CBC_128 / SHA256".to_owned(),
                            };
                            proof {
                                lemma_messages_push(messages@, info);
                            }
                            messages.push(info);
                            let st = status_message(
                                TunnelState::Connected,
                                "VPN connection successfully established!",
                            );
                            proof {
                                lemma_messages_push(messages@, st);
                            }
                            messages.push(st);
                            new_state = TunnelState::Connected;
                            new_ip = Some(ip);
                            started = true;
                        }
                    },
                    None => {},
                }
                if started || uptime.is_some() {
                    let secs = if started {
                        0
                    } else {
                        match uptime {
                            Some(u) => u,
                            None => 0,
                        }
                    };
                    let m = HelperMessage::Stats {
                        bytes_sent: sent,
                        bytes_received: received,
                        uptime_secs: secs,
                    };
                    proof {
                        lemma_messages_push(messages@, m);
                    }
                    messages.push(m);
                }
            }
        },
        None => {},
    }
    let lost = !kernel && (state == TunnelState::Connected || state
        == TunnelState::EstablishingTunnel);
    if lost {
        let m = status_message(TunnelState::Disconnected, "IPsec security association lost");
        proof {
            lemma_messages_push(messages@, m);
        }
        messages.push(m);
    }
    assert(messages_view(messages@) =~= tick_messages(state, gateway_ip@, old_ip, uptime, x));
    TickOutcome { messages, state: new_state, vpn_ip: new_ip, started, lost }
}

/// A tunnel that is up is never announced again, and it is lost exactly when a look finds
/// no association with its gateway.
pub proof fn lemma_connected_tunnel_ticks(
    gw: Seq<char>,
    vpn_ip: Option<Seq<char>>,
    xfrm: Option<Seq<char>>,
)
    ensures
        !comes_up(TunnelState::Connected, gw, vpn_ip, xfrm),
        is_lost(TunnelState::Connected, gw, xfrm) <==> !in_kernel(gw, xfrm),
{
}

/// Traffic is reported only while the gateway has an association, and then with the
/// totals of the listing.
pub proof fn lemma_stats_need_association(
    state: TunnelState,
    gw: Seq<char>,
    vpn_ip: Option<Seq<char>>,
    uptime: Option<u64>,
    xfrm: Option<Seq<char>>,
    k: int,
)
    requires
        0 <= k < tick_messages(state, gw, vpn_ip, uptime, xfrm).len(),
        tick_messages(state, gw, vpn_ip, uptime, xfrm)[k] is Stats,
    ensures
        in_kernel(gw, xfrm),
        tick_messages(state, gw, vpn_ip, uptime, xfrm)[k] matches HelperMessageView::Stats {
            bytes_sent,
            bytes_received,
            uptime_secs,
        } && bytes_sent == xfrm_traffic(xfrm->0, gw).0 as u64
            && bytes_received == xfrm_traffic(xfrm->0, gw).1 as u64,
{
    let m = tick_messages(state, gw, vpn_ip, uptime, xfrm);
    if !in_kernel(gw, xfrm) {
        assert(!comes_up(state, gw, vpn_ip, xfrm));
        if is_lost(state, gw, xfrm) {
            assert(m.len() == 1);
        } else {
            assert(m.len() == 0);
        }
    } else {
        assert(!is_lost(state, gw, xfrm));
        if comes_up(state, gw, vpn_ip, xfrm) {
            assert(m.len() == 3);
            assert(k == 2);
        } else {
            assert(k == 0);
        }
    }
}

/// Whenever a look at the tunnel, in any state but `Connected` (such as `Connecting`,
/// `Authenticating` or `EstablishingTunnel`), finds the gateway in the listing and an
/// address is known (from before, or from the listing), the tunnel comes up: it is reported
/// with its address and gateway, then as `Connected`, then with its traffic and no uptime
/// yet; it is not lost, and its state becomes `Connected`.
pub proof fn lemma_tunnel_comes_up(
    state: TunnelState,
    gw: Seq<char>,
    vpn_ip: Option<Seq<char>>,
    uptime: Option<u64>,
    o: Seq<char>,
)
    requires
        state != TunnelState::Connected,
        contains(o, 0, o.len() as int, gw),
        vpn_ip is Some || tunnel_source_ip(o) is Some,
    ensures
        comes_up(state, gw, vpn_ip, Some(o)),
        !is_lost(state, gw, Some(o)),
        tick_messages(state, gw, vpn_ip, uptime, Some(o)) == seq![
            HelperMessageView::TunnelInfo {
                vpn_ip: match vpn_ip {
                    Some(v) => v,
                    None => tunnel_source_ip(o)->0,
                },
                gateway_ip: gw,
                protocol: "IPsec ESP / NAT-T"@,
                encryption: "AES_CBC_128 / SHA256"@,
            },
            HelperMessageView::Status {
                state: "Connected"@,
                message: "VPN connection successfully established!"@,
            },
            HelperMessageView::Stats {
                bytes_sent: xfrm_traffic(o, gw).0 as u64,
                bytes_received: xfrm_traffic(o, gw).1 as u64,
                uptime_secs: 0,
            },
        ],
{
    let m = tick_messages(state, gw, vpn_ip, uptime, Some(o));
    assert(m =~= seq![
        HelperMessageView::TunnelInfo {
            vpn_ip: match vpn_ip {
                Some(v) => v,
                None => tunnel_source_ip(o)->0,
            },
            gateway_ip: gw,
            protocol: "IPsec ESP / NAT-T"@,
            encryption: "AES_CBC_128 / SHA256"@,
        },
        HelperMessageView::Status {
            state: "Connected"@,
            message: "VPN connection successfully established!"@,
        },
        HelperMessageView::Stats {
            bytes_sent: xfrm_traffic(o, gw).0 as u64,
            bytes_received: xfrm_traffic(o, gw).1 as u64,
            uptime_secs: 0,
        },
    ]);
}

/// Whenever a look at the tunnel finds no association with the gateway (no listing, or one
/// that does not hold the gateway) while the tunnel was `Connected` or being established,
/// the tunnel is lost: the look reports only that loss, as `Disconnected`, and does not
/// bring it up. In the other states such a look reports nothing.
pub proof fn lemma_missing_association(
    state: TunnelState,
    gw: Seq<char>,
    vpn_ip: Option<Seq<char>>,
    uptime: Option<u64>,
    xfrm: Option<Seq<char>>,
)
    requires
        xfrm matches Some(o) ==> !contains(o, 0, o.len() as int, gw),
    ensures
        !comes_up(state, gw, vpn_ip, xfrm),
        (state == TunnelState::Connected || state == TunnelState::EstablishingTunnel)
            ==> is_lost(state, gw, xfrm) && tick_messages(state, gw, vpn_ip, uptime, xfrm) == seq![
                HelperMessageView::Status {
                    state: "Disconnected"@,
                    message: "IPsec security association lost"@,
                },
            ],
        !(state == TunnelState::Connected || state == TunnelState::EstablishingTunnel)
            ==> !is_lost(state, gw, xfrm) && tick_messages(state, gw, vpn_ip, uptime, xfrm).len() == 0,
{
    let m = tick_messages(state, gw, vpn_ip, uptime, xfrm);
    if state == TunnelState::Connected || state == TunnelState::EstablishingTunnel {
        assert(m =~= seq![
            HelperMessageView::Status {
                state: "Disconnected"@,
                message: "IPsec security association lost"@,
            },
        ]);
    }
}

/// While the tunnel is `Connected` with an uptime and the listing holds the gateway, each
/// look reports exactly its traffic, the totals of the listing, with that uptime; the
/// tunnel stays as it is.
pub proof fn lemma_connected_reports_traffic(
    gw: Seq<char>,
    vpn_ip: Option<Seq<char>>,
    uptime: u64,
    o: Seq<char>,
)
    requires
        contains(o, 0, o.len() as int, gw),
    ensures
        !comes_up(TunnelState::Connected, gw, vpn_ip, Some(o)),
        !is_lost(TunnelState::Connected, gw, Some(o)),
        tick_messages(TunnelState::Connected, gw, vpn_ip, Some(uptime), Some(o)) == seq![
            HelperMessageView::Stats {
                bytes_sent: xfrm_traffic(o, gw).0 as u64,
                bytes_received: xfrm_traffic(o, gw).1 as u64,
                uptime_secs: uptime,
            },
        ],
{
    let m = tick_messages(TunnelState::Connected, gw, vpn_ip, Some(uptime), Some(o));
    assert(m =~= seq![
        HelperMessageView::Stats {
            bytes_sent: xfrm_traffic(o, gw).0 as u64,
            bytes_received: xfrm_traffic(o, gw).1 as u64,
            uptime_secs: uptime,
        },
    ]);
}

/// One association whose selector line names the address inside the tunnel, as
/// `ip -s xfrm state` lists it: `src <src> dst <dst>`, then
/// `\tsel src <inner>/32 dst 0.0.0.0/0`.
#[verifier::opaque]
pub open spec fn listing_with_selector(src: Seq<char>, dst: Seq<char>, inner: Seq<char>) -> Seq<char> {
    "src "@ + src + " dst "@ + dst + "\n\tsel src "@ + inner + "/32 dst 0.0.0.0/0\n"@
}

#[verifier::rlimit(50)]
proof fn lemma_listing_with_selector_chars(src: Seq<char>, dst: Seq<char>, inner: Seq<char>)
    requires
        is_address(src),
        is_address(dst),
        is_address(inner),
    ensures
        ({
            let o = listing_with_selector(src, dst, inner);
            let a = src.len() as int;
            let e = 9 + a + dst.len();
            let s0 = e + 10;
            let hi = s0 + inner.len() + 18;
            &&& o.len() == hi
            &&& o.subrange(9 + a, e) == dst
            &&& o.subrange(e + 2, e + 10) == "sel src "@
            &&& o.subrange(s0, s0 + inner.len()) == inner
            &&& o[0] == 's' && o[1] == 'r' && o[2] == 'c' && o[3] == ' '
            &&& forall|k: int| 4 <= k < 4 + a ==> is_address_char(#[trigger] o[k])
            &&& forall|k: int| 9 + a <= k < e ==> is_address_char(#[trigger] o[k])
            &&& forall|k: int| s0 <= k < s0 + inner.len() ==> is_address_char(#[trigger] o[k])
            &&& o[4 + a] == ' ' && o[5 + a] == 'd' && o[6 + a] == 's' && o[7 + a] == 't' && o[8 + a] == ' '
            &&& o[e] == '\n' && o[e + 1] == '\t' && o[e + 2] == 's'
            &&& forall|k: int| e + 2 <= k < s0 ==> #[trigger] o[k] != '\n'
            &&& forall|k: int| s0 + inner.len() <= k < hi - 1 ==> #[trigger] o[k] != '\n'
            &&& o[s0 + inner.len()] == '/' && o[hi - 2] == '0' && o[hi - 1] == '\n'
        }),
{
    reveal_strlit("src ");
    reveal_strlit(" dst ");
    reveal_strlit("\n\tsel src ");
    reveal_strlit("/32 dst 0.0.0.0/0\n");
    reveal_strlit("sel src ");
    reveal(listing_with_selector);
    let o = listing_with_selector(src, dst, inner);
    let a = src.len() as int;
    let b = dst.len() as int;
    let e = 9 + a + b;
    let s0 = e + 10;
    let c = inner.len() as int;
    let hi = s0 + c + 18;
    assert forall|k: int| 0 <= k < a implies #[trigger] o[4 + k] == src[k] by {}
    assert forall|k: int| 0 <= k < b implies #[trigger] o[9 + a + k] == dst[k] by {}
    assert forall|k: int| 0 <= k < c implies #[trigger] o[s0 + k] == inner[k] by {}
    assert forall|k: int| 0 <= k < 17 implies #[trigger] o[s0 + c + k] == "/32 dst 0.0.0.0/0\n"@[k] by {}
    assert(o.subrange(9 + a, e) =~= dst);
    assert(o.subrange(s0, s0 + c) =~= inner);
    assert(o.subrange(e + 2, e + 10) =~= "sel src "@);
    assert forall|k: int| 4 <= k < 4 + a implies is_address_char(#[trigger] o[k]) by {
        assert(o[4 + (k - 4)] == src[k - 4]);
    }
    assert forall|k: int| 9 + a <= k < e implies is_address_char(#[trigger] o[k]) by {
        assert(o[9 + a + (k - 9 - a)] == dst[k - 9 - a]);
    }
    assert forall|k: int| s0 <= k < s0 + c implies is_address_char(#[trigger] o[k]) by {
        assert(o[s0 + (k - s0)] == inner[k - s0]);
    }
    assert forall|k: int| s0 + c <= k < hi - 1 implies #[trigger] o[k] != '\n' by {
        assert(o[s0 + c + (k - s0 - c)] == "/32 dst 0.0.0.0/0\n"@[k - s0 - c]);
    }
}

/// The address inside the tunnel is read from the selector line of the listing: for one
/// association `src <src> dst <dst>` with the selector `sel src <inner>/32 ...`, where
/// `<inner>` is not `0.0.0.0`, it is `<inner>`. A look at the tunnel, in any state but
/// `Connected` and with no address known yet, then brings the tunnel up with the address
/// `<inner>` and the gateway `<dst>`.
pub proof fn lemma_selector_gives_tunnel_address(
    src: Seq<char>,
    dst: Seq<char>,
    inner: Seq<char>,
    state: TunnelState,
    uptime: Option<u64>,
)
    requires
        is_address(src),
        is_address(dst),
        is_address(inner),
        inner != "0.0.0.0"@,
    ensures
        tunnel_source_ip(listing_with_selector(src, dst, inner)) == Some(inner),
        contains(listing_with_selector(src, dst, inner), 0, listing_with_selector(src, dst, inner).len() as int, dst),
        state != TunnelState::Connected ==> comes_up(state, dst, None, Some(listing_with_selector(src, dst, inner)))
            && tick_messages(state, dst, None, uptime, Some(listing_with_selector(src, dst, inner)))[0]
            == (HelperMessageView::TunnelInfo {
                vpn_ip: inner,
                gateway_ip: dst,
                protocol: "IPsec ESP / NAT-T"@,
                encryption: "AES_CBC_128 / SHA256"@,
            }),
{
    lemma_listing_with_selector_chars(src, dst, inner);
    reveal_strlit("sel src ");
    let o = listing_with_selector(src, dst, inner);
    let a = src.len() as int;
    let e = 9 + a + dst.len() as int;
    let s0 = e + 10;
    let c = inner.len() as int;
    let hi = o.len() as int;
    let tag = "sel src "@;
    // its lines
    assert forall|j: int| 0 <= j < e implies #[trigger] o[j] != '\n' by {
        if 4 <= j < 4 + a || 9 + a <= j < e {
            assert(is_address_char(o[j]));
        }
    }
    assert forall|j: int| e + 1 <= j < hi - 1 implies #[trigger] o[j] != '\n' by {
        if s0 <= j < s0 + c {
            assert(is_address_char(o[j]));
        }
    }
    lemma_lines_to_newline(o, 0, 0, e, hi);
    lemma_lines_to_newline(o, e + 1, e + 1, hi - 1, hi);
    assert(is_address_char(o[e - 1]));
    assert(lines_from(o, hi, hi, hi) =~= Seq::<(int, int)>::empty());
    let ls = lines_from(o, 0, 0, hi);
    assert(ls =~= seq![(0int, e), (e + 1, hi - 1)]);
    // the first line has no selector
    assert forall|j: int| 0 <= j && j + tag.len() <= e implies !#[trigger] occurs_at(o, tag, j, e) by {
        if occurs_at(o, tag, j, e) {
            assert(o.subrange(j, j + 8)[2] == o[j + 2]);
            if 4 <= j + 2 < 4 + a || 9 + a <= j + 2 < e {
                assert(is_address_char(o[j + 2]));
            }
        }
    }
    lemma_find_in_none(o, tag, 0, e);
    // the second line has it, and the address before `/`
    assert(!occurs_at(o, tag, e + 1, hi - 1)) by {
        if occurs_at(o, tag, e + 1, hi - 1) {
            assert(o.subrange(e + 1, e + 9)[0] == o[e + 1]);
        }
    }
    assert forall|j: int| e + 1 <= j < e + 2 implies !#[trigger] occurs_at(o, tag, j, hi - 1) by {}
    lemma_find_in_first(o, tag, e + 1, e + 2, hi - 1);
    assert forall|j: int| s0 <= j < s0 + c implies #[trigger] o[j] != '/' by {
        assert(is_address_char(o[j]));
    }
    lemma_find_char_at(o, '/', s0, s0 + c, hi - 1);
    assert(is_address_char(o[s0]));
    assert(is_address_char(o[s0 + c - 1]));
    assert(trim_span(o, s0, s0 + c) == (s0, s0 + c));
    assert(sel_src_from(o, ls, 2) is None);
    assert(sel_src_from(o, ls, 1) == Some(inner));
    assert(sel_src_from(o, ls, 0) == Some(inner));
    // the gateway is in the listing
    lemma_find_in_finds(o, dst, 0, 9 + a, hi);
    if state != TunnelState::Connected {
        lemma_tunnel_comes_up(state, dst, None, uptime, o);
    }
}

} // verus!
