use findmore_vpn::charon::{
    answer_otp, answer_prompt, charon_args, choose_remote_id, detect_prompt, interpret_line,
    needs_resolution, take_line, Prompt,
};
use findmore_vpn::protocol::{HelperMessage, TunnelState};

fn log(s: &str) -> HelperMessage {
    HelperMessage::Log { message: s.to_string() }
}

#[test]
fn blank_line_reports_nothing() {
    let r = interpret_line("   \r\n");
    assert!(r.messages.is_empty());
    assert_eq!(r.virtual_ip, None);
    assert_eq!(r.gateway_ip, None);
}

#[test]
fn plain_line_is_logged_trimmed() {
    let r = interpret_line("  [IKE] establishing CHILD_SA  \n");
    assert_eq!(r.messages, vec![log("[IKE] establishing CHILD_SA")]);
}

#[test]
fn virtual_ip_is_read() {
    let r = interpret_line("[IKE] installing new virtual IP 10.7.1.11\n");
    assert_eq!(r.virtual_ip, Some("10.7.1.11".to_string()));
    assert_eq!(
        r.messages,
        vec![log("[IKE] installing new virtual IP 10.7.1.11"), log("Parsed virtual IP: 10.7.1.11")]
    );
    let r = interpret_line("installing new virtual IP    ");
    assert_eq!(r.virtual_ip, None);
}

#[test]
fn gateway_ip_is_read() {
    let line = "[IKE] initiating Aggressive Mode IKE_SA vpn[1] to 203.0.113.10";
    let r = interpret_line(line);
    assert_eq!(r.gateway_ip, Some("203.0.113.10".to_string()));
    assert_eq!(r.messages, vec![log(line), log("Parsed active tunnel Gateway IP: 203.0.113.10")]);
    let r = interpret_line("[IKE] initiating Main Mode IKE_SA x to [2001:db8::1]");
    assert_eq!(r.gateway_ip, Some("2001:db8::1".to_string()));
    let r = interpret_line("initiating IKE_SA to 1.2.3.4");
    assert_eq!(r.gateway_ip, None);
    let r = interpret_line("x initiating y IKE_SA z to []");
    assert_eq!(r.gateway_ip, None);
}

#[test]
fn failures_are_reported() {
    let r = interpret_line("[IKE] received AUTHENTICATION_FAILED notify error");
    assert_eq!(
        r.messages[1],
        HelperMessage::Error {
            message: "Authentication Failed: Invalid Pre-Shared Key (PSK) or Password.".to_string()
        }
    );
    let r = interpret_line("[IKE] received NO_PROPOSAL_CHOSEN notify error");
    assert_eq!(
        r.messages[1],
        HelperMessage::Error {
            message: "IPsec Proposal Mismatch: The gateway rejected the encryption proposals."
                .to_string()
        }
    );
    let r = interpret_line("no secret found for 'x' NO_PROPOSAL_CHOSEN");
    assert_eq!(r.messages.len(), 2);
    assert!(matches!(&r.messages[1], HelperMessage::Error { message } if message.starts_with("Authentication")));
}

#[test]
fn prompts_are_detected() {
    assert_eq!(detect_prompt("Preshared Key: "), Prompt::PresharedKey);
    assert_eq!(detect_prompt("xauth Password:\n"), Prompt::Password);
    assert_eq!(detect_prompt("EAP password:"), Prompt::Password);
    assert_eq!(detect_prompt("Passcode:"), Prompt::Otp);
    assert_eq!(detect_prompt("PIN:  "), Prompt::Otp);
    assert_eq!(detect_prompt("Enter OTP: now"), Prompt::Otp);
    assert_eq!(detect_prompt("Verification code: please"), Prompt::Otp);
    assert_eq!(detect_prompt("Token: ..."), Prompt::Otp);
    assert_eq!(detect_prompt("password:"), Prompt::Nothing);
    assert_eq!(detect_prompt(""), Prompt::Nothing);
}

#[test]
fn prompts_are_answered() {
    let a = answer_prompt(Prompt::PresharedKey, "k3y", "pw").unwrap();
    assert_eq!(a.reply, Some("k3y\n".to_string()));
    assert_eq!(a.state, TunnelState::Authenticating);
    assert!(!a.await_otp);
    let a = answer_prompt(Prompt::Password, "k3y", "pw").unwrap();
    assert_eq!(a.reply, Some("pw\n".to_string()));
    assert_eq!(
        a.status,
        HelperMessage::Status {
            state: "Authenticating".to_string(),
            message: "Sending account password...".to_string()
        }
    );
    let a = answer_prompt(Prompt::Otp, "k3y", "pw").unwrap();
    assert_eq!(a.reply, None);
    assert!(a.await_otp);
    assert_eq!(a.state, TunnelState::WaitingForOtp);
    assert!(answer_prompt(Prompt::Nothing, "k", "p").is_none());
    let a = answer_otp("123456");
    assert_eq!(a.reply, Some("123456\n".to_string()));
    assert_eq!(a.state, TunnelState::EstablishingTunnel);
}

#[test]
fn lines_are_taken_from_the_buffer() {
    let mut buf = b"first\nsecond\npartial".to_vec();
    assert_eq!(take_line(&mut buf), Some(b"first\n".to_vec()));
    assert_eq!(take_line(&mut buf), Some(b"second\n".to_vec()));
    assert_eq!(take_line(&mut buf), None);
    assert_eq!(buf, b"partial".to_vec());
}

#[test]
fn daemon_arguments() {
    let args = charon_args("vpn.example.com", "203.0.113.10", "alice");
    let want: Vec<String> = [
        "--host", "vpn.example.com", "--identity", "%any", "--remote-identity", "203.0.113.10",
        "--xauth-username", "alice", "--profile", "ikev1-xauth-psk-am", "--ike-proposal",
        "aes128-sha256-modp2048", "--remote-ts", "0.0.0.0/0", "--debug", "1",
    ]
    .iter()
    .map(|s| s.to_string())
    .collect();
    assert_eq!(args, want);
}

#[test]
fn remote_identity_choice() {
    assert!(needs_resolution("  "));
    assert!(!needs_resolution("gw"));
    assert_eq!(choose_remote_id(" ", "vpn.example.com", Some("203.0.113.10".to_string())), "203.0.113.10");
    assert_eq!(choose_remote_id("", "vpn.example.com", None), "vpn.example.com");
    assert_eq!(choose_remote_id("fw-id", "vpn.example.com", Some("1.1.1.1".to_string())), "fw-id");
}
