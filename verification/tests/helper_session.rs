use findmore_vpn::protocol::{state_name, status_message, GuiCommand, HelperMessage, TunnelState};
use findmore_vpn::session::{
    exit_messages, find_tunnel_source_ip, monitor_tick, on_command, poll_error_message,
    CommandAction,
};

fn connect() -> GuiCommand {
    GuiCommand::Connect {
        host: "vpn.example.com".to_string(),
        remote_identity: "".to_string(),
        username: "alice".to_string(),
        psk: "k".to_string(),
        password: "p".to_string(),
    }
}

const UP: &str = "src 10.0.0.5 dst 203.0.113.10
\tlifetime current: 100(bytes), 1(packets)
\tsel src 10.7.1.11/32 dst 0.0.0.0/0
src 203.0.113.10 dst 10.0.0.5
\tlifetime current: 250(bytes), 2(packets)
";

#[test]
fn second_connect_is_refused() {
    match on_command(true, false, connect()) {
        CommandAction::Refuse { message } => assert_eq!(
            message,
            HelperMessage::Error { message: "VPN is already running".to_string() }
        ),
        _ => panic!("expected a refusal"),
    }
}

#[test]
fn connect_is_announced() {
    match on_command(false, false, connect()) {
        CommandAction::Connect { status, host, username, .. } => {
            assert_eq!(
                status,
                HelperMessage::Status {
                    state: "Resolving".to_string(),
                    message: "Resolving and initiating connection to vpn.example.com".to_string()
                }
            );
            assert_eq!(host, "vpn.example.com");
            assert_eq!(username, "alice");
        },
        _ => panic!("expected a connection"),
    }
}

#[test]
fn otp_and_disconnect() {
    let otp = GuiCommand::SubmitOtp { otp: "123456".to_string() };
    assert!(matches!(on_command(true, true, otp.clone()), CommandAction::ForwardOtp { otp } if otp == "123456"));
    assert!(matches!(on_command(true, false, otp), CommandAction::Ignore));
    match on_command(true, false, GuiCommand::Disconnect) {
        CommandAction::Shutdown { notice: Some(m) } => assert_eq!(
            m,
            HelperMessage::Status {
                state: "Disconnected".to_string(),
                message: "Disconnecting VPN...".to_string()
            }
        ),
        _ => panic!("expected a shutdown with notice"),
    }
    assert!(matches!(on_command(false, false, GuiCommand::Disconnect), CommandAction::Shutdown { notice: None }));
}

#[test]
fn tunnel_source_address() {
    assert_eq!(find_tunnel_source_ip(UP), Some("10.7.1.11".to_string()));
    assert_eq!(find_tunnel_source_ip("sel src 0.0.0.0/0\n"), None);
    assert_eq!(find_tunnel_source_ip("sel src 0.0.0.0/0\nsel src  10.1.1.1 /24\n"), Some("10.1.1.1".to_string()));
    assert_eq!(find_tunnel_source_ip(""), None);
}

#[test]
fn tunnel_comes_up() {
    let t = monitor_tick(TunnelState::EstablishingTunnel, "203.0.113.10", None, None, Some(UP));
    assert!(t.started);
    assert!(!t.lost);
    assert_eq!(t.state, TunnelState::Connected);
    assert_eq!(t.vpn_ip, Some("10.7.1.11".to_string()));
    assert_eq!(
        t.messages,
        vec![
            HelperMessage::TunnelInfo {
                vpn_ip: "10.7.1.11".to_string(),
                gateway_ip: "203.0.113.10".to_string(),
                protocol: "IPsec ESP / NAT-T".to_string(),
                encryption: "AES_CBC_128 / SHA256".to_string(),
            },
            HelperMessage::Status {
                state: "Connected".to_string(),
                message: "VPN connection successfully established!".to_string(),
            },
            HelperMessage::Stats { bytes_sent: 100, bytes_received: 250, uptime_secs: 0 },
        ]
    );
}

#[test]
fn connected_tunnel_reports_traffic() {
    let t = monitor_tick(
        TunnelState::Connected,
        "203.0.113.10",
        Some("10.7.1.11".to_string()),
        Some(42),
        Some(UP),
    );
    assert!(!t.started && !t.lost);
    assert_eq!(t.messages, vec![HelperMessage::Stats { bytes_sent: 100, bytes_received: 250, uptime_secs: 42 }]);
}

#[test]
fn tunnel_is_lost() {
    let t = monitor_tick(TunnelState::Connected, "198.51.100.1", None, Some(5), Some(UP));
    assert!(t.lost);
    assert_eq!(
        t.messages,
        vec![HelperMessage::Status {
            state: "Disconnected".to_string(),
            message: "IPsec security association lost".to_string()
        }]
    );
    let t = monitor_tick(TunnelState::EstablishingTunnel, "203.0.113.10", None, None, None);
    assert!(t.lost);
    let t = monitor_tick(TunnelState::Authenticating, "203.0.113.10", None, None, None);
    assert!(!t.lost);
    assert!(t.messages.is_empty());
}

#[test]
fn exit_and_poll_messages() {
    assert_eq!(
        exit_messages("exit status: 1"),
        vec![
            HelperMessage::Log { message: "charon-cmd exited with status: exit status: 1".to_string() },
            HelperMessage::Status {
                state: "Disconnected".to_string(),
                message: "VPN process disconnected: exit status: 1".to_string()
            },
        ]
    );
    assert_eq!(
        poll_error_message("boom"),
        HelperMessage::Error { message: "Error polling child process: boom".to_string() }
    );
    assert_eq!(state_name(TunnelState::WaitingForOtp), "WaitingForOtp");
    assert_eq!(
        status_message(TunnelState::Disconnected, "Tunnel process exited"),
        HelperMessage::Status { state: "Disconnected".to_string(), message: "Tunnel process exited".to_string() }
    );
}
