//! The line protocol between the desktop application and the privileged helper: commands
//! that the application sends and messages that the helper reports.

use vstd::prelude::*;

verus! {

/// A command sent to the helper.
#[derive(Debug, Clone, PartialEq, Eq)]
pub enum GuiCommand {
    Connect {
        host: String,
        remote_identity: String,
        username: String,
        psk: String,
        password: String,
    },
    SubmitOtp {
        otp: String,
    },
    Disconnect,
}

/// A message reported by the helper.
#[derive(Debug, Clone, PartialEq, Eq)]
pub enum HelperMessage {
    Status {
        state: String,
        message: String,
    },
    TunnelInfo {
        vpn_ip: String,
        gateway_ip: String,
        protocol: String,
        encryption: String,
    },
    Stats {
        bytes_sent: u64,
        bytes_received: u64,
        uptime_secs: u64,
    },
    Log {
        message: String,
    },
    Error {
        message: String,
    },
}

/// A command, its texts read as character sequences.
pub enum GuiCommandView {
    Connect {
        host: Seq<char>,
        remote_identity: Seq<char>,
        username: Seq<char>,
        psk: Seq<char>,
        password: Seq<char>,
    },
    SubmitOtp {
        otp: Seq<char>,
    },
    Disconnect,
}

/// A message, its texts read as character sequences.
pub enum HelperMessageView {
    Status {
        state: Seq<char>,
        message: Seq<char>,
    },
    TunnelInfo {
        vpn_ip: Seq<char>,
        gateway_ip: Seq<char>,
        protocol: Seq<char>,
        encryption: Seq<char>,
    },
    Stats {
        bytes_sent: u64,
        bytes_received: u64,
        uptime_secs: u64,
    },
    Log {
        message: Seq<char>,
    },
    Error {
        message: Seq<char>,
    },
}

impl View for GuiCommand {
    type V = GuiCommandView;

    open spec fn view(&self) -> GuiCommandView {
        match self {
            GuiCommand::Connect { host, remote_identity, username, psk, password } => {
                GuiCommandView::Connect {
                    host: host@,
                    remote_identity: remote_identity@,
                    username: username@,
                    psk: psk@,
                    password: password@,
                }
            },
            GuiCommand::SubmitOtp { otp } => GuiCommandView::SubmitOtp { otp: otp@ },
            GuiCommand::Disconnect => GuiCommandView::Disconnect,
        }
    }
}

impl View for HelperMessage {
    type V = HelperMessageView;

    open spec fn view(&self) -> HelperMessageView {
        match self {
            HelperMessage::Status { state, message } => HelperMessageView::Status {
                state: state@,
                message: message@,
            },
            HelperMessage::TunnelInfo { vpn_ip, gateway_ip, protocol, encryption } => {
                HelperMessageView::TunnelInfo {
                    vpn_ip: vpn_ip@,
                    gateway_ip: gateway_ip@,
                    protocol: protocol@,
                    encryption: encryption@,
                }
            },
            HelperMessage::Stats { bytes_sent, bytes_received, uptime_secs } => {
                HelperMessageView::Stats {
                    bytes_sent: *bytes_sent,
                    bytes_received: *bytes_received,
                    uptime_secs: *uptime_secs,
                }
            },
            HelperMessage::Log { message } => HelperMessageView::Log { message: message@ },
            HelperMessage::Error { message } => HelperMessageView::Error { message: message@ },
        }
    }
}

/// The views of a list of messages.
pub open spec fn messages_view(v: Seq<HelperMessage>) -> Seq<HelperMessageView> {
    v.map_values(|m: HelperMessage| m@)
}

pub proof fn lemma_messages_push(v: Seq<HelperMessage>, m: HelperMessage)
    ensures
        messages_view(v.push(m)) == messages_view(v).push(m@),
{
    assert(messages_view(v.push(m)) =~= messages_view(v).push(m@));
}

/// The phases that a tunnel goes through, as the helper reports them.
#[derive(Debug, Clone, Copy, PartialEq, Eq, Structural)]
pub enum TunnelState {
    Resolving,
    Connecting,
    Authenticating,
    WaitingForOtp,
    EstablishingTunnel,
    Connected,
    Disconnected,
}

/// The name under which a state is reported.
pub open spec fn state_text(s: TunnelState) -> Seq<char> {
    match s {
        TunnelState::Resolving => "Resolving"@,
        TunnelState::Connecting => "Connecting"@,
        TunnelState::Authenticating => "Authenticating"@,
        TunnelState::WaitingForOtp => "WaitingForOtp"@,
        TunnelState::EstablishingTunnel => "EstablishingTunnel"@,
        TunnelState::Connected => "Connected"@,
        TunnelState::Disconnected => "Disconnected"@,
    }
}

/// The name under which a state is reported.
pub fn state_name(s: TunnelState) -> (r: String)
    ensures
        r@ == state_text(s),
{
    match s {
        TunnelState::Resolving => "Resolving".to_owned(),
        TunnelState::Connecting => "Connecting".to_owned(),
        TunnelState::Authenticating => "Authenticating".to_owned(),
        TunnelState::WaitingForOtp => "WaitingForOtp".to_owned(),
        TunnelState::EstablishingTunnel => "EstablishingTunnel".to_owned(),
        TunnelState::Connected => "Connected".to_owned(),
        TunnelState::Disconnected => "Disconnected".to_owned(),
    }
}

/// A `Status` message reporting `state` with the text `message`.
pub fn status_message(state: TunnelState, message: &str) -> (m: HelperMessage)
    ensures
        m@ == (HelperMessageView::Status { state: state_text(state), message: message@ }),
{
    HelperMessage::Status { state: state_name(state), message: message.to_owned() }
}

/// Where the helper program is installed system-wide.
pub open spec fn installed_helper_text() -> Seq<char> {
    "/usr/bin/findmore-vpn-helper"@
}

/// The helper program to start: the installed one when it exists, or else the one beside
/// the application (`beside_app`, when that exists), or else the installed path anyway.
pub fn helper_path(installed: bool, beside_app: Option<String>) -> (r: String)
    ensures
        r@ == (if installed {
            installed_helper_text()
        } else {
            match beside_app {
                Some(p) => p@,
                None => installed_helper_text(),
            }
        }),
{
    if installed {
        "/usr/bin/findmore-vpn-helper".to_owned()
    } else {
        match beside_app {
            Some(p) => p,
            None => "/usr/bin/findmore-vpn-helper".to_owned(),
        }
    }
}

} // verus!
