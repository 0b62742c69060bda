# findmore_vpn

The decision logic of a desktop client for FortiGate IPsec VPNs (strongSwan `charon-cmd`
behind a pseudo-terminal, run by a privileged helper), written in Verus and proved against
its specifications.

- `src/text.rs` — trimming, lines, words, splitting, searching and `u64` parsing over
  character sequences, with the specifications of std's string methods.
- `src/xfrm.rs` — byte counters of the kernel's security associations (`ip -s xfrm state`).
- `src/charon.rs` — log lines and credential prompts of the IKE daemon, its arguments.
- `src/session.rs` — what the helper does with each command and each look at the tunnel.
- `src/protocol.rs` — the JSON-lines protocol between application and helper.
- `src/profiles.rs`, `src/secrets.rs`, `src/tray.rs` — connection profiles, credentials,
  tray texts.
- `app/` — processes, terminals, files, keyring, serde and the Tauri interface around the
  library; it is ordinary Rust.
