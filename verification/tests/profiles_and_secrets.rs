use findmore_vpn::profiles::{
    active_profile, connect_admission, connect_command, create_default_config, delete_profile, migrate_legacy,
    otp_command, resolve_loaded_config, save_profile, secrets_status, secrets_to_save,
    set_active_profile, ConfigSource, SecretsOrigin, ProfilesConfig, SecretsStore, UserConfigLegacy, VpnProfile,
};
use findmore_vpn::protocol::{helper_path, GuiCommand};
use findmore_vpn::secrets::{
    keyring_service, password_account, psk_account, resolve_legacy_secrets, resolve_secrets,
    SecretsMap,
};
use findmore_vpn::tray::{status_item_text, traffic_item_text};

fn profile(id: &str, host: &str) -> VpnProfile {
    VpnProfile {
        id: id.to_string(),
        name: format!("Profile {}", id),
        host: host.to_string(),
        remote_identity: "".to_string(),
        username: "alice".to_string(),
    }
}

fn secrets(psk: &str, pw: &str) -> SecretsStore {
    SecretsStore { psk: psk.to_string(), password: pw.to_string() }
}

#[test]
fn default_config_is_empty() {
    let c = create_default_config();
    assert_eq!(c, ProfilesConfig { active_profile_id: "".to_string(), profiles: vec![] });
}

#[test]
fn save_inserts_then_replaces() {
    let mut c = create_default_config();
    save_profile(&mut c, profile("a", "h1"), &None, &None);
    save_profile(&mut c, profile("b", "h2"), &None, &None);
    assert_eq!(c.active_profile_id, "b");
    assert_eq!(c.profiles.len(), 2);
    save_profile(&mut c, profile("a", "h3"), &None, &None);
    assert_eq!(c.active_profile_id, "a");
    assert_eq!(c.profiles, vec![profile("a", "h3"), profile("b", "h2")]);
    let once = c.clone();
    save_profile(&mut c, profile("a", "h3"), &None, &None);
    assert_eq!(c, once);
}

#[test]
fn delete_picks_a_new_active_profile() {
    let mut c = create_default_config();
    save_profile(&mut c, profile("a", "h1"), &None, &None);
    save_profile(&mut c, profile("b", "h2"), &None, &None);
    save_profile(&mut c, profile("c", "h3"), &None, &None);
    delete_profile(&mut c, &"c".to_string());
    assert_eq!(c.active_profile_id, "a");
    assert_eq!(c.profiles, vec![profile("a", "h1"), profile("b", "h2")]);
    delete_profile(&mut c, &"b".to_string());
    assert_eq!(c.active_profile_id, "a");
    delete_profile(&mut c, &"a".to_string());
    assert_eq!(c, create_default_config());
    delete_profile(&mut c, &"zz".to_string());
    assert_eq!(c, create_default_config());
}

#[test]
fn set_active_needs_an_existing_profile() {
    let mut c = create_default_config();
    save_profile(&mut c, profile("a", "h1"), &None, &None);
    save_profile(&mut c, profile("b", "h2"), &None, &None);
    assert_eq!(set_active_profile(&mut c, "a".to_string()), Ok(()));
    assert_eq!(c.active_profile_id, "a");
    assert_eq!(set_active_profile(&mut c, "x".to_string()), Err("Profile not found".to_string()));
    assert_eq!(c.active_profile_id, "a");
}

#[test]
fn active_profile_for_connection() {
    let mut c = create_default_config();
    assert_eq!(
        active_profile(&c),
        Err("No profiles configured. Please create a profile in the Profiles tab first.".to_string())
    );
    save_profile(&mut c, profile("a", "h1"), &None, &None);
    assert_eq!(active_profile(&c), Ok(profile("a", "h1")));
    c.active_profile_id = "gone".to_string();
    assert_eq!(active_profile(&c), Err("Active profile not found".to_string()));
}

#[test]
fn commands_for_the_helper() {
    let cmd = connect_command(&profile("a", "vpn.example.com"), secrets("k", "p"));
    assert_eq!(
        cmd,
        GuiCommand::Connect {
            host: "vpn.example.com".to_string(),
            remote_identity: "".to_string(),
            username: "alice".to_string(),
            psk: "k".to_string(),
            password: "p".to_string(),
        }
    );
    assert_eq!(otp_command(true, "1".to_string()), Ok(GuiCommand::SubmitOtp { otp: "1".to_string() }));
    assert_eq!(otp_command(false, "1".to_string()), Err("No active VPN session found".to_string()));
}

#[test]
fn secrets_are_saved_only_when_both_given() {
    assert_eq!(secrets_to_save(&Some("k".to_string()), &Some("p".to_string())), Some(secrets("k", "p")));
    assert_eq!(secrets_to_save(&Some("".to_string()), &Some("p".to_string())), None);
    assert_eq!(secrets_to_save(&None, &Some("p".to_string())), None);
    assert_eq!(secrets_to_save(&Some("k".to_string()), &None), None);
    let s = secrets_status(Some(SecretsOrigin::Keyring));
    assert!(s.has_psk && s.has_password && s.keyring_secured);
    let s = secrets_status(Some(SecretsOrigin::File));
    assert!(s.has_psk && s.has_password && !s.keyring_secured);
    let s = secrets_status(None);
    assert!(!s.has_psk && !s.has_password && !s.keyring_secured);
}

#[test]
fn saving_a_profile_hands_back_the_credentials_to_store() {
    let mut c = create_default_config();
    let k = Some("k".to_string());
    let p = Some("p".to_string());
    let empty = Some("".to_string());
    assert_eq!(save_profile(&mut c, profile("a", "h1"), &k, &p), Some(("a".to_string(), secrets("k", "p"))));
    assert_eq!(c.active_profile_id, "a");
    assert_eq!(save_profile(&mut c, profile("b", "h2"), &k, &empty), None);
    assert_eq!(save_profile(&mut c, profile("b", "h2"), &None, &p), None);
    assert_eq!(c.profiles, vec![profile("a", "h1"), profile("b", "h2")]);
    assert_eq!(c.active_profile_id, "b");
}

#[test]
fn legacy_layout_is_migrated() {
    let old = UserConfigLegacy {
        host: "h".to_string(),
        remote_identity: "r".to_string(),
        username: "u".to_string(),
    };
    let c = migrate_legacy(old.clone());
    assert_eq!(c.active_profile_id, "default");
    assert_eq!(
        c.profiles,
        vec![VpnProfile {
            id: "default".to_string(),
            name: "Default Profile".to_string(),
            host: "h".to_string(),
            remote_identity: "r".to_string(),
            username: "u".to_string(),
        }]
    );
    let (c2, src) = resolve_loaded_config(None, Some(old));
    assert_eq!((c2, src), (c, ConfigSource::Migrated));
    let (c3, src) = resolve_loaded_config(None, None);
    assert_eq!((c3, src), (create_default_config(), ConfigSource::Fresh));
    let mut parsed = create_default_config();
    save_profile(&mut parsed, profile("z", "zz"), &None, &None);
    let (c4, src) = resolve_loaded_config(Some(parsed.clone()), None);
    assert_eq!((c4, src), (parsed, ConfigSource::Parsed));
}

#[test]
fn secrets_map_reads_back_writes() {
    let mut m = SecretsMap::new();
    assert_eq!(m.get(&"a".to_string()), None);
    m.insert("a".to_string(), secrets("k1", "p1"));
    m.insert("b".to_string(), secrets("k2", "p2"));
    m.insert("a".to_string(), secrets("k3", "p3"));
    assert_eq!(m.get(&"a".to_string()), Some(secrets("k3", "p3")));
    assert_eq!(m.get(&"b".to_string()), Some(secrets("k2", "p2")));
    assert!(m.remove(&"a".to_string()));
    assert!(!m.remove(&"a".to_string()));
    assert_eq!(m.get(&"a".to_string()), None);
    let entries = m.into_entries();
    assert_eq!(entries, vec![("b".to_string(), secrets("k2", "p2"))]);
    let m = SecretsMap::from_entries(vec![
        ("x".to_string(), secrets("1", "1")),
        ("x".to_string(), secrets("2", "2")),
    ]);
    assert_eq!(m.get(&"x".to_string()), Some(secrets("2", "2")));
}

#[test]
fn secrets_lookup_order() {
    let id = "a".to_string();
    assert_eq!(
        resolve_secrets(Some(secrets("k", "p")), None, &id),
        Ok((secrets("k", "p"), SecretsOrigin::Keyring))
    );
    assert_eq!(
        resolve_secrets(None, None, &id),
        Err("Pre-shared key and Password not found".to_string())
    );
    assert_eq!(resolve_secrets(None, Some(Err("bad json".to_string())), &id), Err("bad json".to_string()));
    let mut m = SecretsMap::new();
    m.insert("a".to_string(), secrets("fk", "fp"));
    assert_eq!(resolve_secrets(None, Some(Ok(m)), &id), Ok((secrets("fk", "fp"), SecretsOrigin::File)));
    let m = SecretsMap::new();
    assert_eq!(
        resolve_secrets(None, Some(Ok(m)), &id),
        Err("Pre-shared key and Password not found".to_string())
    );
}

#[test]
fn keyring_and_tray_names() {
    assert_eq!(keyring_service(), "findmore-vpn");
    assert_eq!(psk_account("work"), "psk-work");
    assert_eq!(password_account("work"), "password-work");
    assert_eq!(status_item_text("Connected (10.7.1.11)"), "Status: Connected (10.7.1.11)");
    assert_eq!(traffic_item_text("1.25 MB ↓ / 340.00 KB ↑"), "Traffic: 1.25 MB ↓ / 340.00 KB ↑");
}

#[test]
fn legacy_secrets_lookup_order() {
    assert_eq!(resolve_legacy_secrets(Some(secrets("k", "p")), Some(secrets("f", "g"))), Ok(secrets("k", "p")));
    assert_eq!(resolve_legacy_secrets(None, Some(secrets("f", "g"))), Ok(secrets("f", "g")));
    assert_eq!(resolve_legacy_secrets(None, None), Err("No legacy secrets found".to_string()));
}

#[test]
fn helper_program_location() {
    assert_eq!(helper_path(true, Some("/opt/app/findmore-vpn-helper".to_string())), "/usr/bin/findmore-vpn-helper");
    assert_eq!(helper_path(false, Some("/opt/app/findmore-vpn-helper".to_string())), "/opt/app/findmore-vpn-helper");
    assert_eq!(helper_path(false, None), "/usr/bin/findmore-vpn-helper");
}

#[test]
fn one_helper_at_a_time() {
    assert_eq!(connect_admission(false, false), (false, Ok(())));
    assert_eq!(connect_admission(true, true), (true, Ok(())));
    assert_eq!(
        connect_admission(true, false),
        (false, Err("VPN connection helper is already running".to_string()))
    );
}
