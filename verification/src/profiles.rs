//! Connection profiles: their records, and the edits the application makes to the saved
//! set of profiles.

use vstd::prelude::*;
use crate::protocol::{GuiCommand, GuiCommandView};

verus! {

/// A saved connection profile.
#[derive(Debug, Clone, PartialEq, Eq)]
pub struct VpnProfile {
    pub id: String,
    pub name: String,
    pub host: String,
    pub remote_identity: String,
    pub username: String,
}

/// The saved profiles and the one that is active.
#[derive(Debug, Clone, PartialEq, Eq)]
pub struct ProfilesConfig {
    pub active_profile_id: String,
    pub profiles: Vec<VpnProfile>,
}

/// Whether credentials are stored for a profile.
#[derive(Debug, Clone, Copy, PartialEq, Eq, Structural)]
pub struct SecretsStatus {
    pub has_psk: bool,
    pub has_password: bool,
    /// Whether the system keyring holds them, rather than the fallback file.
    pub keyring_secured: bool,
}

/// Where stored credentials were found.
#[derive(Debug, Clone, Copy, PartialEq, Eq, Structural)]
pub enum SecretsOrigin {
    /// The system keyring.
    Keyring,
    /// The fallback file `secrets.json`.
    File,
}

/// The credentials of a profile.
#[derive(Debug, Clone, PartialEq, Eq)]
pub struct SecretsStore {
    pub psk: String,
    pub password: String,
}

/// The layout of the configuration file before it held several profiles.
#[derive(Debug, Clone, PartialEq, Eq)]
pub struct UserConfigLegacy {
    pub host: String,
    pub remote_identity: String,
    pub username: String,
}

pub struct ProfileView {
    pub id: Seq<char>,
    pub name: Seq<char>,
    pub host: Seq<char>,
    pub remote_identity: Seq<char>,
    pub username: Seq<char>,
}

pub struct ConfigView {
    pub active: Seq<char>,
    pub profiles: Seq<ProfileView>,
}

pub struct SecretsView {
    pub psk: Seq<char>,
    pub password: Seq<char>,
}

impl View for VpnProfile {
    type V = ProfileView;

    open spec fn view(&self) -> ProfileView {
        ProfileView {
            id: self.id@,
            name: self.name@,
            host: self.host@,
            remote_identity: self.remote_identity@,
            username: self.username@,
        }
    }
}

impl View for ProfilesConfig {
    type V = ConfigView;

    open spec fn view(&self) -> ConfigView {
        ConfigView {
            active: self.active_profile_id@,
            profiles: self.profiles@.map_values(|p: VpnProfile| p@),
        }
    }
}

impl View for SecretsStore {
    type V = SecretsView;

    open spec fn view(&self) -> SecretsView {
        SecretsView { psk: self.psk@, password: self.password@ }
    }
}

impl VpnProfile {
    /// A copy of the profile.
    pub fn duplicate(&self) -> (r: VpnProfile)
        ensures
            r@ == self@,
    {
        VpnProfile {
            id: self.id.clone(),
            name: self.name.clone(),
            host: self.host.clone(),
            remote_identity: self.remote_identity.clone(),
            username: self.username.clone(),
        }
    }
}

/// First position at or after `i` of a profile with the id `id`, or `-1`.
pub open spec fn index_of_id(ps: Seq<ProfileView>, id: Seq<char>, i: int) -> int
    decreases ps.len() - i,
{
    if i < 0 || i >= ps.len() {
        -1
    } else if ps[i].id == id {
        i
    } else {
        index_of_id(ps, id, i + 1)
    }
}

/// Whether some profile has the id `id`.
pub open spec fn has_id(ps: Seq<ProfileView>, id: Seq<char>) -> bool {
    exists|k: int| 0 <= k < ps.len() && (#[trigger] ps[k]).id == id
}

/// The configuration after saving `p`: it replaces the first profile with its id, or else
/// is appended, and it becomes the active profile.
pub open spec fn upsert(c: ConfigView, p: ProfileView) -> ConfigView {
    let k = index_of_id(c.profiles, p.id, 0);
    ConfigView {
        active: p.id,
        profiles: if k >= 0 { c.profiles.update(k, p) } else { c.profiles.push(p) },
    }
}

/// The profiles without those with the id `id`, in their order.
pub open spec fn without_id(ps: Seq<ProfileView>, id: Seq<char>) -> Seq<ProfileView>
    decreases ps.len(),
{
    if ps.len() == 0 {
        seq![]
    } else if ps.last().id == id {
        without_id(ps.drop_last(), id)
    } else {
        without_id(ps.drop_last(), id).push(ps.last())
    }
}

/// The configuration after deleting the profiles with the id `id`: none is active when
/// none is left, and the first one left becomes active when the active one was deleted.
pub open spec fn after_delete(c: ConfigView, id: Seq<char>) -> ConfigView {
    let ps = without_id(c.profiles, id);
    ConfigView {
        active: if ps.len() == 0 {
            Seq::empty()
        } else if c.active == id {
            ps[0].id
        } else {
            c.active
        },
        profiles: ps,
    }
}

pub proof fn lemma_index_of_id(ps: Seq<ProfileView>, id: Seq<char>, i: int)
    requires
        0 <= i,
    ensures
        index_of_id(ps, id, i) == -1 || (i <= index_of_id(ps, id, i) < ps.len()
            && ps[index_of_id(ps, id, i)].id == id),
        index_of_id(ps, id, i) == -1 ==> forall|k: int| i <= k < ps.len() ==> (#[trigger] ps[k]).id != id,
        forall|k: int| i <= k < index_of_id(ps, id, i) ==> (#[trigger] ps[k]).id != id,
    decreases ps.len() - i,
{
    if i < ps.len() && ps[i].id != id {
        lemma_index_of_id(ps, id, i + 1);
    }
}

/// The configuration that holds no profile.
pub fn create_default_config() -> (c: ProfilesConfig)
    ensures
        c@.active == Seq::<char>::empty(),
        c@.profiles == Seq::<ProfileView>::empty(),
{
    let c = ProfilesConfig { active_profile_id: String::new(), profiles: Vec::new() };
    assert(c@.profiles =~= Seq::<ProfileView>::empty());
    c
}

/// Position of the first profile with the id `id`.
pub fn position_of_id(profiles: &Vec<VpnProfile>, id: &String) -> (r: Option<usize>)
    ensures
        match r {
            Some(k) => k as int == index_of_id(profiles@.map_values(|p: VpnProfile| p@), id@, 0),
            None => index_of_id(profiles@.map_values(|p: VpnProfile| p@), id@, 0) == -1,
        },
{
    let ghost ps = profiles@.map_values(|p: VpnProfile| p@);
    let mut i: usize = 0;
    while i < profiles.len()
        invariant
            ps == profiles@.map_values(|p: VpnProfile| p@),
            i <= profiles@.len(),
            index_of_id(ps, id@, i as int) == index_of_id(ps, id@, 0),
        decreases profiles@.len() - i,
    {
        if profiles[i].id == *id {
            assert(ps[i as int].id == id@);
            return Some(i);
        }
        assert(ps[i as int].id != id@);
        i = i + 1;
    }
    None
}

/// Saves `profile` into `config`: it replaces the first profile with its id, or else is
/// appended; it becomes the active profile. Returns the credentials to store under the
/// profile's id: those given, when both are given and non-empty.
pub fn save_profile(
    config: &mut ProfilesConfig,
    profile: VpnProfile,
    psk: &Option<String>,
    password: &Option<String>,
) -> (to_store: Option<(String, SecretsStore)>)
    ensures
        final(config)@ == upsert(old(config)@, profile@),
        to_store is Some <==> (psk is Some && password is Some && psk->0@.len() > 0
            && password->0@.len() > 0),
        to_store matches Some((id, s)) ==> id@ == profile@.id && s.psk@ == psk->0@
            && s.password@ == password->0@,
{
    let to_store = match secrets_to_save(psk, password) {
        Some(s) => Some((profile.id.clone(), s)),
        None => None,
    };
    let ghost before = config@;
    let id = profile.id.clone();
    proof {
        lemma_index_of_id(before.profiles, profile@.id, 0);
    }
    match position_of_id(&config.profiles, &profile.id) {
        Some(k) => {
            config.profiles.set(k, profile);
            assert(config@.profiles =~= before.profiles.update(k as int, profile@));
        },
        None => {
            config.profiles.push(profile);
            assert(config@.profiles =~= before.profiles.push(profile@));
        },
    }
    config.active_profile_id = id;
    to_store
}

/// The credentials to store with a saved profile: both must be given and non-empty.
pub fn secrets_to_save(psk: &Option<String>, password: &Option<String>) -> (r: Option<SecretsStore>)
    ensures
        r is Some <==> (psk is Some && password is Some && psk->0@.len() > 0
            && password->0@.len() > 0),
        r matches Some(s) ==> s.psk@ == psk->0@ && s.password@ == password->0@,
{
    match (psk, password) {
        (Some(p), Some(w)) => {
            if !p.as_str().is_empty() && !w.as_str().is_empty() {
                Some(SecretsStore { psk: p.clone(), password: w.clone() })
            } else {
                None
            }
        },
        _ => None,
    }
}

/// Deletes the profiles with the id `profile_id` from `config`, choosing a new active
/// profile when needed.
pub fn delete_profile(config: &mut ProfilesConfig, profile_id: &String)
    ensures
        final(config)@ == after_delete(old(config)@, profile_id@),
{
    let ghost ps = config@.profiles;
    let old_profiles = &config.profiles;
    let mut kept: Vec<VpnProfile> = Vec::new();
    let mut i: usize = 0;
    while i < old_profiles.len()
        invariant
            ps == old_profiles@.map_values(|p: VpnProfile| p@),
            i <= old_profiles@.len(),
            kept@.map_values(|p: VpnProfile| p@) == without_id(ps.take(i as int), profile_id@),
        decreases old_profiles@.len() - i,
    {
        assert(ps.take((i + 1) as int).drop_last() =~= ps.take(i as int));
        if old_profiles[i].id != *profile_id {
            let p = old_profiles[i].duplicate();
            kept.push(p);
            assert(kept@.map_values(|p: VpnProfile| p@) =~= without_id(ps.take(i as int), profile_id@).push(ps[i as int]));
        }
        i = i + 1;
    }
    assert(ps.take(old_profiles@.len() as int) =~= ps);
    if kept.len() == 0 {
        config.active_profile_id = String::new();
    } else if config.active_profile_id == *profile_id {
        config.active_profile_id = kept[0].id.clone();
    }
    config.profiles = kept;
}

/// Makes the profile with the id `profile_id` the active one; refused when there is none.
pub fn set_active_profile(config: &mut ProfilesConfig, profile_id: String) -> (r: Result<(), String>)
    ensures
        r is Ok <==> has_id(old(config)@.profiles, profile_id@),
        r is Ok ==> final(config)@ == (ConfigView { active: profile_id@, profiles: old(config)@.profiles }),
        r matches Err(e) ==> e@ == "Profile not found"@ && final(config)@ == old(config)@,
{
    let ghost ps = config@.profiles;
    proof {
        lemma_index_of_id(ps, profile_id@, 0);
    }
    match position_of_id(&config.profiles, &profile_id) {
        Some(k) => {
            assert(ps[k as int].id == profile_id@);
            config.active_profile_id = profile_id;
            Ok(())
        },
        None => Err("Profile not found".to_owned()),
    }
}

pub open spec fn no_profiles_text() -> Seq<char> {
    "No profiles configured. Please create a profile in the Profiles tab first."@
}

/// The profile to connect with: the first one whose id is the active id. Refused when no
/// profile is saved, or none has the active id.
pub fn active_profile(config: &ProfilesConfig) -> (r: Result<VpnProfile, String>)
    ensures
        ({
            let ps = config@.profiles;
            let k = index_of_id(ps, config@.active, 0);
            match r {
                Ok(p) => ps.len() > 0 && k >= 0 && p@ == ps[k],
                Err(e) => if ps.len() == 0 {
                    e@ == no_profiles_text()
                } else {
                    k == -1 && e@ == "Active profile not found"@
                },
            }
        }),
{
    proof {
        lemma_index_of_id(config@.profiles, config@.active, 0);
    }
    if config.profiles.len() == 0 {
        return Err(
            "No profiles configured. Please create a profile in the Profiles tab first.".to_owned(),
        );
    }
    match position_of_id(&config.profiles, &config.active_profile_id) {
        Some(k) => Ok(config.profiles[k].duplicate()),
        None => Err("Active profile not found".to_owned()),
    }
}

/// The command that connects with `profile` and its credentials `secrets`.
pub fn connect_command(profile: &VpnProfile, secrets: SecretsStore) -> (c: GuiCommand)
    ensures
        c@ == (GuiCommandView::Connect {
            host: profile@.host,
            remote_identity: profile@.remote_identity,
            username: profile@.username,
            psk: secrets@.psk,
            password: secrets@.password,
        }),
{
    GuiCommand::Connect {
        host: profile.host.clone(),
        remote_identity: profile.remote_identity.clone(),
        username: profile.username.clone(),
        psk: secrets.psk,
        password: secrets.password,
    }
}

/// The command that hands the one-time code `otp` to the helper; refused when no
/// session runs.
pub fn otp_command(session_active: bool, otp: String) -> (r: Result<GuiCommand, String>)
    ensures
        match r {
            Ok(c) => session_active && c@ == (GuiCommandView::SubmitOtp { otp: otp@ }),
            Err(e) => !session_active && e@ == "No active VPN session found"@,
        },
{
    if session_active {
        Ok(GuiCommand::SubmitOtp { otp })
    } else {
        Err("No active VPN session found".to_owned())
    }
}

/// Whether a connection may start a new helper, given whether one is held (`held`) and
/// whether that one has exited. Returns whether to forget the held helper (it has exited),
/// and a refusal while it still runs.
pub fn connect_admission(held: bool, exited: bool) -> (r: (bool, Result<(), String>))
    ensures
        r.0 == (held && exited),
        match r.1 {
            Ok(()) => !held || exited,
            Err(e) => held && !exited && e@ == "VPN connection helper is already running"@,
        },
{
    let forget = held && exited;
    if held && !forget {
        (false, Err("VPN connection helper is already running".to_owned()))
    } else {
        (forget, Ok(()))
    }
}

/// Whether credentials are stored (both or neither), and whether the keyring holds them;
/// `found` tells where they were found, if anywhere.
pub fn secrets_status(found: Option<SecretsOrigin>) -> (r: SecretsStatus)
    ensures
        r.has_psk == found is Some,
        r.has_password == found is Some,
        r.keyring_secured == (found == Some(SecretsOrigin::Keyring)),
{
    let has = found.is_some();
    let keyring_secured = match found {
        Some(SecretsOrigin::Keyring) => true,
        _ => false,
    };
    SecretsStatus { has_psk: has, has_password: has, keyring_secured }
}

pub open spec fn migrated_profile(old: UserConfigLegacy) -> ProfileView {
    ProfileView {
        id: "default"@,
        name: "Default Profile"@,
        host: old.host@,
        remote_identity: old.remote_identity@,
        username: old.username@,
    }
}

/// The configuration that the single-profile layout `old` becomes: one profile, `default`,
/// which is active.
pub fn migrate_legacy(old: UserConfigLegacy) -> (c: ProfilesConfig)
    ensures
        c@.active == "default"@,
        c@.profiles == seq![migrated_profile(old)],
{
    let ghost o = old;
    let profile = VpnProfile {
        id: "default".to_owned(),
        name: "Default Profile".to_owned(),
        host: old.host,
        remote_identity: old.remote_identity,
        username: old.username,
    };
    let mut profiles: Vec<VpnProfile> = Vec::new();
    profiles.push(profile);
    let c = ProfilesConfig { active_profile_id: "default".to_owned(), profiles };
    assert(c@.profiles =~= seq![migrated_profile(o)]);
    c
}

/// Where a loaded configuration came from.
#[derive(Debug, Clone, Copy, PartialEq, Eq, Structural)]
pub enum ConfigSource {
    /// The file held a configuration.
    Parsed,
    /// The file held the single-profile layout, which was migrated; its credentials move
    /// to the profile `default` and the result is saved.
    Migrated,
    /// The file was missing, or held neither layout; the empty configuration is saved.
    Fresh,
}

/// The configuration to use, given what the file parsed as: a configuration, or else the
/// old single-profile layout, or else the empty configuration.
pub fn resolve_loaded_config(
    parsed: Option<ProfilesConfig>,
    legacy: Option<UserConfigLegacy>,
) -> (r: (ProfilesConfig, ConfigSource))
    ensures
        match parsed {
            Some(c) => r.1 == ConfigSource::Parsed && r.0@ == c@,
            None => match legacy {
                Some(old) => r.1 == ConfigSource::Migrated && r.0@.active == "default"@
                    && r.0@.profiles == seq![migrated_profile(old)],
                None => r.1 == ConfigSource::Fresh && r.0@.active == Seq::<char>::empty()
                    && r.0@.profiles == Seq::<ProfileView>::empty(),
            },
        },
{
    match parsed {
        Some(c) => (c, ConfigSource::Parsed),
        None => match legacy {
            Some(old) => (migrate_legacy(old), ConfigSource::Migrated),
            None => (create_default_config(), ConfigSource::Fresh),
        },
    }
}

/// A configuration is consistent when its active id names a saved profile, or when it
/// holds no profile and no active id.
pub open spec fn consistent(c: ConfigView) -> bool {
    if c.profiles.len() == 0 {
        c.active.len() == 0
    } else {
        has_id(c.profiles, c.active)
    }
}

proof fn lemma_index_of_id_is(ps: Seq<ProfileView>, id: Seq<char>, i: int, k: int)
    requires
        0 <= i <= k < ps.len(),
        ps[k].id == id,
        forall|j: int| i <= j < k ==> (#[trigger] ps[j]).id != id,
    ensures
        index_of_id(ps, id, i) == k,
    decreases k - i,
{
    if i < k {
        lemma_index_of_id_is(ps, id, i + 1, k);
    }
}

/// Where a saved profile lands: at the first position of its id before, or at the end.
proof fn lemma_upsert_position(c: ConfigView, p: ProfileView)
    ensures
        ({
            let u = upsert(c, p);
            let k = index_of_id(u.profiles, p.id, 0);
            &&& 0 <= k < u.profiles.len()
            &&& u.profiles[k] == p
            &&& u.profiles.update(k, p) == u.profiles
        }),
{
    let u = upsert(c, p);
    let k0 = index_of_id(c.profiles, p.id, 0);
    lemma_index_of_id(c.profiles, p.id, 0);
    if k0 >= 0 {
        lemma_index_of_id_is(u.profiles, p.id, 0, k0);
        assert(u.profiles.update(k0, p) =~= u.profiles);
    } else {
        let n = c.profiles.len() as int;
        assert forall|j: int| 0 <= j < n implies (#[trigger] u.profiles[j]).id != p.id by {
            assert(u.profiles[j] == c.profiles[j]);
        }
        lemma_index_of_id_is(u.profiles, p.id, 0, n);
        assert(u.profiles.update(n, p) =~= u.profiles);
    }
}

/// The empty configuration is consistent.
pub proof fn lemma_default_consistent()
    ensures
        consistent(ConfigView { active: Seq::empty(), profiles: Seq::empty() }),
{
}

/// After a profile is saved, the configuration is consistent whatever it was before, the
/// saved profile is active, and it is the profile found under its id (so a connection
/// uses it).
pub proof fn lemma_saved_profile_is_active(c: ConfigView, p: ProfileView)
    ensures
        consistent(upsert(c, p)),
        upsert(c, p).active == p.id,
        ({
            let u = upsert(c, p);
            let k = index_of_id(u.profiles, u.active, 0);
            u.profiles.len() > 0 && 0 <= k && u.profiles[k] == p
        }),
{
    lemma_upsert_position(c, p);
    let u = upsert(c, p);
    let k = index_of_id(u.profiles, p.id, 0);
    assert(u.profiles[k].id == u.active);
}

/// Saving the same profile twice is saving it once.
pub proof fn lemma_save_idempotent(c: ConfigView, p: ProfileView)
    ensures
        upsert(upsert(c, p), p) == upsert(c, p),
{
    lemma_upsert_position(c, p);
}

proof fn lemma_has_id_push(ps: Seq<ProfileView>, q: ProfileView, x: Seq<char>)
    ensures
        has_id(ps.push(q), x) <==> has_id(ps, x) || q.id == x,
{
    let t = ps.push(q);
    if has_id(ps, x) {
        let k = choose|k: int| 0 <= k < ps.len() && (#[trigger] ps[k]).id == x;
        assert(t[k] == ps[k]);
    }
    if q.id == x {
        assert(t[ps.len() as int] == q);
    }
    if has_id(t, x) {
        let k = choose|k: int| 0 <= k < t.len() && (#[trigger] t[k]).id == x;
        if k < ps.len() {
            assert(t[k] == ps[k]);
        }
    }
}

/// The profiles left by a deletion are those of another id.
pub proof fn lemma_without_id_has(ps: Seq<ProfileView>, id: Seq<char>, x: Seq<char>)
    ensures
        has_id(without_id(ps, id), x) <==> has_id(ps, x) && x != id,
    decreases ps.len(),
{
    if ps.len() > 0 {
        lemma_without_id_has(ps.drop_last(), id, x);
        lemma_has_id_push(without_id(ps.drop_last(), id), ps.last(), x);
        lemma_has_id_push(ps.drop_last(), ps.last(), x);
        assert(ps.drop_last().push(ps.last()) =~= ps);
    }
}

/// After a deletion no profile has the deleted id, every other profile is still there,
/// and a consistent configuration stays consistent.
pub proof fn lemma_delete_removes(c: ConfigView, id: Seq<char>, x: Seq<char>)
    ensures
        !has_id(after_delete(c, id).profiles, id),
        has_id(after_delete(c, id).profiles, x) <==> has_id(c.profiles, x) && x != id,
        consistent(c) ==> consistent(after_delete(c, id)),
{
    lemma_without_id_has(c.profiles, id, id);
    lemma_without_id_has(c.profiles, id, x);
    lemma_without_id_has(c.profiles, id, c.active);
    let ps = without_id(c.profiles, id);
    if ps.len() > 0 {
        assert(has_id(ps, ps[0].id));
    }
}

/// Making an existing profile active keeps a configuration consistent.
pub proof fn lemma_set_active_consistent(c: ConfigView, id: Seq<char>)
    requires
        has_id(c.profiles, id),
    ensures
        consistent(ConfigView { active: id, profiles: c.profiles }),
{
}

/// A migrated configuration is consistent.
pub proof fn lemma_migrated_consistent(old: UserConfigLegacy)
    ensures
        consistent(ConfigView { active: "default"@, profiles: seq![migrated_profile(old)] }),
{
    let ps = seq![migrated_profile(old)];
    assert(ps[0].id == "default"@);
}

/// In a consistent configuration that holds profiles, the active profile is found, so a
/// connection never fails for want of it.
pub proof fn lemma_consistent_finds_active(c: ConfigView)
    requires
        consistent(c),
        c.profiles.len() > 0,
    ensures
        0 <= index_of_id(c.profiles, c.active, 0) < c.profiles.len(),
        c.profiles[index_of_id(c.profiles, c.active, 0)].id == c.active,
{
    lemma_index_of_id(c.profiles, c.active, 0);
    let k = choose|k: int| 0 <= k < c.profiles.len() && (#[trigger] c.profiles[k]).id == c.active;
    assert(c.profiles[k].id == c.active);
}

/// Deleting a profile that is not the active one keeps the active profile, whenever some
/// profile with another id than the deleted one remains; in particular when the active
/// profile exists, it stays, still active.
pub proof fn lemma_delete_keeps_active(c: ConfigView, id: Seq<char>)
    requires
        c.active != id,
    ensures
        (exists|k: int| 0 <= k < c.profiles.len() && (#[trigger] c.profiles[k]).id != id)
            ==> after_delete(c, id).active == c.active,
        has_id(c.profiles, c.active) ==> after_delete(c, id).active == c.active
            && has_id(after_delete(c, id).profiles, c.active),
{
    if exists|k: int| 0 <= k < c.profiles.len() && (#[trigger] c.profiles[k]).id != id {
        let k = choose|k: int| 0 <= k < c.profiles.len() && (#[trigger] c.profiles[k]).id != id;
        let x = c.profiles[k].id;
        lemma_without_id_has(c.profiles, id, x);
        assert(has_id(c.profiles, x));
        assert(without_id(c.profiles, id).len() > 0);
    }
    lemma_without_id_has(c.profiles, id, c.active);
    if has_id(c.profiles, c.active) {
        let k = choose|k: int| 0 <= k < c.profiles.len() && (#[trigger] c.profiles[k]).id == c.active;
        assert(c.profiles[k].id != id);
    }
}

proof fn lemma_without_id_first(ps: Seq<ProfileView>, id: Seq<char>, k: int)
    requires
        0 <= k < ps.len(),
        ps[k].id != id,
        forall|j: int| 0 <= j < k ==> (#[trigger] ps[j]).id == id,
    ensures
        without_id(ps, id).len() > 0,
        without_id(ps, id)[0] == ps[k],
    decreases ps.len(),
{
    let q = ps.drop_last();
    if k < ps.len() - 1 {
        lemma_without_id_first(q, id, k);
    } else {
        assert forall|x: Seq<char>| !has_id(without_id(q, id), x) by {
            lemma_without_id_has(q, id, x);
            if has_id(q, x) && x != id {
                let j = choose|j: int| 0 <= j < q.len() && (#[trigger] q[j]).id == x;
                assert(ps[j].id == id);
            }
        }
        if without_id(q, id).len() > 0 {
            assert(has_id(without_id(q, id), without_id(q, id)[0].id));
        }
    }
}

/// Deleting the active profile makes the first remaining profile, in the order of the
/// configuration, the active one; when no profile remains, none is active.
pub proof fn lemma_delete_active_moves_to_first(c: ConfigView, id: Seq<char>, k: int)
    requires
        c.active == id,
        0 <= k <= c.profiles.len(),
        forall|j: int| 0 <= j < k ==> (#[trigger] c.profiles[j]).id == id,
        k < c.profiles.len() ==> c.profiles[k].id != id,
    ensures
        k < c.profiles.len() ==> after_delete(c, id).active == c.profiles[k].id,
        k == c.profiles.len() ==> after_delete(c, id).active == Seq::<char>::empty()
            && after_delete(c, id).profiles.len() == 0,
{
    if k < c.profiles.len() {
        lemma_without_id_first(c.profiles, id, k);
    } else {
        let ps = without_id(c.profiles, id);
        if ps.len() > 0 {
            lemma_without_id_has(c.profiles, id, ps[0].id);
            assert(has_id(ps, ps[0].id));
            let j = choose|j: int| 0 <= j < c.profiles.len() && (#[trigger] c.profiles[j]).id == ps[0].id;
        }
    }
}

proof fn lemma_without_id_filter(ps: Seq<ProfileView>, id: Seq<char>, pred: spec_fn(ProfileView) -> bool)
    requires
        forall|q: ProfileView| #[trigger] pred(q) == (q.id != id),
    ensures
        without_id(ps, id) == ps.filter(pred),
    decreases ps.len(),
{
    reveal(Seq::filter);
    if ps.len() > 0 {
        lemma_without_id_filter(ps.drop_last(), id, pred);
        assert(pred(ps.last()) == (ps.last().id != id));
    }
}

/// Deleting the profiles with an id keeps exactly the other profiles, in their order.
pub proof fn lemma_delete_keeps_others_in_order(c: ConfigView, id: Seq<char>)
    ensures
        after_delete(c, id).profiles == c.profiles.filter(|q: ProfileView| q.id != id),
{
    lemma_without_id_filter(c.profiles, id, |q: ProfileView| q.id != id);
}

/// Saving a profile whose id is first held at `k` puts it in place of that profile and
/// leaves every other one as it was; saving one whose id is new appends it. Either way it
/// becomes the active profile.
pub proof fn lemma_save_replaces_or_appends(c: ConfigView, p: ProfileView, k: int)
    requires
        0 <= k <= c.profiles.len(),
        forall|j: int| 0 <= j < k ==> (#[trigger] c.profiles[j]).id != p.id,
        k < c.profiles.len() ==> c.profiles[k].id == p.id,
    ensures
        k < c.profiles.len() ==> upsert(c, p).profiles == c.profiles.update(k, p),
        k == c.profiles.len() ==> upsert(c, p).profiles == c.profiles.push(p),
        upsert(c, p).active == p.id,
{
    lemma_index_of_id(c.profiles, p.id, 0);
    if k < c.profiles.len() {
        lemma_index_of_id_is(c.profiles, p.id, 0, k);
    }
}

} // verus!
