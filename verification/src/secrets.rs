//! Credentials of the profiles: the names they are kept under in the system keyring, and
//! the fallback file that maps profile ids to credentials.

use vstd::prelude::*;
use crate::profiles::{SecretsOrigin, SecretsStore, SecretsView};
use crate::text::joined;

verus! {

/// Service name under which the keyring holds the credentials.
pub open spec fn keyring_service_text() -> Seq<char> {
    "findmore-vpn"@
}

/// The keyring service that holds the credentials.
pub fn keyring_service() -> (r: String)
    ensures
        r@ == keyring_service_text(),
{
    "findmore-vpn".to_owned()
}

/// The keyring account of the pre-shared key of a profile: `psk-<id>`.
pub fn psk_account(profile_id: &str) -> (r: String)
    ensures
        r@ == "psk-"@ + profile_id@,
{
    joined("psk-", profile_id)
}

/// The keyring account of the password of a profile: `password-<id>`.
pub fn password_account(profile_id: &str) -> (r: String)
    ensures
        r@ == "password-"@ + profile_id@,
{
    joined("password-", profile_id)
}

/// The credentials of each profile, as the fallback file holds them. Later entries for the
/// same id win.
pub struct SecretsMap {
    entries: Vec<(String, SecretsStore)>,
}

/// The map that a list of entries stands for: each entry binds its id, later ones over
/// earlier ones.
pub open spec fn entries_map(es: Seq<(String, SecretsStore)>) -> Map<Seq<char>, SecretsView>
    decreases es.len(),
{
    if es.len() == 0 {
        Map::empty()
    } else {
        entries_map(es.drop_last()).insert(es.last().0@, es.last().1@)
    }
}

/// The entries without those for the id `k`, in their order.
pub open spec fn entries_without(es: Seq<(String, SecretsStore)>, k: Seq<char>) -> Seq<(String, SecretsStore)>
    decreases es.len(),
{
    if es.len() == 0 {
        seq![]
    } else if es.last().0@ == k {
        entries_without(es.drop_last(), k)
    } else {
        entries_without(es.drop_last(), k).push(es.last())
    }
}

pub proof fn lemma_entries_without(es: Seq<(String, SecretsStore)>, k: Seq<char>)
    ensures
        entries_map(entries_without(es, k)) == entries_map(es).remove(k),
    decreases es.len(),
{
    if es.len() > 0 {
        lemma_entries_without(es.drop_last(), k);
        let rest = entries_without(es.drop_last(), k);
        if es.last().0@ != k {
            assert(rest.push(es.last()).drop_last() =~= rest);
        }
        assert(entries_map(entries_without(es, k)) =~= entries_map(es).remove(k));
    } else {
        assert(entries_map(entries_without(es, k)) =~= entries_map(es).remove(k));
    }
}

impl View for SecretsMap {
    type V = Map<Seq<char>, SecretsView>;

    closed spec fn view(&self) -> Map<Seq<char>, SecretsView> {
        entries_map(self.entries@)
    }
}

impl SecretsMap {
    /// The map that holds no credentials.
    pub fn new() -> (m: SecretsMap)
        ensures
            m@ == Map::<Seq<char>, SecretsView>::empty(),
    {
        SecretsMap { entries: Vec::new() }
    }

    /// The credentials stored for `profile_id`.
    pub fn get(&self, profile_id: &String) -> (r: Option<SecretsStore>)
        ensures
            match r {
                Some(s) => self@.contains_key(profile_id@) && s@ == self@[profile_id@],
                None => !self@.contains_key(profile_id@),
            },
    {
        let ghost es = self.entries@;
        let mut i = self.entries.len();
        assert(es.take(es.len() as int) =~= es);
        while i > 0
            invariant
                es == self.entries@,
                i <= es.len(),
                forall|j: int| i <= j < es.len() ==> (#[trigger] es[j]).0@ != profile_id@,
                entries_map(es).contains_key(profile_id@) == entries_map(es.take(i as int)).contains_key(profile_id@),
                entries_map(es).contains_key(profile_id@) ==> entries_map(es)[profile_id@] == entries_map(es.take(i as int))[profile_id@],
            decreases i,
        {
            assert(es.take(i as int).drop_last() =~= es.take(i - 1));
            let (k, v) = &self.entries[i - 1];
            if *k == *profile_id {
                let s = SecretsStore { psk: v.psk.clone(), password: v.password.clone() };
                return Some(s);
            }
            i = i - 1;
        }
        assert(es.take(0) =~= Seq::<(String, SecretsStore)>::empty());
        None
    }

    /// Binds `profile_id` to `secrets`, replacing what it was bound to.
    pub fn insert(&mut self, profile_id: String, secrets: SecretsStore)
        ensures
            final(self)@ == old(self)@.insert(profile_id@, secrets@),
    {
        let ghost es = self.entries@;
        self.entries.push((profile_id, secrets));
        assert(self.entries@.drop_last() =~= es);
    }

    /// Drops what `profile_id` is bound to; tells whether it was bound.
    pub fn remove(&mut self, profile_id: &String) -> (was_bound: bool)
        ensures
            final(self)@ == old(self)@.remove(profile_id@),
            was_bound == old(self)@.contains_key(profile_id@),
    {
        let ghost es = self.entries@;
        let mut kept: Vec<(String, SecretsStore)> = Vec::new();
        let mut found = false;
        let mut i: usize = 0;
        while i < self.entries.len()
            invariant
                es == self.entries@,
                i <= es.len(),
                kept@ == entries_without(es.take(i as int), profile_id@),
                found == entries_map(es.take(i as int)).contains_key(profile_id@),
            decreases es.len() - i,
        {
            assert(es.take((i + 1) as int).drop_last() =~= es.take(i as int));
            let (k, v) = &self.entries[i];
            if *k == *profile_id {
                found = true;
            } else {
                let e = (k.clone(), SecretsStore { psk: v.psk.clone(), password: v.password.clone() });
                assert(e == es[i as int]);
                kept.push(e);
            }
            i = i + 1;
        }
        assert(es.take(es.len() as int) =~= es);
        proof {
            lemma_entries_without(es, profile_id@);
        }
        self.entries = kept;
        found
    }

    /// The map that the entries of the fallback file stand for.
    pub fn from_entries(entries: Vec<(String, SecretsStore)>) -> (m: SecretsMap)
        ensures
            m@ == entries_map(entries@),
    {
        SecretsMap { entries }
    }

    /// The entries, in the order they were bound, to write to the fallback file; of several
    /// entries for one id the last one counts.
    pub fn into_entries(self) -> (r: Vec<(String, SecretsStore)>)
        ensures
            entries_map(r@) == self@,
    {
        self.entries
    }
}

pub open spec fn not_found_text() -> Seq<char> {
    "Pre-shared key and Password not found"@
}

/// The credentials of `profile_id` and where they were found: those the keyring gave, or
/// else those the fallback file binds it to. `file` is `None` when there is no fallback
/// file, and an error when it could not be read.
pub fn resolve_secrets(
    keyring: Option<SecretsStore>,
    file: Option<Result<SecretsMap, String>>,
    profile_id: &String,
) -> (r: Result<(SecretsStore, SecretsOrigin), String>)
    ensures
        match keyring {
            Some(k) => r matches Ok((s, o)) && s@ == k@ && o == SecretsOrigin::Keyring,
            None => match file {
                None => r matches Err(e) && e@ == not_found_text(),
                Some(Err(f)) => r matches Err(e) && e@ == f@,
                Some(Ok(m)) => if m@.contains_key(profile_id@) {
                    r matches Ok((s, o)) && s@ == m@[profile_id@] && o == SecretsOrigin::File
                } else {
                    r matches Err(e) && e@ == not_found_text()
                },
            },
        },
{
    match keyring {
        Some(k) => Ok((k, SecretsOrigin::Keyring)),
        None => match file {
            None => Err("Pre-shared key and Password not found".to_owned()),
            Some(Err(f)) => Err(f),
            Some(Ok(m)) => match m.get(profile_id) {
                Some(s) => Ok((s, SecretsOrigin::File)),
                None => Err("Pre-shared key and Password not found".to_owned()),
            },
        },
    }
}

/// The credentials kept from before profiles existed: those the keyring gave, or else those
/// the old fallback file held (`None` when it is missing or unreadable).
pub fn resolve_legacy_secrets(keyring: Option<SecretsStore>, file: Option<SecretsStore>) -> (r: Result<SecretsStore, String>)
    ensures
        match (keyring, file) {
            (Some(k), _) => r matches Ok(s) && s@ == k@,
            (None, Some(f)) => r matches Ok(s) && s@ == f@,
            (None, None) => r matches Err(e) && e@ == "No legacy secrets found"@,
        },
{
    match (keyring, file) {
        (Some(k), _) => Ok(k),
        (None, Some(f)) => Ok(f),
        (None, None) => Err("No legacy secrets found".to_owned()),
    }
}

/// Reading the credentials of an id after storing them gives what was stored; the other
/// ids keep theirs.
pub proof fn lemma_read_after_store(
    m: Map<Seq<char>, SecretsView>,
    id: Seq<char>,
    v: SecretsView,
    other: Seq<char>,
)
    ensures
        m.insert(id, v).contains_key(id),
        m.insert(id, v)[id] == v,
        other != id ==> (m.insert(id, v).contains_key(other) == m.contains_key(other)),
        other != id && m.contains_key(other) ==> m.insert(id, v)[other] == m[other],
{
}

/// After the credentials of an id are deleted none are found for it; the other ids keep
/// theirs.
pub proof fn lemma_read_after_delete(m: Map<Seq<char>, SecretsView>, id: Seq<char>, other: Seq<char>)
    ensures
        !m.remove(id).contains_key(id),
        other != id ==> (m.remove(id).contains_key(other) == m.contains_key(other)),
        other != id && m.contains_key(other) ==> m.remove(id)[other] == m[other],
{
}

} // verus!
