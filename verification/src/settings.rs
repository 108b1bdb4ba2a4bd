//! Persisted application settings: named MIB directory profiles (so the MIBs
//! of different releases can be kept apart and switched between) and host
//! profiles. Reading and writing the JSON file happens outside this module;
//! everything here is the in-memory model and its editing rules.

use vstd::prelude::*;
use crate::text::{chars_of, contains_str, decimal, decimal_chars, str_eq, string_of, vec_contains_str};

verus! {

/// A saved device address with its SNMP credentials.
pub struct HostProfile {
    pub id: String,
    pub label: String,
    pub addr: String,
    pub port: String,
    pub community: String,
    pub v3_user: String,
}

/// A named set of MIB directories.
pub struct MibProfile {
    pub id: String,
    pub name: String,
    pub dirs: Vec<String>,
}

/// The whole persisted settings document.
pub struct Settings {
    pub mib_profiles: Vec<MibProfile>,
    pub active_mib_profile_id: String,
    pub host_profiles: Vec<HostProfile>,
}

/// The settings document as written before profiles existed: one flat list
/// of MIB directories.
pub struct SettingsV1 {
    pub mib_dirs: Vec<String>,
    pub host_profiles: Vec<HostProfile>,
}

impl Clone for HostProfile {
    fn clone(&self) -> (r: Self)
        ensures
            r == *self,
    {
        HostProfile {
            id: self.id.clone(),
            label: self.label.clone(),
            addr: self.addr.clone(),
            port: self.port.clone(),
            community: self.community.clone(),
            v3_user: self.v3_user.clone(),
        }
    }
}

impl Clone for MibProfile {
    fn clone(&self) -> (r: Self)
        ensures
            r.id == self.id,
            r.name == self.name,
            r.dirs@ == self.dirs@,
    {
        let dirs = self.dirs.clone();
        assert(dirs@ =~= self.dirs@);
        MibProfile { id: self.id.clone(), name: self.name.clone(), dirs }
    }
}

/// `i` is the first position in `ps` whose profile has id `id`.
pub open spec fn first_with_id(ps: Seq<MibProfile>, id: Seq<char>, i: int) -> bool {
    &&& 0 <= i < ps.len()
    &&& ps[i].id@ == id
    &&& forall|j: int| 0 <= j < i ==> ps[j].id@ != id
}

/// Some profile in `ps` has id `id`.
pub open spec fn has_id(ps: Seq<MibProfile>, id: Seq<char>) -> bool {
    exists|i: int| 0 <= i < ps.len() && ps[i].id@ == id
}

/// The position of the first profile with id `id`, if any.
pub open spec fn index_of_id(ps: Seq<MibProfile>, id: Seq<char>) -> Option<int> {
    if has_id(ps, id) {
        Some(choose|i: int| first_with_id(ps, id, i))
    } else {
        None
    }
}

/// The first position holding `id` exists whenever some position holds it,
/// and is unique.
pub proof fn lemma_first_with_id(ps: Seq<MibProfile>, id: Seq<char>)
    ensures
        has_id(ps, id) ==> first_with_id(ps, id, index_of_id(ps, id)->0),
        forall|i: int, j: int| first_with_id(ps, id, i) && first_with_id(ps, id, j) ==> i == j,
{
    if has_id(ps, id) {
        let k = choose|k: int| 0 <= k < ps.len() && ps[k].id@ == id;
        lemma_first_below(ps, id, k);
    }
}

proof fn lemma_first_below(ps: Seq<MibProfile>, id: Seq<char>, k: int)
    requires
        0 <= k < ps.len(),
        ps[k].id@ == id,
    ensures
        exists|i: int| first_with_id(ps, id, i),
    decreases k,
{
    if forall|j: int| 0 <= j < k ==> ps[j].id@ != id {
        assert(first_with_id(ps, id, k));
    } else {
        let j2 = choose|j2: int| 0 <= j2 < k && ps[j2].id@ == id;
        lemma_first_below(ps, id, j2);
    }
}

/// The position of the first profile in `ps` with id `id`.
fn position_of(ps: &Vec<MibProfile>, id: &str) -> (r: Option<usize>)
    ensures
        match index_of_id(ps@, id@) {
            Some(i) => r == Some(i as usize),
            None => r is None,
        },
        r matches Some(i) ==> first_with_id(ps@, id@, i as int),
{
    proof { lemma_first_with_id(ps@, id@); }
    let mut i: usize = 0;
    while i < ps.len()
        invariant
            i <= ps@.len(),
            forall|j: int| 0 <= j < i ==> ps@[j].id@ != id@,
        decreases ps@.len() - i,
    {
        if str_eq(ps[i].id.as_str(), id) {
            assert(first_with_id(ps@, id@, i as int));
            return Some(i);
        }
        i = i + 1;
    }
    None
}

/// Holds of profiles whose id is not `id`.
pub open spec fn id_differs(id: Seq<char>) -> spec_fn(MibProfile) -> bool {
    |p: MibProfile| p.id@ != id
}

/// An id of the form `mp<decimal number>`, as generated for new profiles.
pub open spec fn is_generated_id(id: Seq<char>) -> bool {
    exists|m: nat| id == seq!['m', 'p'] + decimal(m)
}

/// Milliseconds since the Unix epoch according to the system clock
/// (`SystemTime::now`), or 0 if the clock is before the epoch. Nothing is
/// promised of the value: it depends on the clock.
#[verifier::external_body]
fn now_millis() -> u128 {
    std::time::SystemTime::now().duration_since(std::time::UNIX_EPOCH).map(|d| d.as_millis()).unwrap_or(0)
}

/// The profile id for a clock reading: `mp` followed by the milliseconds
/// in decimal.
pub fn profile_id_for(millis: u128) -> (r: String)
    ensures
        r@ == seq!['m', 'p'] + decimal(millis as nat),
{
    let digits = decimal_chars(millis);
    let mut cs: Vec<char> = Vec::new();
    cs.push('m');
    cs.push('p');
    let mut i: usize = 0;
    while i < digits.len()
        invariant
            i <= digits@.len(),
            cs@ == seq!['m', 'p'] + digits@.take(i as int),
        decreases digits@.len() - i,
    {
        cs.push(digits[i]);
        i = i + 1;
        assert(cs@ =~= seq!['m', 'p'] + digits@.take(i as int));
    }
    assert(digits@.take(digits@.len() as int) =~= digits@);
    string_of(cs.as_slice())
}

/// A fresh profile id, `mp` followed by the current time in milliseconds.
fn new_profile_id() -> (r: String)
    ensures
        is_generated_id(r@),
{
    let millis = now_millis();
    let r = profile_id_for(millis);
    assert(r@ == seq!['m', 'p'] + decimal(millis as nat));
    r
}

/// The id of the profile a fresh settings document starts with.
pub open spec fn default_profile_id() -> Seq<char> {
    seq!['d', 'e', 'f', 'a', 'u', 'l', 't']
}

/// The name of the profile a fresh settings document starts with.
pub open spec fn default_profile_name() -> Seq<char> {
    seq!['D', 'e', 'f', 'a', 'u', 'l', 't']
}

fn default_id_string() -> (r: String)
    ensures
        r@ == default_profile_id(),
{
    let cs: Vec<char> = vec!['d', 'e', 'f', 'a', 'u', 'l', 't'];
    string_of(cs.as_slice())
}

fn default_name_string() -> (r: String)
    ensures
        r@ == default_profile_name(),
{
    let cs: Vec<char> = vec!['D', 'e', 'f', 'a', 'u', 'l', 't'];
    string_of(cs.as_slice())
}

/// Settings holding the single profile `default`/`Default` with `dirs`, active,
/// and `hosts`.
pub open spec fn is_single_default(s: Settings, dirs: Seq<String>, hosts: Seq<HostProfile>) -> bool {
    &&& s.mib_profiles@.len() == 1
    &&& s.mib_profiles@[0].id@ == default_profile_id()
    &&& s.mib_profiles@[0].name@ == default_profile_name()
    &&& s.mib_profiles@[0].dirs@ == dirs
    &&& s.active_mib_profile_id@ == default_profile_id()
    &&& s.host_profiles@ == hosts
}

impl Default for Settings {
    /// One empty profile named `Default` (id `default`), active, and no hosts.
    fn default() -> (r: Self)
        ensures
            is_single_default(r, Seq::empty(), Seq::empty()),
    {
        Settings::single_default(Vec::new(), Vec::new())
    }
}

impl Settings {
    /// At least one profile exists and the active id names one of them.
    pub open spec fn valid(self) -> bool {
        &&& self.mib_profiles@.len() >= 1
        &&& has_id(self.mib_profiles@, self.active_mib_profile_id@)
    }

    fn single_default(dirs: Vec<String>, hosts: Vec<HostProfile>) -> (r: Self)
        ensures
            is_single_default(r, dirs@, hosts@),
    {
        let mut profiles: Vec<MibProfile> = Vec::new();
        profiles.push(MibProfile { id: default_id_string(), name: default_name_string(), dirs });
        Settings { mib_profiles: profiles, active_mib_profile_id: default_id_string(), host_profiles: hosts }
    }

    /// The spec-level active profile position.
    pub open spec fn active_index(self) -> Option<int> {
        index_of_id(self.mib_profiles@, self.active_mib_profile_id@)
    }

    /// The first profile whose id is the active id, if there is one.
    pub fn active_profile(&self) -> (r: Option<&MibProfile>)
        ensures
            match self.active_index() {
                Some(i) => r == Some(&self.mib_profiles@[i]),
                None => r is None,
            },
    {
        match position_of(&self.mib_profiles, self.active_mib_profile_id.as_str()) {
            Some(i) => Some(&self.mib_profiles[i]),
            None => None,
        }
    }

    /// The first profile whose id is the active id, for editing in place.
    pub fn active_profile_mut(&mut self) -> (r: Option<&mut MibProfile>)
        ensures
            match old(self).active_index() {
                Some(i) => r matches Some(p) && *p == old(self).mib_profiles@[i]
                    && final(self).mib_profiles@ == old(self).mib_profiles@.update(i, *final(p)),
                None => r is None && final(self).mib_profiles@ == old(self).mib_profiles@,
            },
            final(self).active_mib_profile_id == old(self).active_mib_profile_id,
            final(self).host_profiles == old(self).host_profiles,
    {
        match position_of(&self.mib_profiles, self.active_mib_profile_id.as_str()) {
            Some(i) => Some(&mut self.mib_profiles[i]),
            None => None,
        }
    }

    /// Appends a new empty profile named `name` with a freshly generated id
    /// and makes it the active one; returns the new profile.
    pub fn add_mib_profile(&mut self, name: String) -> (r: &MibProfile)
        requires
            old(self).mib_profiles@.len() < usize::MAX,
        ensures
            final(self).mib_profiles@.len() == old(self).mib_profiles@.len() + 1,
            final(self).mib_profiles@.drop_last() == old(self).mib_profiles@,
            *r == final(self).mib_profiles@.last(),
            r.name == name,
            r.dirs@.len() == 0,
            is_generated_id(r.id@),
            final(self).active_mib_profile_id == r.id,
            final(self).host_profiles == old(self).host_profiles,
            final(self).valid(),
    {
        let id = new_profile_id();
        self.mib_profiles.push(MibProfile { id: id.clone(), name, dirs: Vec::new() });
        self.active_mib_profile_id = id;
        assert(self.mib_profiles@.drop_last() =~= old(self).mib_profiles@);
        let n = self.mib_profiles.len();
        &self.mib_profiles[n - 1]
    }

    /// Removes every profile with id `id`, unless that would leave no
    /// profile at all (then nothing changes). If the active profile was
    /// removed, the first remaining profile becomes active.
    pub fn remove_mib_profile(&mut self, id: &str)
        requires
            old(self).mib_profiles@.len() <= 1 || old(self).active_mib_profile_id@ != id@
                || exists|i: int| 0 <= i < old(self).mib_profiles@.len() && old(self).mib_profiles@[i].id@ != id@,
        ensures
            old(self).mib_profiles@.len() <= 1 ==> *final(self) == *old(self),
            old(self).mib_profiles@.len() > 1 ==> {
                &&& final(self).mib_profiles@ == old(self).mib_profiles@.filter(id_differs(id@))
                &&& final(self).active_mib_profile_id@ == if old(self).active_mib_profile_id@ == id@ {
                        final(self).mib_profiles@[0].id@
                    } else {
                        old(self).active_mib_profile_id@
                    }
                &&& final(self).host_profiles == old(self).host_profiles
            },
            old(self).valid() ==> final(self).valid(),
    {
        if self.mib_profiles.len() <= 1 {
            return;
        }
        let ghost pred = id_differs(id@);
        let ghost old_ps = self.mib_profiles@;
        let mut kept: Vec<MibProfile> = Vec::new();
        let mut taken: Vec<MibProfile> = Vec::new();
        std::mem::swap(&mut taken, &mut self.mib_profiles);
        let n = taken.len();
        let mut i: usize = 0;
        while i < n
            invariant
                n == old_ps.len(),
                pred == id_differs(id@),
                i <= n,
                taken@ == old_ps.skip(i as int),
                kept@ == old_ps.take(i as int).filter(pred),
            decreases n - i,
        {
            proof {
                broadcast use Seq::lemma_filter_push;
                assert(old_ps.take(i as int + 1) =~= old_ps.take(i as int).push(old_ps[i as int]));
            }
            let p = taken.remove(0);
            assert(p == old_ps[i as int]);
            assert(pred(p) == (p.id@ != id@));
            assert(taken@ =~= old_ps.skip(i as int + 1));
            if !str_eq(p.id.as_str(), id) {
                kept.push(p);
            }
            i = i + 1;
        }
        assert(old_ps.take(n as int) =~= old_ps);
        self.mib_profiles = kept;
        if str_eq(self.active_mib_profile_id.as_str(), id) {
            proof {
                let k = choose|k: int| 0 <= k < old_ps.len() && old_ps[k].id@ != id@;
                old_ps.lemma_filter_contains(pred, k);
            }
            self.active_mib_profile_id = self.mib_profiles[0].id.clone();
        } else {
            proof {
                if old(self).valid() {
                    let k = choose|k: int| 0 <= k < old_ps.len() && old_ps[k].id@ == old(self).active_mib_profile_id@;
                    old_ps.lemma_filter_contains(pred, k);
                    let j = choose|j: int| 0 <= j < self.mib_profiles@.len() && self.mib_profiles@[j] == old_ps[k];
                    assert(self.mib_profiles@[j].id@ == self.active_mib_profile_id@);
                }
            }
        }
    }

    /// Renames the first profile with id `id`; does nothing if there is none.
    pub fn rename_mib_profile(&mut self, id: &str, name: String)
        ensures
            match index_of_id(old(self).mib_profiles@, id@) {
                Some(i) => {
                    &&& final(self).mib_profiles@.len() == old(self).mib_profiles@.len()
                    &&& forall|j: int| 0 <= j < old(self).mib_profiles@.len() && j != i
                        ==> final(self).mib_profiles@[j] == old(self).mib_profiles@[j]
                    &&& final(self).mib_profiles@[i].name == name
                    &&& final(self).mib_profiles@[i].id == old(self).mib_profiles@[i].id
                    &&& final(self).mib_profiles@[i].dirs == old(self).mib_profiles@[i].dirs
                },
                None => final(self).mib_profiles@ == old(self).mib_profiles@,
            },
            final(self).active_mib_profile_id == old(self).active_mib_profile_id,
            final(self).host_profiles == old(self).host_profiles,
            old(self).valid() ==> final(self).valid(),
    {
        proof { lemma_first_with_id(self.mib_profiles@, id@); }
        match position_of(&self.mib_profiles, id) {
            Some(i) => {
                let ghost before = self.mib_profiles@;
                let p = &mut self.mib_profiles[i];
                p.name = name;
                proof {
                    if old(self).valid() {
                        let k = choose|k: int| 0 <= k < before.len() && before[k].id@ == self.active_mib_profile_id@;
                        assert(self.mib_profiles@[k].id == before[k].id);
                    }
                }
            },
            None => {},
        }
    }

    /// Makes `id` the active profile id if some profile has that id;
    /// otherwise nothing changes.
    pub fn set_active_mib_profile(&mut self, id: String)
        ensures
            final(self).mib_profiles@ == old(self).mib_profiles@,
            final(self).host_profiles == old(self).host_profiles,
            final(self).active_mib_profile_id@ == if has_id(old(self).mib_profiles@, id@) {
                id@
            } else {
                old(self).active_mib_profile_id@
            },
            old(self).valid() ==> final(self).valid(),
    {
        if position_of(&self.mib_profiles, id.as_str()).is_some() {
            proof { lemma_first_with_id(self.mib_profiles@, id@); }
            self.active_mib_profile_id = id;
        } else {
            proof { lemma_first_with_id(self.mib_profiles@, id@); }
        }
    }

    /// Adds `path` to the active profile's directories unless it is already
    /// there; does nothing when no profile is active.
    pub fn add_mib_dir(&mut self, path: String)
        ensures
            final(self).active_mib_profile_id == old(self).active_mib_profile_id,
            final(self).host_profiles == old(self).host_profiles,
            final(self).mib_profiles@.len() == old(self).mib_profiles@.len(),
            match old(self).active_index() {
                Some(i) => {
                    &&& forall|j: int| 0 <= j < old(self).mib_profiles@.len() && j != i
                        ==> final(self).mib_profiles@[j] == old(self).mib_profiles@[j]
                    &&& final(self).mib_profiles@[i].id == old(self).mib_profiles@[i].id
                    &&& final(self).mib_profiles@[i].name == old(self).mib_profiles@[i].name
                    &&& final(self).mib_profiles@[i].dirs@ == if contains_str(old(self).mib_profiles@[i].dirs@, path@) {
                            old(self).mib_profiles@[i].dirs@
                        } else {
                            old(self).mib_profiles@[i].dirs@.push(path)
                        }
                },
                None => final(self).mib_profiles@ == old(self).mib_profiles@,
            },
            old(self).valid() ==> final(self).valid(),
    {
        proof { lemma_first_with_id(self.mib_profiles@, self.active_mib_profile_id@); }
        match position_of(&self.mib_profiles, self.active_mib_profile_id.as_str()) {
            Some(i) => {
                let ghost before = self.mib_profiles@;
                let p = &mut self.mib_profiles[i];
                if !vec_contains_str(&p.dirs, path.as_str()) {
                    p.dirs.push(path);
                }
                proof {
                    assert(self.mib_profiles@[i as int].id == before[i as int].id);
                    if old(self).valid() {
                        assert(self.mib_profiles@[i as int].id@ == self.active_mib_profile_id@);
                    }
                }
            },
            None => {},
        }
    }

    /// Removes every occurrence of `path` from the active profile's
    /// directories; does nothing when no profile is active.
    pub fn remove_mib_dir(&mut self, path: &str)
        ensures
            final(self).active_mib_profile_id == old(self).active_mib_profile_id,
            final(self).host_profiles == old(self).host_profiles,
            final(self).mib_profiles@.len() == old(self).mib_profiles@.len(),
            match old(self).active_index() {
                Some(i) => {
                    &&& forall|j: int| 0 <= j < old(self).mib_profiles@.len() && j != i
                        ==> final(self).mib_profiles@[j] == old(self).mib_profiles@[j]
                    &&& final(self).mib_profiles@[i].id == old(self).mib_profiles@[i].id
                    &&& final(self).mib_profiles@[i].name == old(self).mib_profiles@[i].name
                    &&& final(self).mib_profiles@[i].dirs@
                        == old(self).mib_profiles@[i].dirs@.filter(str_differs(path@))
                },
                None => final(self).mib_profiles@ == old(self).mib_profiles@,
            },
            old(self).valid() ==> final(self).valid(),
    {
        proof { lemma_first_with_id(self.mib_profiles@, self.active_mib_profile_id@); }
        match position_of(&self.mib_profiles, self.active_mib_profile_id.as_str()) {
            Some(i) => {
                let ghost before = self.mib_profiles@;
                let p = &mut self.mib_profiles[i];
                remove_str_from(&mut p.dirs, path);
                proof {
                    assert(self.mib_profiles@[i as int].id == before[i as int].id);
                    if old(self).valid() {
                        assert(self.mib_profiles@[i as int].id@ == self.active_mib_profile_id@);
                    }
                }
            },
            None => {},
        }
    }

    /// The settings a legacy (pre-profiles) document migrates to: its
    /// directories become the single active `Default` profile.
    pub fn from_legacy(legacy: SettingsV1) -> (r: Settings)
        ensures
            is_single_default(r, legacy.mib_dirs@, legacy.host_profiles@),
            r.valid(),
    {
        let r = Settings::single_default(legacy.mib_dirs, legacy.host_profiles);
        assert(r.mib_profiles@[0].id@ == r.active_mib_profile_id@);
        r
    }

    /// Chooses the loaded settings: the current-format document if it
    /// parsed, else the migrated legacy document if that parsed, else the
    /// defaults.
    pub fn load_from_parsed(current: Option<Settings>, legacy: Option<SettingsV1>) -> (r: Settings)
        ensures
            current matches Some(c) ==> r == c,
            current is None && legacy is Some ==> is_single_default(r, legacy->0.mib_dirs@, legacy->0.host_profiles@),
            current is None && legacy is None ==> is_single_default(r, Seq::empty(), Seq::empty()),
    {
        match current {
            Some(c) => c,
            None => match legacy {
                Some(l) => Settings::from_legacy(l),
                None => Settings::default(),
            },
        }
    }
}

/// A profile just added by `add_mib_profile` is the one `active_profile`
/// finds, unless another profile already had the id it was given.
pub proof fn lemma_added_profile_is_active(before: Settings, after: Settings)
    requires
        after.mib_profiles@.len() == before.mib_profiles@.len() + 1,
        after.mib_profiles@.drop_last() == before.mib_profiles@,
        after.active_mib_profile_id == after.mib_profiles@.last().id,
        !has_id(before.mib_profiles@, after.active_mib_profile_id@),
    ensures
        after.active_index() == Some(before.mib_profiles@.len() as int),
{
    let ps = after.mib_profiles@;
    let id = after.active_mib_profile_id@;
    let n = before.mib_profiles@.len() as int;
    assert forall|j: int| 0 <= j < n implies ps[j].id@ != id by {
        assert(ps[j] == before.mib_profiles@[j]);
    }
    assert(first_with_id(ps, id, n));
    lemma_first_with_id(ps, id);
}

/// Holds of strings different from `s`.
pub open spec fn str_differs(s: Seq<char>) -> spec_fn(String) -> bool {
    |d: String| d@ != s
}

/// Removes every string equal to `s` from `v`, keeping the others in order.
pub fn remove_str_from(v: &mut Vec<String>, s: &str)
    ensures
        final(v)@ == old(v)@.filter(str_differs(s@)),
{
    let ghost pred = str_differs(s@);
    let ghost old_v = v@;
    let mut kept: Vec<String> = Vec::new();
    let n = v.len();
    let mut i: usize = 0;
    while i < n
        invariant
            n == old_v.len(),
            pred == str_differs(s@),
            i <= n,
            v@ == old_v.skip(i as int),
            kept@ == old_v.take(i as int).filter(pred),
        decreases n - i,
    {
        proof {
            broadcast use Seq::lemma_filter_push;
            assert(old_v.take(i as int + 1) =~= old_v.take(i as int).push(old_v[i as int]));
        }
        let d = v.remove(0);
        assert(d == old_v[i as int]);
        assert(pred(d) == (d@ != s@));
        assert(v@ =~= old_v.skip(i as int + 1));
        if !str_eq(d.as_str(), s) {
            kept.push(d);
        }
        i = i + 1;
    }
    assert(old_v.take(n as int) =~= old_v);
    *v = kept;
}

} // verus!
