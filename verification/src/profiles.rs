//! Profiles: independent libraries on one machine, each with its own
//! database, and the registry that lists them and knows which is active.

use vstd::prelude::*;
use vstd::string::*;
use crate::paths::{join, join_path};
use crate::text::{ascii_lowered, digits, eq_ignore_ascii_case, lemma_eq_ignore_ascii_case_is_lowered_equality, eq_ignore_ascii_case_exec, first_index, format_radix, lemma_first_index, lemma_first_index_bounds, str_eq, trim, trimmed};
use crate::db::now_nanos;

verus! {

#[derive(Debug, Clone, PartialEq)]
pub struct Profile {
    pub id: String,
    pub name: String,
    pub color: String,
    pub last_opened: i64,
}

pub struct ProfileView {
    pub id: Seq<char>,
    pub name: Seq<char>,
    pub color: Seq<char>,
    pub last_opened: i64,
}

impl View for Profile {
    type V = ProfileView;

    open spec fn view(&self) -> ProfileView {
        ProfileView { id: self.id@, name: self.name@, color: self.color@, last_opened: self.last_opened }
    }
}

impl Profile {
    /// A field-by-field copy.
    pub fn copy(&self) -> (r: Profile)
        ensures
            r@ == self@,
    {
        Profile {
            id: self.id.clone(),
            name: self.name.clone(),
            color: self.color.clone(),
            last_opened: self.last_opened,
        }
    }
}

#[derive(Debug, Clone)]
pub struct Registry {
    pub profiles: Vec<Profile>,
    /// Id of the profile in use.
    pub active: String,
}

pub struct RegistryView {
    pub profiles: Seq<ProfileView>,
    pub active: Seq<char>,
}

impl View for Registry {
    type V = RegistryView;

    open spec fn view(&self) -> RegistryView {
        RegistryView { profiles: self.profiles@.map_values(|p: Profile| p@), active: self.active@ }
    }
}

impl Default for Registry {
    fn default() -> (r: Registry)
        ensures
            r@.profiles.len() == 0,
            r@.active.len() == 0,
    {
        Registry { profiles: Vec::new(), active: String::new() }
    }
}

/// Why a registry change is refused.
#[derive(Debug, PartialEq, Eq)]
pub enum ProfileError {
    EmptyName,
    /// Another profile already has this name, ignoring ASCII case.
    Duplicate(String),
    NoSuchProfile,
    OnlyProfile,
}

impl ProfileError {
    /// The sentence shown to the user.
    pub fn message(&self) -> (r: String)
        ensures
            r@ == match self {
                ProfileError::EmptyName => "profile name cannot be empty"@,
                ProfileError::Duplicate(n) => "a profile called "@ + n@ + " already exists"@,
                ProfileError::NoSuchProfile => "no such profile"@,
                ProfileError::OnlyProfile => "cannot delete the only profile"@,
            },
    {
        match self {
            ProfileError::EmptyName => String::from_str("profile name cannot be empty"),
            ProfileError::Duplicate(n) => {
                let mut r = String::from_str("a profile called ");
                r.append(n.as_str());
                r.append(" already exists");
                r
            },
            ProfileError::NoSuchProfile => String::from_str("no such profile"),
            ProfileError::OnlyProfile => String::from_str("cannot delete the only profile"),
        }
    }
}

/// Colours handed to new profiles in turn.
pub open spec fn palette(i: nat) -> Seq<char> {
    if i % 6 == 0 {
        "#4ea1ff"@
    } else if i % 6 == 1 {
        "#4ade80"@
    } else if i % 6 == 2 {
        "#f59e0b"@
    } else if i % 6 == 3 {
        "#f472b6"@
    } else if i % 6 == 4 {
        "#a78bfa"@
    } else {
        "#f87171"@
    }
}

fn color_for(i: usize) -> (r: String)
    ensures
        r@ == palette(i as nat),
{
    let k = i % 6;
    if k == 0 {
        String::from_str("#4ea1ff")
    } else if k == 1 {
        String::from_str("#4ade80")
    } else if k == 2 {
        String::from_str("#f59e0b")
    } else if k == 3 {
        String::from_str("#f472b6")
    } else if k == 4 {
        String::from_str("#a78bfa")
    } else {
        String::from_str("#f87171")
    }
}

/// Directory of a profile's own files.
pub fn profile_dir(base: &str, id: &str) -> (r: String)
    ensures
        r@ == join(join(base@, "profiles"@), id@),
{
    let p = join_path(base, "profiles");
    join_path(p.as_str(), id)
}

/// A profile's database.
pub fn db_path(base: &str, id: &str) -> (r: String)
    ensures
        r@ == join(join(join(base@, "profiles"@), id@), "library.db"@),
{
    let d = profile_dir(base, id);
    join_path(d.as_str(), "library.db")
}

/// The registry file.
pub fn registry_path(base: &str) -> (r: String)
    ensures
        r@ == join(base@, "profiles.json"@),
{
    join_path(base, "profiles.json")
}

/// A fresh profile id: the clock in nanoseconds, in lower-case hex. Ids only
/// need to be unique and path-safe; they are never shown.
pub fn new_id() -> (r: String)
    ensures
        exists|n: nat| r@ == digits(n, 16),
{
    format_radix(now_nanos(), 16)
}

pub open spec fn has_id(id: Seq<char>) -> spec_fn(ProfileView) -> bool {
    |p: ProfileView| p.id == id
}

/// Index of the first profile with this id, or -1.
pub open spec fn index_of(ps: Seq<ProfileView>, id: Seq<char>) -> int {
    first_index(ps, has_id(id))
}

/// Some profile other than `except` is called `name`, ignoring ASCII case.
pub open spec fn name_taken(ps: Seq<ProfileView>, name: Seq<char>, except: Option<Seq<char>>) -> bool {
    exists|i: int|
        0 <= i < ps.len() && (except matches Some(x) ==> ps[i].id != x) && eq_ignore_ascii_case(
            #[trigger] ps[i].name,
            name,
        )
}

/// No two profiles share a name, ignoring ASCII case.
pub open spec fn names_distinct(ps: Seq<ProfileView>) -> bool {
    forall|i: int, j: int|
        0 <= i < ps.len() && 0 <= j < ps.len() && i != j ==> !eq_ignore_ascii_case(
            #[trigger] ps[i].name,
            #[trigger] ps[j].name,
        )
}

/// A name is taken only by a profile whose name has the same length and
/// the same characters once lower-cased in ASCII: a longer or shorter name,
/// such as "Music 2" beside "Music", never clashes.
pub proof fn lemma_taken_only_by_same_name_up_to_case(ps: Seq<ProfileView>, name: Seq<char>, except: Option<Seq<char>>)
    ensures
        name_taken(ps, name, except) ==> exists|i: int|
            0 <= i < ps.len() && (#[trigger] ps[i]).name.len() == name.len() && ascii_lowered(ps[i].name)
                == ascii_lowered(name),
        (forall|i: int| 0 <= i < ps.len() ==> (#[trigger] ps[i]).name.len() != name.len()) ==> !name_taken(
            ps,
            name,
            except,
        ),
{
    if name_taken(ps, name, except) {
        let i = choose|i: int|
            0 <= i < ps.len() && (except matches Some(x) ==> ps[i].id != x) && eq_ignore_ascii_case(
                #[trigger] ps[i].name,
                name,
            );
        lemma_eq_ignore_ascii_case_is_lowered_equality(ps[i].name, name);
    }
}

/// The registry can be used: it lists a profile, and `active` names one.
pub open spec fn usable(r: RegistryView) -> bool {
    r.profiles.len() >= 1 && index_of(r.profiles, r.active) >= 0
}

/// A profile with the id is found once one is known to be there.
proof fn lemma_found(ps: Seq<ProfileView>, id: Seq<char>, k: int)
    requires
        0 <= k < ps.len(),
        ps[k].id == id,
    ensures
        index_of(ps, id) >= 0,
{
    lemma_first_index_bounds(ps, has_id(id));
    assert((has_id(id))(ps[k]));
}

impl Registry {
    fn position(&self, id: &str) -> (r: Option<usize>)
        ensures
            match r {
                Some(i) => index_of(self@.profiles, id@) == i && i < self@.profiles.len(),
                None => index_of(self@.profiles, id@) == -1,
            },
    {
        let mut i: usize = 0;
        while i < self.profiles.len()
            invariant
                i <= self.profiles@.len(),
                forall|j: int| 0 <= j < i ==> !(has_id(id@))(#[trigger] self@.profiles[j]),
            decreases self.profiles@.len() - i,
        {
            assert(self@.profiles[i as int] == self.profiles@[i as int]@);
            if str_eq(self.profiles[i].id.as_str(), id) {
                proof {
                    lemma_first_index(self@.profiles, has_id(id@), i as int);
                }
                return Some(i);
            }
            i += 1;
        }
        proof {
            lemma_first_index(self@.profiles, has_id(id@), i as int);
        }
        None
    }

    /// Whether a profile other than `except` is called `name`.
    fn taken(&self, name: &str, except: Option<&str>) -> (r: bool)
        ensures
            r == name_taken(
                self@.profiles,
                name@,
                match except {
                    Some(x) => Some(x@),
                    None => None,
                },
            ),
    {
        let ghost ex = match except {
            Some(x) => Some(x@),
            None => None::<Seq<char>>,
        };
        let mut i: usize = 0;
        while i < self.profiles.len()
            invariant
                i <= self.profiles@.len(),
                ex == match except {
                    Some(x) => Some(x@),
                    None => None,
                },
                forall|j: int|
                    0 <= j < i ==> !((ex matches Some(x) ==> self@.profiles[j].id != x)
                        && eq_ignore_ascii_case(#[trigger] self@.profiles[j].name, name@)),
            decreases self.profiles@.len() - i,
        {
            let p = &self.profiles[i];
            assert(self@.profiles[i as int] == p@);
            let other = match except {
                Some(x) => !str_eq(p.id.as_str(), x),
                None => true,
            };
            if other && eq_ignore_ascii_case_exec(p.name.as_str(), name) {
                assert(self@.profiles[i as int].name == p.name@);
                return true;
            }
            i += 1;
        }
        false
    }

    pub fn get(&self, id: &str) -> (r: Option<&Profile>)
        ensures
            match r {
                Some(p) => index_of(self@.profiles, id@) >= 0 && p@ == self@.profiles[index_of(
                    self@.profiles,
                    id@,
                )],
                None => index_of(self@.profiles, id@) == -1,
            },
    {
        match self.position(id) {
            Some(i) => Some(&self.profiles[i]),
            None => None,
        }
    }

    pub fn active_profile(&self) -> (r: Option<&Profile>)
        ensures
            match r {
                Some(p) => index_of(self@.profiles, self@.active) >= 0 && p@ == self@.profiles[index_of(
                    self@.profiles,
                    self@.active,
                )],
                None => index_of(self@.profiles, self@.active) == -1,
            },
    {
        self.get(self.active.as_str())
    }

    /// Adds a profile called `name` (trimmed) with the given id, coloured by
    /// its position. Names compare case-insensitively and must be unique.
    pub fn create(&mut self, name: &str, id: String, now: i64) -> (r: Result<Profile, ProfileError>)
        ensures
            trim(name@).len() == 0 ==> r == Err::<Profile, ProfileError>(ProfileError::EmptyName),
            trim(name@).len() > 0 && name_taken(old(self)@.profiles, trim(name@), None) ==> (r matches Err(
                ProfileError::Duplicate(n),
            ) && n@ == trim(name@)),
            r is Err ==> final(self)@ == old(self)@,
            trim(name@).len() > 0 && !name_taken(old(self)@.profiles, trim(name@), None) ==> r is Ok,
            r matches Ok(p) ==> {
                &&& p@ == (ProfileView {
                    id: id@,
                    name: trim(name@),
                    color: palette(old(self)@.profiles.len()),
                    last_opened: now,
                })
                &&& final(self)@.profiles == old(self)@.profiles.push(p@)
                &&& final(self)@.active == old(self)@.active
            },
            names_distinct(old(self)@.profiles) ==> names_distinct(final(self)@.profiles),
            usable(old(self)@) ==> usable(final(self)@),
    {
        let new_name = trimmed(name);
        if new_name.as_str().is_empty() {
            return Err(ProfileError::EmptyName);
        }
        if self.taken(new_name.as_str(), None) {
            return Err(ProfileError::Duplicate(new_name));
        }
        let color = color_for(self.profiles.len());
        let p = Profile { id, name: new_name, color, last_opened: now };
        let ghost before = self@.profiles;
        self.profiles.push(p.copy());
        assert(self@.profiles =~= before.push(p@));
        proof {
            if usable(old(self)@) {
                let k = index_of(before, self@.active);
                lemma_first_index_bounds(before, has_id(self@.active));
                lemma_found(self@.profiles, self@.active, k);
            }
            let ps = self@.profiles;
            assert forall|i: int, j: int|
                names_distinct(before) && 0 <= i < ps.len() && 0 <= j < ps.len() && i != j implies !eq_ignore_ascii_case(
                #[trigger] ps[i].name,
                #[trigger] ps[j].name,
            ) by {
                if i == before.len() as int {
                    if eq_ignore_ascii_case(ps[i].name, ps[j].name) {
                        assert(eq_ignore_ascii_case(before[j].name, p@.name));
                    }
                } else if j == before.len() as int {
                    assert(ps[i] == before[i]);
                } else {
                    assert(ps[i] == before[i] && ps[j] == before[j]);
                }
            }
        }
        Ok(p)
    }

    /// Renames profile `id` to `name` (trimmed).
    pub fn rename(&mut self, id: &str, name: &str) -> (r: Result<(), ProfileError>)
        ensures
            trim(name@).len() == 0 ==> r == Err::<(), ProfileError>(ProfileError::EmptyName),
            trim(name@).len() > 0 && name_taken(old(self)@.profiles, trim(name@), Some(id@)) ==> (r matches Err(
                ProfileError::Duplicate(n),
            ) && n@ == trim(name@)),
            trim(name@).len() > 0 && !name_taken(old(self)@.profiles, trim(name@), Some(id@))
                && index_of(old(self)@.profiles, id@) == -1 ==> r == Err::<(), ProfileError>(
                ProfileError::NoSuchProfile,
            ),
            trim(name@).len() > 0 && !name_taken(old(self)@.profiles, trim(name@), Some(id@))
                && index_of(old(self)@.profiles, id@) >= 0 ==> r is Ok,
            r is Err ==> final(self)@ == old(self)@,
            r is Ok ==> {
                let i = index_of(old(self)@.profiles, id@);
                let q = old(self)@.profiles[i];
                &&& trim(name@).len() > 0
                &&& !name_taken(old(self)@.profiles, trim(name@), Some(id@))
                &&& 0 <= i
                &&& final(self)@.profiles == old(self)@.profiles.update(
                    i,
                    ProfileView { name: trim(name@), ..q },
                )
                &&& final(self)@.active == old(self)@.active
            },
            ids_distinct(old(self)@.profiles) && names_distinct(old(self)@.profiles) ==> names_distinct(
                final(self)@.profiles,
            ),
            usable(old(self)@) ==> usable(final(self)@),
    {
        let new_name = trimmed(name);
        if new_name.as_str().is_empty() {
            return Err(ProfileError::EmptyName);
        }
        if self.taken(new_name.as_str(), Some(id)) {
            return Err(ProfileError::Duplicate(new_name));
        }
        let i = match self.position(id) {
            Some(i) => i,
            None => {
                return Err(ProfileError::NoSuchProfile);
            },
        };
        let ghost before = self@.profiles;
        let old_p = &self.profiles[i];
        let p = Profile {
            id: old_p.id.clone(),
            name: new_name,
            color: old_p.color.clone(),
            last_opened: old_p.last_opened,
        };
        self.profiles.set(i, p);
        proof {
            let ps = self@.profiles;
            let q = before[i as int];
            lemma_first_index_bounds(before, has_id(id@));
            assert(ps =~= before.update(i as int, ProfileView { name: trim(name@), ..q }));
            if usable(old(self)@) {
                let k = index_of(before, self@.active);
                lemma_first_index_bounds(before, has_id(self@.active));
                lemma_found(ps, self@.active, k);
            }
            assert forall|a: int, b: int|
                ids_distinct(before) && names_distinct(before) && 0 <= a < ps.len() && 0 <= b < ps.len()
                    && a != b implies !eq_ignore_ascii_case(
                #[trigger] ps[a].name,
                #[trigger] ps[b].name,
            ) by {
                if a == i as int {
                    assert(before[b].id != id@);
                    if eq_ignore_ascii_case(ps[a].name, ps[b].name) {
                        assert(eq_ignore_ascii_case(before[b].name, trim(name@)));
                    }
                } else if b == i as int {
                    assert(before[a].id != id@);
                    if eq_ignore_ascii_case(ps[a].name, ps[b].name) {
                        assert(eq_ignore_ascii_case(before[a].name, trim(name@)));
                    }
                } else {
                    assert(ps[a] == before[a] && ps[b] == before[b]);
                }
            }
        }
        Ok(())
    }

    /// Removes profile `id` and returns the id now active, which falls back
    /// to the first remaining profile when `id` was active. The last profile
    /// cannot be removed.
    pub fn delete(&mut self, id: &str) -> (r: Result<String, ProfileError>)
        ensures
            old(self)@.profiles.len() <= 1 ==> r == Err::<String, ProfileError>(ProfileError::OnlyProfile),
            old(self)@.profiles.len() > 1 && index_of(old(self)@.profiles, id@) == -1 ==> r == Err::<
                String,
                ProfileError,
            >(ProfileError::NoSuchProfile),
            old(self)@.profiles.len() > 1 && index_of(old(self)@.profiles, id@) >= 0 ==> r is Ok,
            r is Err ==> final(self)@ == old(self)@,
            r matches Ok(a) ==> {
                let i = index_of(old(self)@.profiles, id@);
                &&& old(self)@.profiles.len() > 1
                &&& 0 <= i
                &&& final(self)@.profiles == old(self)@.profiles.remove(i)
                &&& final(self)@.active == if old(self)@.active == id@ {
                    final(self)@.profiles[0].id
                } else {
                    old(self)@.active
                }
                &&& a@ == final(self)@.active
                &&& final(self)@.profiles.len() >= 1
            },
            usable(old(self)@) ==> usable(final(self)@),
    {
        if self.profiles.len() <= 1 {
            return Err(ProfileError::OnlyProfile);
        }
        let i = match self.position(id) {
            Some(i) => i,
            None => {
                return Err(ProfileError::NoSuchProfile);
            },
        };
        let ghost before = self@.profiles;
        self.profiles.remove(i);
        assert(self@.profiles =~= before.remove(i as int));
        if str_eq(self.active.as_str(), id) {
            self.active = self.profiles[0].id.clone();
            proof {
                lemma_found(self@.profiles, self@.active, 0);
            }
        } else {
            proof {
                if usable(old(self)@) {
                    let k = index_of(before, self@.active);
                    lemma_first_index_bounds(before, has_id(self@.active));
                    lemma_first_index_bounds(before, has_id(id@));
                    if k < i {
                        assert(self@.profiles[k] == before[k]);
                        lemma_found(self@.profiles, self@.active, k);
                    } else {
                        assert(k != i);
                        assert(self@.profiles[k - 1] == before[k]);
                        lemma_found(self@.profiles, self@.active, k - 1);
                    }
                }
            }
        }
        Ok(self.active.clone())
    }

    /// Makes profile `id` the active one and stamps it as opened at `now`.
    pub fn switch(&mut self, id: &str, now: i64) -> (r: Result<(), ProfileError>)
        ensures
            index_of(old(self)@.profiles, id@) == -1 ==> r == Err::<(), ProfileError>(
                ProfileError::NoSuchProfile,
            ) && final(self)@ == old(self)@,
            index_of(old(self)@.profiles, id@) >= 0 ==> {
                let i = index_of(old(self)@.profiles, id@);
                let q = old(self)@.profiles[i];
                &&& r is Ok
                &&& final(self)@.active == id@
                &&& final(self)@.profiles == old(self)@.profiles.update(
                    i,
                    ProfileView { last_opened: now, ..q },
                )
            },
            usable(old(self)@) ==> usable(final(self)@),
    {
        let i = match self.position(id) {
            Some(i) => i,
            None => {
                return Err(ProfileError::NoSuchProfile);
            },
        };
        let ghost before = self@.profiles;
        self.active = String::from_str(id);
        let old_p = &self.profiles[i];
        let p = Profile {
            id: old_p.id.clone(),
            name: old_p.name.clone(),
            color: old_p.color.clone(),
            last_opened: now,
        };
        self.profiles.set(i, p);
        assert(self@.profiles =~= before.update(
            i as int,
            ProfileView { last_opened: now, ..before[i as int] },
        ));
        proof {
            lemma_first_index_bounds(before, has_id(id@));
            lemma_found(self@.profiles, self@.active, i as int);
        }
        Ok(())
    }

    /// Puts the registry in a usable state: profiles without an id are
    /// dropped; if none remains, a "Default" profile with the given id is
    /// created and made active; an active id naming no profile falls back
    /// to the first profile.
    pub fn init_registry(&mut self, id: String, now: i64) -> (r: InitSteps)
        ensures
            ({
                let kept = with_ids(old(self)@.profiles);
                if kept.len() == 0 {
                    &&& r.created && !r.repaired
                    &&& final(self)@.profiles == seq![
                        ProfileView {
                            id: id@,
                            name: "Default"@,
                            color: palette(0),
                            last_opened: now,
                        },
                    ]
                    &&& final(self)@.active == id@
                } else {
                    &&& !r.created
                    &&& final(self)@.profiles == kept
                    &&& r.repaired == (index_of(kept, old(self)@.active) == -1)
                    &&& final(self)@.active == if r.repaired {
                        kept[0].id
                    } else {
                        old(self)@.active
                    }
                }
            }),
            usable(final(self)@),
    {
        let ghost before = self@.profiles;
        let mut kept: Vec<Profile> = Vec::new();
        let mut i: usize = 0;
        assert(before.take(0) =~= Seq::<ProfileView>::empty());
        while i < self.profiles.len()
            invariant
                before == self@.profiles,
                i <= self.profiles@.len(),
                kept@.map_values(|p: Profile| p@) == with_ids(before.take(i as int)),
            decreases self.profiles@.len() - i,
        {
            let p = &self.profiles[i];
            assert(before.take(i + 1).drop_last() =~= before.take(i as int));
            assert(before.take(i + 1).last() == p@);
            let ghost k0 = kept@;
            if !p.id.as_str().is_empty() {
                kept.push(p.copy());
                assert(kept@.map_values(|p: Profile| p@) =~= k0.map_values(|p: Profile| p@).push(p@));
            }
            i += 1;
        }
        assert(before.take(before.len() as int) =~= before);
        self.profiles = kept;
        if self.profiles.len() == 0 {
            self.active = id.clone();
            let made = self.create("Default", id, now);
            proof {
                reveal_strlit("Default");
                assert(trim("Default"@) =~= "Default"@) by {
                    reveal_with_fuel(crate::text::trim_start, 2);
                    reveal_with_fuel(crate::text::trim_end, 2);
                }
                assert(!name_taken(Seq::<ProfileView>::empty(), "Default"@, None));
            }
            assert(self@.profiles =~= seq![
                ProfileView { id: id@, name: "Default"@, color: palette(0), last_opened: now },
            ]);
            proof {
                lemma_first_index(self@.profiles, has_id(self@.active), 0);
            }
            return InitSteps { created: true, repaired: false };
        }
        let repaired = match self.position(self.active.as_str()) {
            Some(_) => false,
            None => {
                self.active = self.profiles[0].id.clone();
                true
            },
        };
        proof {
            if repaired {
                lemma_first_index(self@.profiles, has_id(self@.active), 0);
            }
        }
        InitSteps { created: false, repaired }
    }
}

/// No two profiles share an id.
pub open spec fn ids_distinct(ps: Seq<ProfileView>) -> bool {
    forall|i: int, j: int| 0 <= i < ps.len() && 0 <= j < ps.len() && i != j ==> #[trigger] ps[i].id != #[trigger] ps[j].id
}

/// The profiles that have an id, in order.
pub open spec fn with_ids(ps: Seq<ProfileView>) -> Seq<ProfileView>
    decreases ps.len(),
{
    if ps.len() == 0 {
        ps
    } else if ps.last().id.len() > 0 {
        with_ids(ps.drop_last()).push(ps.last())
    } else {
        with_ids(ps.drop_last())
    }
}

/// What `init_registry` had to do, so that the caller knows what to save.
pub struct InitSteps {
    /// A default profile was created because none was usable.
    pub created: bool,
    /// The active id named no profile and was reset to the first one.
    pub repaired: bool,
}

} // verus!
