use vstd::prelude::*;

verus! {

/// Spec-level image of a [`ProfileInfo`]: every field as a sequence of characters.
pub ghost struct ProfileInfoV {
    pub profile_name: Seq<char>,
    pub sso_start_url: Seq<char>,
    pub sso_region: Seq<char>,
    pub sso_account_id: Seq<char>,
    pub sso_role_name: Seq<char>,
    pub session_name: Seq<char>,
}

/// Metadata of one registered AWS SSO profile. A record is immutable once
/// created; updates replace it wholesale.
#[derive(Clone, Debug, PartialEq, Eq)]
pub struct ProfileInfo {
    pub profile_name: String,
    pub sso_start_url: String,
    pub sso_region: String,
    pub sso_account_id: String,
    pub sso_role_name: String,
    pub session_name: String,
}

impl View for ProfileInfo {
    type V = ProfileInfoV;

    open spec fn view(&self) -> ProfileInfoV {
        ProfileInfoV {
            profile_name: self.profile_name@,
            sso_start_url: self.sso_start_url@,
            sso_region: self.sso_region@,
            sso_account_id: self.sso_account_id@,
            sso_role_name: self.sso_role_name@,
            session_name: self.session_name@,
        }
    }
}

impl DeepView for ProfileInfo {
    type V = ProfileInfoV;

    open spec fn deep_view(&self) -> ProfileInfoV {
        self.view()
    }
}

/// Folds an association sequence into a map; a later binding for a key wins.
pub open spec fn pairs_to_map(s: Seq<(Seq<char>, ProfileInfoV)>) -> Map<Seq<char>, ProfileInfoV>
    decreases s.len(),
{
    if s.len() == 0 {
        Map::empty()
    } else {
        pairs_to_map(s.drop_last()).insert(s.last().0, s.last().1)
    }
}

/// No two entries of `s` bind the same nickname.
pub open spec fn unique_keys(s: Seq<(Seq<char>, ProfileInfoV)>) -> bool {
    forall|i: int, j: int| 0 <= i < j < s.len() ==> s[i].0 != s[j].0
}

proof fn lemma_pairs_to_map_contains(s: Seq<(Seq<char>, ProfileInfoV)>, k: Seq<char>)
    ensures
        pairs_to_map(s).contains_key(k) <==> (exists|i: int| 0 <= i < s.len() && s[i].0 == k),
    decreases s.len(),
{
    if s.len() > 0 {
        lemma_pairs_to_map_contains(s.drop_last(), k);
        if s.last().0 != k && pairs_to_map(s).contains_key(k) {
            let i = choose|i: int| 0 <= i < s.drop_last().len() && s.drop_last()[i].0 == k;
            assert(s[i].0 == k);
        }
        if exists|i: int| 0 <= i < s.len() && s[i].0 == k {
            let i = choose|i: int| 0 <= i < s.len() && s[i].0 == k;
            if i < s.len() - 1 {
                assert(s.drop_last()[i].0 == k);
            }
        }
    }
}

proof fn lemma_pairs_to_map_index(s: Seq<(Seq<char>, ProfileInfoV)>, i: int)
    requires
        unique_keys(s),
        0 <= i < s.len(),
    ensures
        pairs_to_map(s).contains_key(s[i].0),
        pairs_to_map(s)[s[i].0] == s[i].1,
    decreases s.len(),
{
    if i == s.len() - 1 {
    } else {
        lemma_pairs_to_map_index(s.drop_last(), i);
        assert(s.drop_last()[i] == s[i]);
    }
}

pub proof fn lemma_pairs_to_map_push(s: Seq<(Seq<char>, ProfileInfoV)>, k: Seq<char>, v: ProfileInfoV)
    ensures
        pairs_to_map(s.push((k, v))) == pairs_to_map(s).insert(k, v),
{
    assert(s.push((k, v)).drop_last() =~= s);
    assert(s.push((k, v)).last() == (k, v));
}

proof fn lemma_pairs_to_map_remove_at(s: Seq<(Seq<char>, ProfileInfoV)>, i: int)
    requires
        unique_keys(s),
        0 <= i < s.len(),
    ensures
        pairs_to_map(s.remove(i)) =~= pairs_to_map(s).remove(s[i].0),
    decreases s.len(),
{
    lemma_pairs_to_map_contains(s.drop_last(), s[i].0);
    if i == s.len() - 1 {
        assert(s.remove(i) =~= s.drop_last());
        assert(forall|j: int|
            0 <= j < s.drop_last().len() ==> #[trigger] s.drop_last()[j].0 == s[j].0);
        assert(!pairs_to_map(s.drop_last()).contains_key(s[i].0));
        assert(pairs_to_map(s.drop_last()).insert(s[i].0, s[i].1).remove(s[i].0) =~= pairs_to_map(
            s.drop_last(),
        ));
    } else {
        lemma_pairs_to_map_remove_at(s.drop_last(), i);
        assert(s.remove(i).drop_last() =~= s.drop_last().remove(i));
        assert(s.remove(i).last() == s.last());
    }
}

/// A mapping from nickname to profile metadata, backed by a vector whose
/// entries carry pairwise distinct nicknames.
#[derive(Debug, PartialEq, Eq)]
pub struct ProfileMap {
    pub entries: Vec<(String, ProfileInfo)>,
}

impl View for ProfileMap {
    type V = Map<Seq<char>, ProfileInfoV>;

    open spec fn view(&self) -> Map<Seq<char>, ProfileInfoV> {
        pairs_to_map(self.entries_view())
    }
}

impl ProfileMap {
    /// The entries in insertion order, as spec values.
    pub open spec fn entries_view(&self) -> Seq<(Seq<char>, ProfileInfoV)> {
        self.entries@.map(|i: int, e: (String, ProfileInfo)| (e.0@, e.1@))
    }

    /// Well-formed: no nickname occurs twice.
    pub open spec fn wf(&self) -> bool {
        unique_keys(self.entries_view())
    }

    pub open spec fn spec_len(&self) -> nat {
        self.entries_view().len()
    }

    pub fn new() -> (r: Self)
        ensures
            r.wf(),
            r@ == Map::<Seq<char>, ProfileInfoV>::empty(),
            r.spec_len() == 0,
    {
        ProfileMap { entries: Vec::new() }
    }

    pub fn len(&self) -> (r: usize)
        ensures
            r == self.spec_len(),
    {
        self.entries.len()
    }

    pub fn is_empty(&self) -> (r: bool)
        ensures
            r <==> self@ == Map::<Seq<char>, ProfileInfoV>::empty(),
            r <==> self.spec_len() == 0,
    {
        proof {
            if self.entries_view().len() > 0 {
                lemma_pairs_to_map_contains(self.entries_view(), self.entries_view().last().0);
            } else {
                assert(self@ =~= Map::<Seq<char>, ProfileInfoV>::empty());
            }
        }
        self.entries.len() == 0
    }

    fn find(&self, name: &str) -> (r: Option<usize>)
        ensures
            match r {
                Some(i) => i < self.spec_len() && self.entries_view()[i as int].0 == name@,
                None => forall|i: int|
                    0 <= i < self.spec_len() ==> self.entries_view()[i].0 != name@,
            },
    {
        let key: String = name.to_owned();
        let mut i: usize = 0;
        while i < self.entries.len()
            invariant
                i <= self.entries.len(),
                key@ == name@,
                forall|j: int| 0 <= j < i ==> self.entries_view()[j].0 != name@,
            decreases self.entries.len() - i,
        {
            if self.entries[i].0 == key {
                return Some(i);
            }
            i = i + 1;
        }
        None
    }

    /// Looks a nickname up.
    pub fn get(&self, name: &str) -> (r: Option<&ProfileInfo>)
        requires
            self.wf(),
        ensures
            match r {
                Some(p) => self@.contains_key(name@) && p@ == self@[name@],
                None => !self@.contains_key(name@),
            },
    {
        proof {
            lemma_pairs_to_map_contains(self.entries_view(), name@);
        }
        match self.find(name) {
            Some(i) => {
                proof {
                    lemma_pairs_to_map_index(self.entries_view(), i as int);
                }
                Some(&self.entries[i].1)
            },
            None => None,
        }
    }

    /// Whether a nickname is registered.
    pub fn contains_key(&self, name: &str) -> (r: bool)
        requires
            self.wf(),
        ensures
            r == self@.contains_key(name@),
    {
        self.get(name).is_some()
    }

    /// Binds `name` to `info`, replacing any earlier binding.
    pub fn insert(&mut self, name: String, info: ProfileInfo)
        requires
            old(self).wf(),
        ensures
            final(self).wf(),
            final(self)@ == old(self)@.insert(name@, info@),
    {
        self.remove(name.as_str());
        let ghost s = self.entries_view();
        self.entries.push((name, info));
        proof {
            lemma_pairs_to_map_contains(s, name@);
            assert(forall|j: int| 0 <= j < s.len() ==> s[j].0 != name@);
            assert(self.entries_view() =~= s.push((name@, info@)));
            lemma_pairs_to_map_push(s, name@, info@);
            assert(pairs_to_map(s).insert(name@, info@) =~= old(self)@.insert(name@, info@));
        }
    }

    /// Drops the binding for `name`, returning the profile it held.
    pub fn remove(&mut self, name: &str) -> (r: Option<ProfileInfo>)
        requires
            old(self).wf(),
        ensures
            final(self).wf(),
            final(self)@ == old(self)@.remove(name@),
            match r {
                Some(p) => old(self)@.contains_key(name@) && p@ == old(self)@[name@],
                None => !old(self)@.contains_key(name@) && *final(self) == *old(self),
            },
    {
        proof {
            lemma_pairs_to_map_contains(self.entries_view(), name@);
        }
        match self.find(name) {
            Some(i) => {
                proof {
                    lemma_pairs_to_map_index(self.entries_view(), i as int);
                    lemma_pairs_to_map_remove_at(self.entries_view(), i as int);
                }
                let ghost s = self.entries_view();
                let (_, info) = self.entries.remove(i);
                proof {
                    assert(self.entries_view() =~= s.remove(i as int));
                }
                Some(info)
            },
            None => {
                proof {
                    assert(old(self)@.remove(name@) =~= old(self)@);
                }
                None
            },
        }
    }

    /// The entries as borrowed pairs, in insertion order.
    pub fn list(&self) -> (r: Vec<(&String, &ProfileInfo)>)
        ensures
            r@.len() == self.spec_len(),
            forall|i: int|
                0 <= i < r@.len() ==> (#[trigger] r@[i].0)@ == self.entries_view()[i].0
                    && r@[i].1@ == self.entries_view()[i].1,
    {
        let mut out: Vec<(&String, &ProfileInfo)> = Vec::new();
        let mut i: usize = 0;
        while i < self.entries.len()
            invariant
                i <= self.entries.len(),
                out@.len() == i,
                forall|j: int|
                    0 <= j < i ==> (#[trigger] out@[j].0)@ == self.entries_view()[j].0
                        && out@[j].1@ == self.entries_view()[j].1,
            decreases self.entries.len() - i,
        {
            let pair = &self.entries[i];
            out.push((&pair.0, &pair.1));
            i = i + 1;
        }
        out
    }
}

/// Spec-level image of the whole registry.
pub ghost struct RegistryV {
    pub profiles: Map<Seq<char>, ProfileInfoV>,
    pub current_profile: Option<Seq<char>>,
}

/// The registry: nickname-to-profile mapping plus the pointer to the profile
/// whose sub-shell session, if any, is active.
#[derive(Debug, PartialEq, Eq)]
pub struct KeeConfig {
    pub profiles: ProfileMap,
    pub current_profile: Option<String>,
}

impl View for KeeConfig {
    type V = RegistryV;

    open spec fn view(&self) -> RegistryV {
        RegistryV { profiles: self.profiles@, current_profile: self.current_profile.deep_view() }
    }
}

/// What adding a profile does to the registry: the binding is inserted and the
/// current pointer is kept.
pub open spec fn spec_add_profile(r: RegistryV, name: Seq<char>, info: ProfileInfoV) -> RegistryV {
    RegistryV { profiles: r.profiles.insert(name, info), current_profile: r.current_profile }
}

/// What removing a profile does to the registry: the binding goes away, and
/// the current pointer is cleared exactly when it named the removed profile.
pub open spec fn spec_remove_profile(r: RegistryV, name: Seq<char>) -> RegistryV {
    RegistryV {
        profiles: r.profiles.remove(name),
        current_profile: if r.current_profile == Some(name) {
            None
        } else {
            r.current_profile
        },
    }
}

impl KeeConfig {
    pub open spec fn wf(&self) -> bool {
        self.profiles.wf()
    }

    pub open spec fn spec_empty(r: RegistryV) -> bool {
        r.profiles == Map::<Seq<char>, ProfileInfoV>::empty() && r.current_profile is None
    }

    pub fn new() -> (r: Self)
        ensures
            r.wf(),
            Self::spec_empty(r@),
    {
        KeeConfig { profiles: ProfileMap::new(), current_profile: None }
    }

    /// Registers `info` under `name`, replacing any earlier binding.
    pub fn add_profile(&mut self, name: String, info: ProfileInfo)
        requires
            old(self).wf(),
        ensures
            final(self).wf(),
            final(self)@ == spec_add_profile(old(self)@, name@, info@),
    {
        self.profiles.insert(name, info);
    }

    /// Unregisters `name`; clears the current pointer when it named `name`.
    /// Returns the profile that was bound, or none when `name` was unknown.
    pub fn remove_profile(&mut self, name: &str) -> (r: Option<ProfileInfo>)
        requires
            old(self).wf(),
        ensures
            final(self).wf(),
            final(self)@ == spec_remove_profile(old(self)@, name@),
            match r {
                Some(p) => old(self)@.profiles.contains_key(name@) && p@ == old(
                    self,
                )@.profiles[name@],
                None => !old(self)@.profiles.contains_key(name@),
            },
    {
        let removed = self.profiles.remove(name);
        let clear = match &self.current_profile {
            Some(cur) => {
                let key: String = name.to_owned();
                *cur == key
            },
            None => false,
        };
        if clear {
            self.current_profile = None;
        }
        proof {
            assert(old(self).current_profile.deep_view() == Some(name@) ==> clear);
            assert(clear ==> old(self).current_profile.deep_view() == Some(name@));
        }
        removed
    }

    /// Looks a nickname up.
    pub fn get_profile(&self, name: &str) -> (r: Option<&ProfileInfo>)
        requires
            self.wf(),
        ensures
            match r {
                Some(p) => self@.profiles.contains_key(name@) && p@ == self@.profiles[name@],
                None => !self@.profiles.contains_key(name@),
            },
    {
        self.profiles.get(name)
    }

    /// Every registered (nickname, profile) pair, in insertion order.
    pub fn list_profiles(&self) -> (r: Vec<(&String, &ProfileInfo)>)
        ensures
            r@.len() == self.profiles.spec_len(),
            forall|i: int|
                0 <= i < r@.len() ==> (#[trigger] r@[i].0)@ == self.profiles.entries_view()[i].0
                    && r@[i].1@ == self.profiles.entries_view()[i].1,
    {
        self.profiles.list()
    }

    /// Sets or clears the current pointer.
    pub fn set_current_profile(&mut self, name: Option<String>)
        ensures
            final(self).wf() == old(self).wf(),
            final(self)@.profiles == old(self)@.profiles,
            final(self)@.current_profile == name.deep_view(),
    {
        self.current_profile = name;
    }

    /// Whether no profile is registered.
    pub fn is_empty(&self) -> (r: bool)
        ensures
            r <==> self@.profiles == Map::<Seq<char>, ProfileInfoV>::empty(),
    {
        self.profiles.is_empty()
    }
}

impl Default for KeeConfig {
    fn default() -> (r: Self)
        ensures
            r.wf(),
            KeeConfig::spec_empty(r@),
    {
        KeeConfig::new()
    }
}

/// Law: a nickname inserted and then removed is no longer bound, and when the
/// current pointer named that nickname the removal clears it.
pub proof fn lemma_remove_after_add(r: RegistryV, name: Seq<char>, info: ProfileInfoV)
    ensures
        !spec_remove_profile(spec_add_profile(r, name, info), name).profiles.contains_key(name),
        spec_add_profile(r, name, info).current_profile == Some(name)
            ==> spec_remove_profile(spec_add_profile(r, name, info), name).current_profile is None,
{
}

} // verus!
