use vstd::prelude::*;

use crate::registry::{ProfileInfo, ProfileInfoV};
use crate::text::{find_char_or, has_char, is_ini_space, lemma_find_char_or, lemma_find_char_or_is, trim, trim_start};

verus! {

/// One `key = value` binding of an INI section; a key may stand alone, with
/// no value.
pub struct IniPair {
    pub key: String,
    pub value: Option<String>,
}

impl View for IniPair {
    type V = (Seq<char>, Option<Seq<char>>);

    open spec fn view(&self) -> (Seq<char>, Option<Seq<char>>) {
        (self.key@, self.value.deep_view())
    }
}

impl DeepView for IniPair {
    type V = (Seq<char>, Option<Seq<char>>);

    open spec fn deep_view(&self) -> (Seq<char>, Option<Seq<char>>) {
        self.view()
    }
}

/// Spec-level image of an INI section.
#[verifier::ext_equal]
pub ghost struct IniSectionV {
    pub name: Seq<char>,
    pub pairs: Seq<(Seq<char>, Option<Seq<char>>)>,
}

/// A named INI section and its bindings, in file order.
pub struct IniSection {
    pub name: String,
    pub pairs: Vec<IniPair>,
}

impl View for IniSection {
    type V = IniSectionV;

    open spec fn view(&self) -> IniSectionV {
        IniSectionV { name: self.name@, pairs: self.pairs.deep_view() }
    }
}

impl DeepView for IniSection {
    type V = IniSectionV;

    open spec fn deep_view(&self) -> IniSectionV {
        self.view()
    }
}

/// Index of the first section of `m` named `name`, or `m.len()` when absent.
pub open spec fn sec_index(m: Seq<IniSectionV>, name: Seq<char>) -> int
    decreases m.len(),
{
    if m.len() == 0 {
        0
    } else if m[0].name == name {
        0
    } else {
        1 + sec_index(m.drop_first(), name)
    }
}

pub proof fn lemma_sec_index(m: Seq<IniSectionV>, name: Seq<char>)
    ensures
        0 <= sec_index(m, name) <= m.len(),
        sec_index(m, name) < m.len() ==> m[sec_index(m, name)].name == name,
        forall|j: int| 0 <= j < sec_index(m, name) ==> m[j].name != name,
    decreases m.len(),
{
    if m.len() > 0 && m[0].name != name {
        lemma_sec_index(m.drop_first(), name);
        assert(forall|j: int| 1 <= j < m.len() ==> m[j] == m.drop_first()[j - 1]);
    }
}

pub proof fn lemma_sec_index_is(m: Seq<IniSectionV>, name: Seq<char>, i: int)
    requires
        0 <= i <= m.len(),
        forall|j: int| 0 <= j < i ==> m[j].name != name,
        i < m.len() ==> m[i].name == name,
    ensures
        sec_index(m, name) == i,
    decreases m.len(),
{
    if m.len() > 0 && m[0].name != name {
        assert(forall|j: int| 0 <= j < i - 1 ==> m.drop_first()[j].name != name);
        lemma_sec_index_is(m.drop_first(), name, i - 1);
    }
}

/// Index of the first binding of `ps` whose key is `key`, or `ps.len()`.
pub open spec fn key_index(ps: Seq<(Seq<char>, Option<Seq<char>>)>, key: Seq<char>) -> int
    decreases ps.len(),
{
    if ps.len() == 0 {
        0
    } else if ps[0].0 == key {
        0
    } else {
        1 + key_index(ps.drop_first(), key)
    }
}

pub proof fn lemma_key_index(ps: Seq<(Seq<char>, Option<Seq<char>>)>, key: Seq<char>)
    ensures
        0 <= key_index(ps, key) <= ps.len(),
        key_index(ps, key) < ps.len() ==> ps[key_index(ps, key)].0 == key,
        forall|j: int| 0 <= j < key_index(ps, key) ==> ps[j].0 != key,
    decreases ps.len(),
{
    if ps.len() > 0 && ps[0].0 != key {
        lemma_key_index(ps.drop_first(), key);
        assert(forall|j: int| 1 <= j < ps.len() ==> ps[j] == ps.drop_first()[j - 1]);
    }
}

pub proof fn lemma_key_index_is(ps: Seq<(Seq<char>, Option<Seq<char>>)>, key: Seq<char>, i: int)
    requires
        0 <= i <= ps.len(),
        forall|j: int| 0 <= j < i ==> ps[j].0 != key,
        i < ps.len() ==> ps[i].0 == key,
    ensures
        key_index(ps, key) == i,
    decreases ps.len(),
{
    if ps.len() > 0 && ps[0].0 != key {
        assert(forall|j: int| 0 <= j < i - 1 ==> ps.drop_first()[j].0 != key);
        lemma_key_index_is(ps.drop_first(), key, i - 1);
    }
}

/// The binding of `key` in `sec`: absent, present without a value, or present
/// with one.
pub open spec fn sec_get(sec: IniSectionV, key: Seq<char>) -> Option<Option<Seq<char>>> {
    let i = key_index(sec.pairs, key);
    if i < sec.pairs.len() {
        Some(sec.pairs[i].1)
    } else {
        None
    }
}

/// The value of `key` in `sec`, or the empty string when the key is absent or
/// carries no value.
pub open spec fn sec_get_str(sec: IniSectionV, key: Seq<char>) -> Seq<char> {
    match sec_get(sec, key) {
        Some(Some(v)) => v,
        _ => Seq::empty(),
    }
}

/// No two bindings of one section share a key.
pub open spec fn unique_pair_keys(ps: Seq<(Seq<char>, Option<Seq<char>>)>) -> bool {
    forall|i: int, j: int| 0 <= i < j < ps.len() ==> ps[i].0 != ps[j].0
}

/// Well-formed INI model: section names pairwise distinct, keys distinct
/// within each section.
pub open spec fn wf_ini(m: Seq<IniSectionV>) -> bool {
    &&& forall|i: int, j: int| 0 <= i < j < m.len() ==> m[i].name != m[j].name
    &&& forall|i: int| 0 <= i < m.len() ==> unique_pair_keys(#[trigger] m[i].pairs)
}

/// Dropping a section by name: the first section so named goes away; absent
/// names leave the model as it is.
pub open spec fn spec_remove_section(m: Seq<IniSectionV>, name: Seq<char>) -> Seq<IniSectionV> {
    let i = sec_index(m, name);
    if i < m.len() {
        m.remove(i)
    } else {
        m
    }
}

/// Where a profile's start URL and region come from: the referenced
/// `sso-session` section when `session` is non-empty (missing section: empty
/// strings), the profile section itself otherwise.
pub open spec fn resolved_sso_source(
    m: Seq<IniSectionV>,
    sec: IniSectionV,
    session: Seq<char>,
) -> (Seq<char>, Seq<char>) {
    if session.len() > 0 {
        let si = sec_index(m, "sso-session "@ + session);
        if si < m.len() {
            (sec_get_str(m[si], "sso_start_url"@), sec_get_str(m[si], "sso_region"@))
        } else {
            (Seq::empty(), Seq::empty())
        }
    } else {
        (sec_get_str(sec, "sso_start_url"@), sec_get_str(sec, "sso_region"@))
    }
}

/// Whether `sec` binds `key` to a non-empty value.
pub open spec fn sec_has_nonempty(sec: IniSectionV, key: Seq<char>) -> bool {
    sec_get(sec, key) matches Some(Some(v)) && v.len() > 0
}

/// What reading a profile from the AWS config yields: the section
/// `profile <nickname>` must exist and bind `sso_account_id` and
/// `sso_role_name` to non-empty values — a valid profile always carries
/// both — else there is no profile at all; start URL and region come from
/// the `sso-session` section that `sso_session` names, when it does, and
/// from the profile section itself in the legacy layout.
pub open spec fn spec_read_profile(m: Seq<IniSectionV>, nickname: Seq<char>) -> Option<
    ProfileInfoV,
> {
    let si = sec_index(m, "profile "@ + nickname);
    if si < m.len() {
        let sec = m[si];
        if sec_has_nonempty(sec, "sso_account_id"@) && sec_has_nonempty(sec, "sso_role_name"@) {
            let account = sec_get(sec, "sso_account_id"@)->Some_0->Some_0;
            let role = sec_get(sec, "sso_role_name"@)->Some_0->Some_0;
            let session = match sec_get(sec, "sso_session"@) {
                Some(Some(t)) => t,
                _ => Seq::empty(),
            };
            let source = resolved_sso_source(m, sec, session);
            Some(
                ProfileInfoV {
                    profile_name: nickname,
                    sso_start_url: source.0,
                    sso_region: source.1,
                    sso_account_id: account,
                    sso_role_name: role,
                    session_name: session,
                },
            )
        } else {
            None
        }
    } else {
        None
    }
}

/// One rendered binding: `key = value` and a newline, or nothing when the
/// binding has no value.
pub open spec fn render_pair(p: (Seq<char>, Option<Seq<char>>)) -> Seq<char> {
    match p.1 {
        Some(v) => p.0 + seq![' ', '=', ' '] + v + seq!['\n'],
        None => Seq::empty(),
    }
}

pub open spec fn render_pairs(ps: Seq<(Seq<char>, Option<Seq<char>>)>) -> Seq<char>
    decreases ps.len(),
{
    if ps.len() == 0 {
        Seq::empty()
    } else {
        render_pair(ps[0]) + render_pairs(ps.drop_first())
    }
}

/// One rendered section: `[name]`, the valued bindings, a blank line.
pub open spec fn render_section(sec: IniSectionV) -> Seq<char> {
    seq!['['] + sec.name + seq![']', '\n'] + render_pairs(sec.pairs) + seq!['\n']
}

pub open spec fn render_ini(m: Seq<IniSectionV>) -> Seq<char>
    decreases m.len(),
{
    if m.len() == 0 {
        Seq::empty()
    } else {
        render_section(m[0]) + render_ini(m.drop_first())
    }
}

/// The AWS config file, parsed: the sections in file order. The store only
/// ever reads specific keys and removes whole sections; rewriting the file
/// renders every section the parser produced.
pub struct AwsManager {
    pub sections: Vec<IniSection>,
}

impl View for AwsManager {
    type V = Seq<IniSectionV>;

    open spec fn view(&self) -> Seq<IniSectionV> {
        self.sections.deep_view()
    }
}

impl AwsManager {
    pub open spec fn wf(&self) -> bool {
        wf_ini(self@)
    }

    /// The empty config, as an absent file reads.
    pub fn new() -> (r: Self)
        ensures
            r@ == Seq::<IniSectionV>::empty(),
            r.wf(),
    {
        let r = AwsManager { sections: Vec::new() };
        proof {
            assert(r@ =~= Seq::<IniSectionV>::empty());
        }
        r
    }

    /// Index of the section named `name`, if any.
    fn find_section(&self, name: &str) -> (r: Option<usize>)
        ensures
            match r {
                Some(i) => i == sec_index(self@, name@) && i < self@.len(),
                None => sec_index(self@, name@) == self@.len(),
            },
    {
        let key: String = name.to_owned();
        let mut i: usize = 0;
        while i < self.sections.len()
            invariant
                i <= self.sections.len(),
                key@ == name@,
                self@.len() == self.sections.len(),
                forall|j: int| 0 <= j < i ==> self@[j].name != name@,
            decreases self.sections.len() - i,
        {
            if self.sections[i].name == key {
                proof {
                    lemma_sec_index_is(self@, name@, i as int);
                }
                return Some(i);
            }
            i = i + 1;
        }
        proof {
            lemma_sec_index_is(self@, name@, self@.len() as int);
        }
        None
    }

    /// Drops the section named `name` if it is present; absent names are no
    /// error.
    pub fn remove_section(&mut self, name: &str)
        ensures
            final(self)@ == spec_remove_section(old(self)@, name@),
            old(self).wf() ==> final(self).wf(),
    {
        proof {
            lemma_sec_index(self@, name@);
        }
        match self.find_section(name) {
            Some(i) => {
                self.sections.remove(i);
                proof {
                    assert(self@ =~= old(self)@.remove(sec_index(old(self)@, name@)));
                    if old(self).wf() {
                        let m0 = old(self)@;
                        let m1 = self@;
                        let k = sec_index(m0, name@);
                        assert(forall|a: int|
                            0 <= a < m1.len() ==> #[trigger] m1[a] == (if a < k {
                                m0[a]
                            } else {
                                m0[a + 1]
                            }));
                    }
                }
            },
            None => {
                proof {
                    assert(self@ == spec_remove_section(self@, name@));
                }
            },
        }
    }

    /// Drops the `profile <profile_name>` section, as removing a registered
    /// profile asks.
    pub fn remove_profile(&mut self, profile_name: &str)
        ensures
            final(self)@ == spec_remove_section(old(self)@, "profile "@ + profile_name@),
            old(self).wf() ==> final(self).wf(),
    {
        let section_name = crate::text::concat_strs("profile ", profile_name);
        self.remove_section(section_name.as_str());
    }

    /// Index of the binding of `key` in section `i`, if any.
    fn find_key(&self, i: usize, key: &str) -> (r: Option<usize>)
        requires
            i < self@.len(),
        ensures
            match r {
                Some(j) => j == key_index(self@[i as int].pairs, key@) && j < self@[
                    i as int].pairs.len(),
                None => key_index(self@[i as int].pairs, key@) == self@[i as int].pairs.len(),
            },
    {
        let sec = &self.sections[i];
        let needle: String = key.to_owned();
        let ghost ps = self@[i as int].pairs;
        let mut j: usize = 0;
        while j < sec.pairs.len()
            invariant
                j <= sec.pairs.len(),
                needle@ == key@,
                i < self@.len(),
                ps == self@[i as int].pairs,
                ps == sec.pairs.deep_view(),
                ps.len() == sec.pairs.len(),
                forall|t: int| 0 <= t < j ==> ps[t].0 != key@,
            decreases sec.pairs.len() - j,
        {
            proof {
                assert(ps[j as int] == sec.pairs[j as int].deep_view());
            }
            if sec.pairs[j].key == needle {
                proof {
                    lemma_key_index_is(ps, key@, j as int);
                }
                return Some(j);
            }
            j = j + 1;
        }
        proof {
            lemma_key_index_is(ps, key@, ps.len() as int);
        }
        None
    }

    /// The value of `key` in section `i`, or the empty string when the key is
    /// absent or carries no value.
    fn get_value(&self, i: usize, key: &str) -> (r: String)
        requires
            i < self@.len(),
        ensures
            r@ == sec_get_str(self@[i as int], key@),
    {
        match self.find_key(i, key) {
            Some(j) => {
                proof {
                    assert(self@[i as int].pairs[j as int] == self.sections[i as int].pairs[
                        j as int].deep_view());
                }
                match &self.sections[i].pairs[j].value {
                    Some(v) => v.clone(),
                    None => String::new(),
                }
            },
            None => String::new(),
        }
    }

    /// The valued binding of `key` in section `i`, or none when the key is
    /// absent or carries no value.
    fn get_required(&self, i: usize, key: &str) -> (r: Option<String>)
        requires
            i < self@.len(),
        ensures
            match r {
                Some(v) => sec_get(self@[i as int], key@) == Some(Some(v@)),
                None => !(sec_get(self@[i as int], key@) matches Some(Some(_))),
            },
    {
        match self.find_key(i, key) {
            Some(j) => {
                proof {
                    assert(self@[i as int].pairs[j as int] == self.sections[i as int].pairs[
                        j as int].deep_view());
                }
                match &self.sections[i].pairs[j].value {
                    Some(v) => Some(v.clone()),
                    None => None,
                }
            },
            None => None,
        }
    }

    /// Reads the profile registered under `nickname` from the parsed AWS
    /// config, resolving the SSO session reference when one is set.
    pub fn read_profile(&self, nickname: &str) -> (r: Option<ProfileInfo>)
        ensures
            r.deep_view() == spec_read_profile(self@, nickname@),
    {
        let section_name = crate::text::concat_strs("profile ", nickname);
        let si = match self.find_section(section_name.as_str()) {
            Some(si) => si,
            None => {
                return None;
            },
        };
        let sso_account_id = match self.get_required(si, "sso_account_id") {
            Some(v) => v,
            None => {
                return None;
            },
        };
        if sso_account_id.as_str().unicode_len() == 0 {
            return None;
        }
        let sso_role_name = match self.get_required(si, "sso_role_name") {
            Some(v) => v,
            None => {
                return None;
            },
        };
        if sso_role_name.as_str().unicode_len() == 0 {
            return None;
        }
        let session_name = self.get_value(si, "sso_session");
        let (sso_start_url, sso_region) = if session_name.as_str().unicode_len() > 0 {
            let sso_section_name = crate::text::concat_strs("sso-session ", session_name.as_str());
            match self.find_section(sso_section_name.as_str()) {
                Some(xi) => (self.get_value(xi, "sso_start_url"), self.get_value(
                    xi,
                    "sso_region",
                )),
                None => (String::new(), String::new()),
            }
        } else {
            (self.get_value(si, "sso_start_url"), self.get_value(si, "sso_region"))
        };
        Some(
            ProfileInfo {
                profile_name: nickname.to_owned(),
                sso_start_url,
                sso_region,
                sso_account_id,
                sso_role_name,
                session_name,
            },
        )
    }

    /// Renders every section back to INI text: `[name]`, one `key = value`
    /// line for each binding whose value is present, a blank line after each
    /// section.
    pub fn to_text(&self) -> (r: String)
        ensures
            r@ == render_ini(self@),
    {
        let ghost whole = render_ini(self@);
        let mut out = String::new();
        let mut i: usize = 0;
        proof {
            assert(self@.skip(0) =~= self@);
            assert(out@ + render_ini(self@.skip(0)) =~= whole);
        }
        while i < self.sections.len()
            invariant
                i <= self.sections.len(),
                self@.len() == self.sections.len(),
                whole == render_ini(self@),
                out@ + render_ini(self@.skip(i as int)) == whole,
            decreases self.sections.len() - i,
        {
            let ghost rest = self@.skip(i as int);
            proof {
                assert(rest[0] == self@[i as int]);
                assert(rest.drop_first() =~= self@.skip(i as int + 1));
                assert(render_ini(rest) == render_section(self@[i as int]) + render_ini(
                    self@.skip(i as int + 1),
                ));
            }
            let sec = &self.sections[i];
            proof {
                assert(sec.deep_view() == self@[i as int]);
                reveal_strlit("[");
                reveal_strlit("]\n");
            }
            out.append("[");
            out.append(sec.name.as_str());
            out.append("]\n");
            proof {
                assert("["@ =~= seq!['[']);
                assert("]\n"@ =~= seq![']', '\n']);
            }
            let ghost ps = self@[i as int].pairs;
            let mut j: usize = 0;
            proof {
                assert(ps.skip(0) =~= ps);
                assert(out@ + render_pairs(ps.skip(0)) + seq!['\n'] + render_ini(
                    self@.skip(i as int + 1),
                ) =~= whole);
            }
            while j < sec.pairs.len()
                invariant
                    j <= sec.pairs.len(),
                    ps == sec.pairs.deep_view(),
                    ps.len() == sec.pairs.len(),
                    whole == render_ini(self@),
                    i < self@.len(),
                    out@ + render_pairs(ps.skip(j as int)) + seq!['\n'] + render_ini(
                        self@.skip(i as int + 1),
                    ) == whole,
                decreases sec.pairs.len() - j,
            {
                let ghost tail = ps.skip(j as int);
                proof {
                    assert(ps[j as int] == sec.pairs[j as int].deep_view());
                    assert(tail[0] == ps[j as int]);
                    assert(tail.drop_first() =~= ps.skip(j as int + 1));
                    assert(render_pairs(tail) == render_pair(ps[j as int]) + render_pairs(
                        ps.skip(j as int + 1),
                    ));
                }
                match &sec.pairs[j].value {
                    Some(v) => {
                        proof {
                            reveal_strlit(" = ");
                            reveal_strlit("\n");
                        }
                        out.append(sec.pairs[j].key.as_str());
                        out.append(" = ");
                        out.append(v.as_str());
                        out.append("\n");
                        proof {
                            assert(" = "@ =~= seq![' ', '=', ' ']);
                            assert("\n"@ =~= seq!['\n']);
                            assert(out@ + render_pairs(ps.skip(j as int + 1)) + seq!['\n']
                                + render_ini(self@.skip(i as int + 1)) =~= whole);
                        }
                    },
                    None => {
                        proof {
                            assert(render_pair(ps[j as int]) =~= Seq::<char>::empty());
                            assert(out@ + render_pairs(ps.skip(j as int + 1)) + seq!['\n']
                                + render_ini(self@.skip(i as int + 1)) =~= whole);
                        }
                    },
                }
                j = j + 1;
            }
            proof {
                assert(ps.skip(ps.len() as int) =~= Seq::<(Seq<char>, Option<Seq<char>>)>::empty());
                reveal_strlit("\n");
            }
            out.append("\n");
            proof {
                assert("\n"@ =~= seq!['\n']);
                assert(out@ + render_ini(self@.skip(i as int + 1)) =~= whole);
            }
            i = i + 1;
        }
        proof {
            assert(self@.skip(self@.len() as int) =~= Seq::<IniSectionV>::empty());
            assert(out@ =~= whole);
        }
        out
    }
}

/// Malformed INI text: a broken section header or a line with an empty key.
#[derive(Clone, Copy, Debug, PartialEq, Eq)]
pub struct IniError;

/// Spec-level classification of one line of INI text.
pub ghost enum LineKindV {
    Blank,
    Header(Seq<char>),
    Pair(Seq<char>, Option<Seq<char>>),
    Bad,
}

/// How one line reads once trimmed: nothing or a comment, a `[section]`
/// header, a `key = value` binding, a bare key without a value, or malformed
/// text.
pub open spec fn classify_line(l: Seq<char>) -> LineKindV {
    let t = trim(l);
    if t.len() == 0 {
        LineKindV::Blank
    } else if t[0] == ';' || t[0] == '#' {
        LineKindV::Blank
    } else if t[0] == '[' {
        if t.len() >= 2 && t.last() == ']' {
            LineKindV::Header(trim(t.subrange(1, t.len() - 1)))
        } else {
            LineKindV::Bad
        }
    } else {
        let e = find_char_or(t, '=');
        if e == t.len() {
            LineKindV::Pair(t, None)
        } else {
            let k = trim(t.take(e));
            if k.len() == 0 {
                LineKindV::Bad
            } else {
                LineKindV::Pair(k, Some(trim(t.skip(e + 1))))
            }
        }
    }
}

/// The parser's running state: the sections built so far and which of them
/// the bindings being read belong to.
#[verifier::ext_equal]
pub ghost struct ParseStateV {
    pub secs: Seq<IniSectionV>,
    pub cur: Option<int>,
}

pub open spec fn init_parse_state() -> ParseStateV {
    ParseStateV { secs: Seq::empty(), cur: None }
}

pub open spec fn cur_ok(st: ParseStateV) -> bool {
    match st.cur {
        Some(i) => 0 <= i < st.secs.len(),
        None => true,
    }
}

/// Binding `key` in a section: an existing binding of the key is overwritten
/// in place, a new key goes to the end.
pub open spec fn upsert_pair(
    ps: Seq<(Seq<char>, Option<Seq<char>>)>,
    k: Seq<char>,
    v: Option<Seq<char>>,
) -> Seq<(Seq<char>, Option<Seq<char>>)> {
    let i = key_index(ps, k);
    if i < ps.len() {
        ps.update(i, (k, v))
    } else {
        ps.push((k, v))
    }
}

/// What one classified line does to the parser state. A header opens the
/// section so named, creating it at the end when new; a binding goes into the
/// open section and is skipped before any header; malformed lines are errors.
pub open spec fn apply_kind(st: ParseStateV, kind: LineKindV) -> Option<ParseStateV> {
    match kind {
        LineKindV::Blank => Some(st),
        LineKindV::Bad => None,
        LineKindV::Header(name) => {
            let i = sec_index(st.secs, name);
            if i < st.secs.len() {
                Some(ParseStateV { secs: st.secs, cur: Some(i) })
            } else {
                Some(
                    ParseStateV {
                        secs: st.secs.push(IniSectionV { name, pairs: Seq::empty() }),
                        cur: Some(st.secs.len() as int),
                    },
                )
            }
        },
        LineKindV::Pair(k, v) => match st.cur {
            Some(i) => Some(
                ParseStateV {
                    secs: st.secs.update(
                        i,
                        IniSectionV {
                            name: st.secs[i].name,
                            pairs: upsert_pair(st.secs[i].pairs, k, v),
                        },
                    ),
                    cur: Some(i),
                },
            ),
            None => Some(st),
        },
    }
}

pub open spec fn apply_line(st: ParseStateV, l: Seq<char>) -> Option<ParseStateV> {
    apply_kind(st, classify_line(l))
}

pub open spec fn parse_lines(lines: Seq<Seq<char>>, st: ParseStateV) -> Option<ParseStateV>
    decreases lines.len(),
{
    if lines.len() == 0 {
        Some(st)
    } else {
        match apply_line(st, lines[0]) {
            Some(st2) => parse_lines(lines.drop_first(), st2),
            None => None,
        }
    }
}

/// The lines of `s`: a trailing newline closes the last line rather than
/// opening an empty one.
pub open spec fn split_lines(s: Seq<char>) -> Seq<Seq<char>>
    decreases s.len() via split_lines_decreases
{
    if s.len() == 0 {
        Seq::empty()
    } else {
        let i = find_char_or(s, '\n');
        if i == s.len() {
            seq![s]
        } else {
            seq![s.take(i)] + split_lines(s.skip(i + 1))
        }
    }
}

#[via_fn]
proof fn split_lines_decreases(s: Seq<char>) {
    lemma_find_char_or(s, '\n');
}

/// What parsing INI text yields, or nothing on malformed text.
pub open spec fn spec_parse_ini(s: Seq<char>) -> Option<Seq<IniSectionV>> {
    match parse_lines(split_lines(s), init_parse_state()) {
        Some(st) => Some(st.secs),
        None => None,
    }
}

/// Text with no surrounding whitespace and no newline: what line parsing
/// hands back for names and values.
pub open spec fn tidy_text(s: Seq<char>) -> bool {
    trim(s) == s && !has_char(s, '\n')
}

/// What line parsing guarantees of a key: tidy, non-empty, without `=`, and
/// not opening like a header or comment.
pub open spec fn tidy_key(k: Seq<char>) -> bool {
    &&& tidy_text(k)
    &&& k.len() > 0
    &&& !has_char(k, '=')
    &&& k[0] != '['
    &&& k[0] != ';'
    &&& k[0] != '#'
}

pub open spec fn tidy_pair(p: (Seq<char>, Option<Seq<char>>)) -> bool {
    tidy_key(p.0) && match p.1 {
        Some(v) => tidy_text(v),
        None => true,
    }
}

pub open spec fn tidy_section(sec: IniSectionV) -> bool {
    tidy_text(sec.name) && forall|j: int|
        0 <= j < sec.pairs.len() ==> tidy_pair(#[trigger] sec.pairs[j])
}

/// Every name, key and value in the model could have come out of the parser:
/// rendering such a model gives text that parses back.
pub open spec fn tidy_ini(m: Seq<IniSectionV>) -> bool {
    forall|i: int| 0 <= i < m.len() ==> tidy_section(#[trigger] m[i])
}

pub open spec fn tidy_kind(kind: LineKindV) -> bool {
    match kind {
        LineKindV::Header(name) => tidy_text(name),
        LineKindV::Pair(k, v) => tidy_pair((k, v)),
        _ => true,
    }
}

/// Classifying a line without newlines yields tidy parts.
pub proof fn lemma_classify_tidy(l: Seq<char>)
    requires
        !has_char(l, '\n'),
    ensures
        tidy_kind(classify_line(l)),
{
    let t = trim(l);
    crate::text::lemma_trim_no_char(l, '\n');
    crate::text::lemma_trim_shape(l);
    if t.len() == 0 {
    } else if t[0] == ';' || t[0] == '#' {
    } else if t[0] == '[' {
        if t.len() >= 2 && t.last() == ']' {
            let interior = t.subrange(1, t.len() - 1);
            assert(!has_char(interior, '\n')) by {
                if has_char(interior, '\n') {
                    let j = choose|j: int| 0 <= j < interior.len() && interior[j] == '\n';
                    assert(t[j + 1] == '\n');
                    assert(has_char(t, '\n'));
                }
            }
            crate::text::lemma_trim_no_char(interior, '\n');
            crate::text::lemma_trim_shape(interior);
        }
    } else {
        let e = find_char_or(t, '=');
        lemma_find_char_or(t, '=');
        if e == t.len() {
            assert(tidy_key(t));
        } else {
            let kpart = t.take(e);
            let k = trim(kpart);
            if k.len() > 0 {
                crate::text::lemma_trim_shape(kpart);
                assert(!has_char(kpart, '\n')) by {
                    if has_char(kpart, '\n') {
                        let j = choose|j: int| 0 <= j < kpart.len() && kpart[j] == '\n';
                        assert(has_char(t, '\n'));
                    }
                }
                assert(!has_char(kpart, '=')) by {
                    if has_char(kpart, '=') {
                        let j = choose|j: int| 0 <= j < kpart.len() && kpart[j] == '=';
                        assert(t[j] == '=');
                    }
                }
                crate::text::lemma_trim_no_char(kpart, '\n');
                crate::text::lemma_trim_no_char(kpart, '=');
                assert(k[0] == t[0]) by {
                    assert(kpart[0] == t[0]);
                    assert(trim_start(kpart) == kpart);
                    crate::text::lemma_trim_end_prefix(kpart);
                }
                let vpart = t.skip(e + 1);
                assert(!has_char(vpart, '\n')) by {
                    if has_char(vpart, '\n') {
                        let j = choose|j: int| 0 <= j < vpart.len() && vpart[j] == '\n';
                        assert(t[e + 1 + j] == '\n');
                    }
                }
                crate::text::lemma_trim_no_char(vpart, '\n');
                crate::text::lemma_trim_shape(vpart);
            }
        }
    }
}

/// Upserting a binding keeps keys pairwise distinct.
pub proof fn lemma_upsert_unique(
    ps: Seq<(Seq<char>, Option<Seq<char>>)>,
    k: Seq<char>,
    v: Option<Seq<char>>,
)
    requires
        unique_pair_keys(ps),
    ensures
        unique_pair_keys(upsert_pair(ps, k, v)),
{
    lemma_key_index(ps, k);
    let i = key_index(ps, k);
    if i < ps.len() {
        let ps2 = ps.update(i, (k, v));
        assert(forall|a: int| 0 <= a < ps2.len() ==> #[trigger] ps2[a].0 == ps[a].0);
    }
}

/// Exec-level classification of one line.
pub enum LineKind {
    Blank,
    Header(String),
    Pair(String, Option<String>),
    Bad,
}

impl View for LineKind {
    type V = LineKindV;

    open spec fn view(&self) -> LineKindV {
        match self {
            LineKind::Blank => LineKindV::Blank,
            LineKind::Header(s) => LineKindV::Header(s@),
            LineKind::Pair(k, v) => LineKindV::Pair(k@, v.deep_view()),
            LineKind::Bad => LineKindV::Bad,
        }
    }
}

/// Classifies one line of INI text.
fn classify(line: &str) -> (r: LineKind)
    ensures
        r@ == classify_line(line@),
{
    let t = crate::text::trim_str(line);
    let tn = t.unicode_len();
    if tn == 0 {
        return LineKind::Blank;
    }
    let c0 = t.get_char(0);
    if c0 == ';' || c0 == '#' {
        return LineKind::Blank;
    }
    if c0 == '[' {
        if tn >= 2 && t.get_char(tn - 1) == ']' {
            let interior = t.substring_char(1, tn - 1);
            let name = crate::text::trim_str(interior);
            return LineKind::Header(name.to_owned());
        } else {
            return LineKind::Bad;
        }
    }
    let e = crate::text::find_char_from(t, 0, tn, '=');
    proof {
        assert(t@.skip(0) =~= t@);
    }
    if e == tn {
        return LineKind::Pair(t.to_owned(), None);
    }
    let kpart = t.substring_char(0, e);
    let k = crate::text::trim_str(kpart);
    proof {
        assert(kpart@ =~= t@.take(e as int));
    }
    if k.unicode_len() == 0 {
        return LineKind::Bad;
    }
    let vpart = t.substring_char(e + 1, tn);
    let v = crate::text::trim_str(vpart);
    proof {
        assert(vpart@ =~= t@.skip(e as int + 1));
    }
    LineKind::Pair(k.to_owned(), Some(v.to_owned()))
}

pub open spec fn parse_state(m: Seq<IniSectionV>, cur: Option<int>) -> ParseStateV {
    ParseStateV { secs: m, cur }
}

pub open spec fn cur_view(c: Option<usize>) -> Option<int> {
    match c {
        Some(i) => Some(i as int),
        None => None,
    }
}

impl AwsManager {
    /// Binds `key` in section `i`: overwrites the binding of an existing key
    /// in place, appends a new key.
    fn upsert_in(&mut self, i: usize, key: String, value: Option<String>)
        requires
            i < old(self)@.len(),
        ensures
            final(self)@ == old(self)@.update(
                i as int,
                (IniSectionV {
                    name: old(self)@[i as int].name,
                    pairs: upsert_pair(old(self)@[i as int].pairs, key@, value.deep_view()),
                }),
            ),
    {
        let ghost m0 = self@;
        let ghost kv = (key@, value.deep_view());
        let j_opt = self.find_key(i, key.as_str());
        let mut sec = self.sections.remove(i);
        proof {
            assert(sec.deep_view() == m0[i as int]);
        }
        let pair = IniPair { key, value };
        proof {
            assert(pair@ == kv);
        }
        match j_opt {
            Some(j) => {
                sec.pairs.remove(j);
                sec.pairs.insert(j, pair);
                proof {
                    assert(sec.pairs.deep_view() =~= m0[i as int].pairs.update(j as int, kv));
                }
            },
            None => {
                sec.pairs.push(pair);
                proof {
                    assert(sec.pairs.deep_view() =~= m0[i as int].pairs.push(kv));
                }
            },
        }
        proof {
            assert(sec.deep_view() == (IniSectionV {
                name: m0[i as int].name,
                pairs: upsert_pair(m0[i as int].pairs, kv.0, kv.1),
            }));
        }
        self.sections.insert(i, sec);
        proof {
            assert(self@ =~= m0.update(
                i as int,
                (IniSectionV {
                    name: m0[i as int].name,
                    pairs: upsert_pair(m0[i as int].pairs, kv.0, kv.1),
                }),
            ));
        }
    }

    /// Feeds one classified line into the parse, mutating the sections and
    /// the open-section cursor; a false result is a parse error.
    fn apply_one(&mut self, cur: &mut Option<usize>, kind: LineKind) -> (ok: bool)
        requires
            cur_ok(parse_state(old(self)@, cur_view(*old(cur)))),
            wf_ini(old(self)@),
            tidy_ini(old(self)@),
            tidy_kind(kind@),
        ensures
            ({
                let st0 = parse_state(old(self)@, cur_view(*old(cur)));
                let st1 = parse_state(final(self)@, cur_view(*final(cur)));
                &&& (ok ==> apply_kind(st0, kind@) == Some(st1))
                &&& (!ok ==> apply_kind(st0, kind@) is None && final(self)@ == old(self)@)
                &&& cur_ok(st1)
                &&& wf_ini(final(self)@)
                &&& tidy_ini(final(self)@)
            }),
    {
        match kind {
            LineKind::Blank => true,
            LineKind::Bad => false,
            LineKind::Header(name) => {
                let ghost m0 = self@;
                let ghost nm = name@;
                match self.find_section(name.as_str()) {
                    Some(i) => {
                        *cur = Some(i);
                        true
                    },
                    None => {
                        *cur = Some(self.sections.len());
                        let fresh_pairs: Vec<IniPair> = Vec::new();
                        proof {
                            assert(fresh_pairs.deep_view() =~= Seq::<(
                                Seq<char>,
                                Option<Seq<char>>,
                            )>::empty());
                        }
                        self.sections.push(IniSection { name, pairs: fresh_pairs });
                        proof {
                            let fresh = IniSectionV { name: nm, pairs: Seq::empty() };
                            assert(self@ =~= m0.push(fresh));
                            lemma_apply_kind_keeps(
                                parse_state(m0, cur_view(*old(cur))),
                                LineKindV::Header(nm),
                            );
                        }
                        true
                    },
                }
            },
            LineKind::Pair(k, v) => {
                match *cur {
                    Some(i) => {
                        let ghost m0 = self@;
                        let ghost kv = (k@, v.deep_view());
                        self.upsert_in(i, k, v);
                        proof {
                            lemma_apply_kind_keeps(
                                parse_state(m0, cur_view(*old(cur))),
                                LineKindV::Pair(kv.0, kv.1),
                            );
                        }
                        true
                    },
                    None => true,
                }
            },
        }
    }

    /// Parses INI text into sections; malformed text is an error, as the AWS
    /// config file is externally owned and unreadable text means corruption.
    /// Bindings that stand before the first section header belong to no
    /// section and are skipped.
    pub fn parse_text(text: &str) -> (r: Result<AwsManager, IniError>)
        ensures
            match r {
                Ok(m) => spec_parse_ini(text@) == Some(m@) && m.wf() && tidy_ini(m@),
                Err(_) => spec_parse_ini(text@) is None,
            },
    {
        let n = text.unicode_len();
        let mut mgr = AwsManager::new();
        let mut cur: Option<usize> = None;
        let mut pos: usize = 0;
        proof {
            assert(text@.skip(0) =~= text@);
        }
        while pos < n
            invariant
                pos <= n,
                n == text@.len(),
                cur_ok(parse_state(mgr@, cur_view(cur))),
                wf_ini(mgr@),
                tidy_ini(mgr@),
                parse_lines(split_lines(text@.skip(pos as int)), parse_state(mgr@, cur_view(cur)))
                    == parse_lines(split_lines(text@), init_parse_state()),
            decreases n - pos,
        {
            let nl = crate::text::find_char_from(text, pos, n, '\n');
            let line = text.substring_char(pos, nl);
            let ghost rest = text@.skip(pos as int);
            let ghost st0 = parse_state(mgr@, cur_view(cur));
            let ghost lines = split_lines(rest);
            proof {
                assert(forall|j: int| 0 <= j < rest.len() ==> rest[j] == text@[pos + j]);
                assert(line@ =~= rest.take(nl - pos));
                assert(find_char_or(rest, '\n') == nl - pos);
                if nl == n {
                    assert(lines == seq![rest]);
                    assert(rest.take(nl - pos) =~= rest);
                    assert(lines[0] == line@);
                } else {
                    assert(lines == seq![rest.take(nl - pos)] + split_lines(
                        rest.skip(nl - pos + 1),
                    ));
                    assert(lines[0] == line@);
                    assert(rest.skip(nl - pos + 1) =~= text@.skip(nl + 1));
                }
                assert(!has_char(line@, '\n')) by {
                    if has_char(line@, '\n') {
                        let j = choose|j: int| 0 <= j < line@.len() && line@[j] == '\n';
                        assert(text@[pos + j] == '\n');
                    }
                }
                lemma_classify_tidy(line@);
            }
            let kind = classify(line);
            let ok = mgr.apply_one(&mut cur, kind);
            if !ok {
                proof {
                    assert(parse_lines(lines, st0) is None);
                }
                return Err(IniError);
            }
            proof {
                let st1 = parse_state(mgr@, cur_view(cur));
                assert(apply_line(st0, lines[0]) == Some(st1));
                assert(parse_lines(lines, st0) == parse_lines(lines.drop_first(), st1));
                if nl == n {
                    assert(lines.drop_first() =~= Seq::<Seq<char>>::empty());
                    assert(text@.skip(n as int) =~= Seq::<char>::empty());
                    assert(split_lines(text@.skip(n as int)) =~= Seq::<Seq<char>>::empty());
                    assert(lines.drop_first() == split_lines(text@.skip(n as int)));
                } else {
                    assert(lines.drop_first() =~= split_lines(text@.skip(nl + 1)));
                }
            }
            pos = if nl < n {
                nl + 1
            } else {
                n
            };
        }
        proof {
            assert(text@.skip(pos as int) =~= Seq::<char>::empty());
            assert(parse_lines(split_lines(text@.skip(pos as int)), parse_state(
                mgr@,
                cur_view(cur),
            )) == Some(parse_state(mgr@, cur_view(cur))));
        }
        Ok(mgr)
    }

    /// The value of `key` in the section named `section_name`, when the
    /// section exists and the key carries a value.
    pub fn section_value(&self, section_name: &str, key: &str) -> (r: Option<String>)
        ensures
            match r {
                Some(v) => sec_index(self@, section_name@) < self@.len() && sec_get(
                    self@[sec_index(self@, section_name@)],
                    key@,
                ) == Some(Some(v@)),
                None => sec_index(self@, section_name@) == self@.len() || !(sec_get(
                    self@[sec_index(self@, section_name@)],
                    key@,
                ) matches Some(Some(_))),
            },
    {
        match self.find_section(section_name) {
            Some(i) => self.get_required(i, key),
            None => None,
        }
    }

    /// Loads INI text and renders it right back: the normalize-in-place pass
    /// run after the external SSO tool has edited the file.
    pub fn format_config(text: &str) -> (r: Result<String, IniError>)
        ensures
            match r {
                Ok(s) => spec_parse_ini(text@) matches Some(m) && s@ == render_ini(m),
                Err(_) => spec_parse_ini(text@) is None,
            },
    {
        match AwsManager::parse_text(text) {
            Ok(m) => Ok(m.to_text()),
            Err(e) => Err(e),
        }
    }
}

/// Whether some section of `m` is named `nm`.
pub open spec fn has_name(m: Seq<IniSectionV>, nm: Seq<char>) -> bool {
    exists|i: int| 0 <= i < m.len() && m[i].name == nm
}

/// Whether some binding of `ps` has key `k`.
pub open spec fn has_key(ps: Seq<(Seq<char>, Option<Seq<char>>)>, k: Seq<char>) -> bool {
    exists|i: int| 0 <= i < ps.len() && ps[i].0 == k
}

/// The bindings that carry a value, in order.
pub open spec fn filter_some(ps: Seq<(Seq<char>, Option<Seq<char>>)>) -> Seq<
    (Seq<char>, Option<Seq<char>>),
>
    decreases ps.len(),
{
    if ps.len() == 0 {
        Seq::empty()
    } else {
        let rest = filter_some(ps.drop_first());
        match ps[0].1 {
            Some(v) => seq![(ps[0].0, Some(v))] + rest,
            None => rest,
        }
    }
}

/// A section with only its valued bindings: what a render-and-parse pass
/// keeps of it.
pub open spec fn keep_valued(sec: IniSectionV) -> IniSectionV {
    IniSectionV { name: sec.name, pairs: filter_some(sec.pairs) }
}

pub open spec fn keep_valued_ini(m: Seq<IniSectionV>) -> Seq<IniSectionV>
    decreases m.len(),
{
    if m.len() == 0 {
        Seq::empty()
    } else {
        seq![keep_valued(m[0])] + keep_valued_ini(m.drop_first())
    }
}

/// The lines that rendering a section's bindings produces, one per valued
/// binding.
pub open spec fn pair_lines(ps: Seq<(Seq<char>, Option<Seq<char>>)>) -> Seq<Seq<char>>
    decreases ps.len(),
{
    if ps.len() == 0 {
        Seq::empty()
    } else {
        let rest = pair_lines(ps.drop_first());
        match ps[0].1 {
            Some(v) => seq![ps[0].0 + seq![' ', '=', ' '] + v] + rest,
            None => rest,
        }
    }
}

/// Splitting distributes over concatenation at a newline boundary.
pub proof fn lemma_split_lines_append(a: Seq<char>, b: Seq<char>)
    requires
        a.len() > 0 ==> a.last() == '\n',
    ensures
        split_lines(a + b) == split_lines(a) + split_lines(b),
    decreases a.len(),
{
    if a.len() == 0 {
        assert(a + b =~= b);
        assert(a =~= Seq::<char>::empty());
        assert(split_lines(a) + split_lines(b) =~= split_lines(b));
    } else {
        lemma_find_char_or(a, '\n');
        let i = find_char_or(a, '\n');
        assert(a[a.len() - 1] == '\n');
        assert(has_char(a, '\n'));
        assert(i < a.len());
        assert(forall|j: int| 0 <= j < a.len() ==> (a + b)[j] == a[j]);
        lemma_find_char_or_is(a + b, '\n', i);
        assert((a + b).take(i) =~= a.take(i));
        assert((a + b).skip(i + 1) =~= a.skip(i + 1) + b);
        let a2 = a.skip(i + 1);
        assert(a2.len() > 0 ==> a2.last() == '\n');
        lemma_split_lines_append(a2, b);
        assert(split_lines(a + b) == seq![a.take(i)] + (split_lines(a2) + split_lines(b)));
        assert(split_lines(a) == seq![a.take(i)] + split_lines(a2));
        assert(seq![a.take(i)] + (split_lines(a2) + split_lines(b)) =~= (seq![a.take(i)]
            + split_lines(a2)) + split_lines(b));
    }
}

/// Parsing distributes over concatenation of line sequences.
pub proof fn lemma_parse_lines_append(l1: Seq<Seq<char>>, l2: Seq<Seq<char>>, st: ParseStateV)
    ensures
        parse_lines(l1 + l2, st) == (match parse_lines(l1, st) {
            Some(st2) => parse_lines(l2, st2),
            None => None,
        }),
    decreases l1.len(),
{
    if l1.len() == 0 {
        assert(l1 + l2 =~= l2);
    } else {
        assert((l1 + l2)[0] == l1[0]);
        match apply_line(st, l1[0]) {
            Some(st2) => {
                assert((l1 + l2).drop_first() =~= l1.drop_first() + l2);
                lemma_parse_lines_append(l1.drop_first(), l2, st2);
            },
            None => {},
        }
    }
}

/// A rendered header line reads back as the header of the same name.
pub proof fn lemma_classify_header_line(nm: Seq<char>)
    requires
        tidy_text(nm),
    ensures
        classify_line(seq!['['] + nm + seq![']']) == LineKindV::Header(nm),
{
    let l = seq!['['] + nm + seq![']'];
    assert(l.len() == nm.len() + 2);
    assert(l[0] == '[');
    assert(l.last() == ']');
    crate::text::lemma_trim_noop(l);
    assert(l.subrange(1, l.len() - 1) =~= nm);
}

/// A rendered `key = value` line reads back as the same binding.
pub proof fn lemma_classify_pair_line(k: Seq<char>, v: Seq<char>)
    requires
        tidy_key(k),
        tidy_text(v),
    ensures
        classify_line(k + seq![' ', '=', ' '] + v) == LineKindV::Pair(k, Some(v)),
{
    let l = k + seq![' ', '=', ' '] + v;
    assert(l.len() == k.len() + 3 + v.len());
    crate::text::lemma_trim_shape(k);
    assert(!is_ini_space(k[0]) && !is_ini_space(k.last()));
    assert(l[0] == k[0]);
    let kpart = k + seq![' '];
    assert((kpart)[0] == k[0]);
    crate::text::lemma_trim_end_take(kpart, k.len() as int);
    assert(kpart.take(k.len() as int) =~= k);
    assert(trim(kpart) == k);
    if v.len() > 0 {
        crate::text::lemma_trim_shape(v);
        assert(l.last() == v.last());
        crate::text::lemma_trim_noop(l);
        let t = l;
        assert forall|j: int| 0 <= j < k.len() + 1 implies t[j] != '=' by {
            if j < k.len() {
                assert(t[j] == k[j]);
                if t[j] == '=' {
                    assert(has_char(k, '='));
                }
            } else {
                assert(t[j] == ' ');
            }
        }
        assert(t[k.len() as int + 1] == '=');
        lemma_find_char_or_is(t, '=', k.len() as int + 1);
        let e: int = k.len() as int + 1;
        assert(t.take(e as int) =~= kpart);
        let vpart = t.skip(e + 1);
        assert(vpart =~= seq![' '] + v);
        assert(vpart[0] == ' ');
        assert(vpart[1] == v[0]);
        crate::text::lemma_trim_start_skip(vpart, 1);
        assert(vpart.skip(1) =~= v);
        crate::text::lemma_trim_end_take(v, v.len() as int);
        assert(v.take(v.len() as int) =~= v);
        assert(trim(vpart) == v);
    } else {
        assert(l =~= k + seq![' ', '=', ' ']);
        assert(l[0] == k[0]);
        crate::text::lemma_trim_end_take(l, k.len() as int + 2);
        assert(trim_start(l) == l);
        let t = trim(l);
        assert(t =~= kpart + seq!['=']);
        assert(t.len() == k.len() + 2);
        assert(t[0] == k[0]);
        assert forall|j: int| 0 <= j < k.len() + 1 implies t[j] != '=' by {
            if j < k.len() {
                assert(t[j] == k[j]);
                if t[j] == '=' {
                    assert(has_char(k, '='));
                }
            } else {
                assert(t[j] == ' ');
            }
        }
        assert(t[k.len() as int + 1] == '=');
        lemma_find_char_or_is(t, '=', k.len() as int + 1);
        let e: int = k.len() as int + 1;
        assert(t.take(e as int) =~= kpart);
        assert(t.skip(e as int + 1) =~= Seq::<char>::empty());
        assert(trim(Seq::<char>::empty()) =~= Seq::<char>::empty());
        assert(v =~= Seq::<char>::empty());
        assert(trim(t.skip(e as int + 1)) == v);
    }
}

/// The empty line reads as blank.
pub proof fn lemma_classify_blank()
    ensures
        classify_line(Seq::<char>::empty()) == LineKindV::Blank,
{
    assert(trim(Seq::<char>::empty()) =~= Seq::<char>::empty());
}

/// The lines of a rendered section: its header, one line per valued binding,
/// and the closing blank line.
pub proof fn lemma_render_section_lines(sec: IniSectionV)
    requires
        tidy_section(sec),
    ensures
        split_lines(render_section(sec)) == seq![seq!['['] + sec.name + seq![']']] + pair_lines(
            sec.pairs,
        ) + seq![Seq::<char>::empty()],
    decreases 0int,
{
    let hl = seq!['['] + sec.name + seq![']'];
    let head = seq!['['] + sec.name + seq![']', '\n'];
    assert(head =~= hl + seq!['\n']);
    let tail = render_pairs(sec.pairs) + seq!['\n'];
    assert(render_section(sec) =~= head + tail);
    assert(head.last() == '\n');
    lemma_split_lines_append(head, tail);
    assert forall|j: int| 0 <= j < hl.len() implies head[j] != '\n' by {
        if j == 0 || j == hl.len() - 1 {
        } else {
            assert(head[j] == sec.name[j - 1]);
            if head[j] == '\n' {
                assert(has_char(sec.name, '\n'));
            }
        }
    }
    assert(head[hl.len() as int] == '\n');
    lemma_find_char_or_is(head, '\n', hl.len() as int);
    assert(head.take(hl.len() as int) =~= hl);
    assert(head.skip(hl.len() as int + 1) =~= Seq::<char>::empty());
    assert(split_lines(Seq::<char>::empty()) =~= Seq::<Seq<char>>::empty());
    assert(split_lines(head) =~= seq![hl] + split_lines(head.skip(hl.len() as int + 1)));
    assert(split_lines(head) =~= seq![hl]);
    lemma_pair_block_lines(sec.pairs);
    assert(split_lines(render_section(sec)) == seq![hl] + (pair_lines(sec.pairs) + seq![
        Seq::<char>::empty(),
    ]));
    assert(seq![hl] + (pair_lines(sec.pairs) + seq![Seq::<char>::empty()]) =~= seq![hl]
        + pair_lines(sec.pairs) + seq![Seq::<char>::empty()]);
}

/// The lines of a rendered binding block followed by its blank separator.
proof fn lemma_pair_block_lines(ps: Seq<(Seq<char>, Option<Seq<char>>)>)
    requires
        forall|j: int| 0 <= j < ps.len() ==> tidy_pair(#[trigger] ps[j]),
    ensures
        split_lines(render_pairs(ps) + seq!['\n']) == pair_lines(ps) + seq![Seq::<char>::empty()],
    decreases ps.len(),
{
    if ps.len() == 0 {
        let s = render_pairs(ps) + seq!['\n'];
        assert(s =~= seq!['\n']);
        assert(s[0] == '\n');
        lemma_find_char_or_is(s, '\n', 0);
        assert(s.take(0) =~= Seq::<char>::empty());
        assert(s.skip(1) =~= Seq::<char>::empty());
        assert(split_lines(Seq::<char>::empty()) =~= Seq::<Seq<char>>::empty());
        assert(split_lines(s) =~= seq![s.take(0)] + split_lines(s.skip(1)));
        assert(split_lines(s) =~= seq![Seq::<char>::empty()]);
        assert(pair_lines(ps) + seq![Seq::<char>::empty()] =~= seq![Seq::<char>::empty()]);
    } else {
        let rest = ps.drop_first();
        assert(forall|j: int| 0 <= j < rest.len() ==> rest[j] == ps[j + 1]);
        lemma_pair_block_lines(rest);
        match ps[0].1 {
            Some(v) => {
                let line0 = ps[0].0 + seq![' ', '=', ' '] + v;
                let chunk = line0 + seq!['\n'];
                assert(render_pair(ps[0]) =~= chunk);
                assert(render_pairs(ps) + seq!['\n'] =~= chunk + (render_pairs(rest)
                    + seq!['\n']));
                assert(chunk.last() == '\n');
                lemma_split_lines_append(chunk, render_pairs(rest) + seq!['\n']);
                assert(tidy_pair(ps[0]));
                assert forall|j: int| 0 <= j < line0.len() implies chunk[j] != '\n' by {
                    assert(chunk[j] == line0[j]);
                    if j < ps[0].0.len() {
                        assert(line0[j] == ps[0].0[j]);
                        if line0[j] == '\n' {
                            assert(has_char(ps[0].0, '\n'));
                        }
                    } else if j >= ps[0].0.len() + 3 {
                        assert(line0[j] == v[j - ps[0].0.len() - 3]);
                        if line0[j] == '\n' {
                            assert(has_char(v, '\n'));
                        }
                    }
                }
                assert(chunk[line0.len() as int] == '\n');
                lemma_find_char_or_is(chunk, '\n', line0.len() as int);
                assert(chunk.take(line0.len() as int) =~= line0);
                assert(chunk.skip(line0.len() as int + 1) =~= Seq::<char>::empty());
                assert(split_lines(Seq::<char>::empty()) =~= Seq::<Seq<char>>::empty());
                assert(split_lines(chunk) =~= seq![line0] + split_lines(
                    chunk.skip(line0.len() as int + 1),
                ));
                assert(split_lines(chunk) =~= seq![line0]);
                assert(split_lines(render_pairs(ps) + seq!['\n']) == seq![line0] + (pair_lines(
                    rest,
                ) + seq![Seq::<char>::empty()]));
                assert(pair_lines(ps) =~= seq![line0] + pair_lines(rest));
                assert(seq![line0] + (pair_lines(rest) + seq![Seq::<char>::empty()]) =~= (
                seq![line0] + pair_lines(rest)) + seq![Seq::<char>::empty()]);
            },
            None => {
                assert(render_pair(ps[0]) =~= Seq::<char>::empty());
                assert(render_pairs(ps) + seq!['\n'] =~= render_pairs(rest) + seq!['\n']);
                assert(pair_lines(ps) =~= pair_lines(rest));
            },
        }
    }
}

/// Parsing the rendered binding lines appends exactly the valued bindings to
/// the open section.
proof fn lemma_parse_pair_lines(ps: Seq<(Seq<char>, Option<Seq<char>>)>, st: ParseStateV)
    requires
        st.secs.len() > 0,
        st.cur == Some(st.secs.len() - 1),
        forall|j: int| 0 <= j < ps.len() ==> tidy_pair(#[trigger] ps[j]),
        forall|j: int| 0 <= j < ps.len() ==> !has_key(st.secs.last().pairs, (#[trigger] ps[j]).0),
        unique_pair_keys(ps),
    ensures
        parse_lines(pair_lines(ps), st) == Some(
            ParseStateV {
                secs: st.secs.update(
                    st.secs.len() - 1,
                    (IniSectionV {
                        name: st.secs.last().name,
                        pairs: st.secs.last().pairs + filter_some(ps),
                    }),
                ),
                cur: st.cur,
            },
        ),
    decreases ps.len(),
{
    let li = st.secs.len() - 1;
    let q = st.secs.last().pairs;
    if ps.len() == 0 {
        assert(q + filter_some(ps) =~= q);
        assert(st.secs.update(
            li,
            (IniSectionV { name: st.secs.last().name, pairs: q + filter_some(ps) }),
        ) =~= st.secs);
        assert(parse_lines(pair_lines(ps), st) == Some(st));
        assert(Some(st) == Some(
            ParseStateV {
                secs: st.secs.update(
                    li,
                    (IniSectionV { name: st.secs.last().name, pairs: q + filter_some(ps) }),
                ),
                cur: st.cur,
            },
        ));
    } else {
        let rest = ps.drop_first();
        assert(forall|j: int| 0 <= j < rest.len() ==> rest[j] == ps[j + 1]);
        match ps[0].1 {
            Some(v) => {
                let k = ps[0].0;
                let line0 = k + seq![' ', '=', ' '] + v;
                assert(tidy_pair(ps[0]));
                lemma_classify_pair_line(k, v);
                assert(pair_lines(ps) == seq![line0] + pair_lines(rest));
                assert(pair_lines(ps)[0] == line0);
                // apply the first line
                assert(!has_key(q, k));
                assert(key_index(q, k) == q.len()) by {
                    lemma_key_index(q, k);
                    if key_index(q, k) < q.len() {
                        assert(has_key(q, k));
                    }
                }
                assert(upsert_pair(q, k, Some(v)) == q.push((k, Some(v))));
                let st2 = ParseStateV {
                    secs: st.secs.update(
                        li,
                        (IniSectionV { name: st.secs.last().name, pairs: q.push((k, Some(v))) }),
                    ),
                    cur: Some(li),
                };
                assert(apply_line(st, line0) == Some(st2));
                assert(parse_lines(pair_lines(ps), st) == parse_lines(
                    pair_lines(ps).drop_first(),
                    st2,
                ));
                assert(pair_lines(ps).drop_first() =~= pair_lines(rest));
                // the inductive call
                assert(st2.secs.len() == st.secs.len());
                assert(st2.secs.last() == (IniSectionV {
                    name: st.secs.last().name,
                    pairs: q.push((k, Some(v))),
                }));
                assert forall|j: int| 0 <= j < rest.len() implies !has_key(
                    st2.secs.last().pairs,
                    (#[trigger] rest[j]).0,
                ) by {
                    assert(rest[j] == ps[j + 1]);
                    if has_key(q.push((k, Some(v))), rest[j].0) {
                        let t = choose|t: int|
                            0 <= t < q.push((k, Some(v))).len() && q.push((k, Some(v)))[t].0
                                == rest[j].0;
                        if t < q.len() {
                            assert(has_key(q, ps[j + 1].0));
                        } else {
                            assert(ps[0].0 == ps[j + 1].0);
                        }
                    }
                }
                lemma_parse_pair_lines(rest, st2);
                // reassemble
                assert(q.push((k, Some(v))) + filter_some(rest) =~= q + filter_some(ps));
                assert(st2.secs.update(
                    li,
                    (IniSectionV {
                        name: st.secs.last().name,
                        pairs: q.push((k, Some(v))) + filter_some(rest),
                    }),
                ) =~= st.secs.update(
                    li,
                    (IniSectionV { name: st.secs.last().name, pairs: q + filter_some(ps) }),
                ));
            },
            None => {
                assert(pair_lines(ps) =~= pair_lines(rest));
                assert(filter_some(ps) =~= filter_some(rest));
                lemma_parse_pair_lines(rest, st);
            },
        }
    }
}

/// Parsing a rendered section appends that section, kept to its valued
/// bindings, and leaves it open.
proof fn lemma_parse_section_lines(sec: IniSectionV, st: ParseStateV)
    requires
        tidy_section(sec),
        unique_pair_keys(sec.pairs),
        !has_name(st.secs, sec.name),
    ensures
        parse_lines(split_lines(render_section(sec)), st) == Some(
            ParseStateV {
                secs: st.secs.push(keep_valued(sec)),
                cur: Some(st.secs.len() as int),
            },
        ),
{
    lemma_render_section_lines(sec);
    let hl = seq!['['] + sec.name + seq![']'];
    let lines = split_lines(render_section(sec));
    lemma_classify_header_line(sec.name);
    assert(lines[0] == hl);
    // the header opens a fresh section
    assert(sec_index(st.secs, sec.name) == st.secs.len()) by {
        lemma_sec_index(st.secs, sec.name);
        if sec_index(st.secs, sec.name) < st.secs.len() {
            assert(has_name(st.secs, sec.name));
        }
    }
    let fresh = IniSectionV { name: sec.name, pairs: Seq::empty() };
    let st1 = ParseStateV { secs: st.secs.push(fresh), cur: Some(st.secs.len() as int) };
    assert(apply_line(st, hl) == Some(st1));
    assert(parse_lines(lines, st) == parse_lines(lines.drop_first(), st1));
    assert(lines.drop_first() =~= pair_lines(sec.pairs) + seq![Seq::<char>::empty()]);
    lemma_parse_lines_append(pair_lines(sec.pairs), seq![Seq::<char>::empty()], st1);
    // the binding lines fill the fresh section
    assert(st1.secs.last() == fresh);
    assert(forall|j: int|
        0 <= j < sec.pairs.len() ==> !has_key(st1.secs.last().pairs, (#[trigger] sec.pairs[j]).0));
    lemma_parse_pair_lines(sec.pairs, st1);
    let st2 = ParseStateV {
        secs: st1.secs.update(
            st1.secs.len() - 1,
            (IniSectionV { name: fresh.name, pairs: fresh.pairs + filter_some(sec.pairs) }),
        ),
        cur: st1.cur,
    };
    assert(parse_lines(pair_lines(sec.pairs), st1) == Some(st2));
    assert(fresh.pairs + filter_some(sec.pairs) =~= filter_some(sec.pairs));
    assert(st2.secs =~= st.secs.push(keep_valued(sec)));
    // the closing blank line changes nothing
    lemma_classify_blank();
    let blanks = seq![Seq::<char>::empty()];
    assert(blanks[0] == Seq::<char>::empty());
    assert(apply_line(st2, blanks[0]) == Some(st2));
    assert(blanks.drop_first() =~= Seq::<Seq<char>>::empty());
    assert(parse_lines(Seq::<Seq<char>>::empty(), st2) == Some(st2));
    assert(parse_lines(blanks, st2) == Some(st2));
    assert(st2 =~= (ParseStateV {
        secs: st.secs.push(keep_valued(sec)),
        cur: Some(st.secs.len() as int),
    }));
}

/// Parsing a rendered model appends every section, each kept to its valued
/// bindings.
proof fn lemma_parse_render_rec(m: Seq<IniSectionV>, st: ParseStateV)
    requires
        wf_ini(m),
        tidy_ini(m),
        forall|i: int| 0 <= i < m.len() ==> !has_name(st.secs, (#[trigger] m[i]).name),
    ensures
        parse_lines(split_lines(render_ini(m)), st) == Some(
            ParseStateV {
                secs: st.secs + keep_valued_ini(m),
                cur: if m.len() > 0 {
                    Some(st.secs.len() + m.len() - 1)
                } else {
                    st.cur
                },
            },
        ),
    decreases m.len(),
{
    if m.len() == 0 {
        assert(render_ini(m) =~= Seq::<char>::empty());
        assert(split_lines(render_ini(m)) =~= Seq::<Seq<char>>::empty());
        assert(st.secs + keep_valued_ini(m) =~= st.secs);
        assert((ParseStateV { secs: st.secs + keep_valued_ini(m), cur: st.cur }) =~= st);
    } else {
        let rest = m.drop_first();
        assert(forall|i: int| 0 <= i < rest.len() ==> rest[i] == m[i + 1]);
        assert(render_ini(m) == render_section(m[0]) + render_ini(rest));
        assert(render_section(m[0]).last() == '\n');
        lemma_split_lines_append(render_section(m[0]), render_ini(rest));
        lemma_parse_lines_append(
            split_lines(render_section(m[0])),
            split_lines(render_ini(rest)),
            st,
        );
        assert(tidy_section(m[0]));
        assert(unique_pair_keys(m[0].pairs));
        lemma_parse_section_lines(m[0], st);
        let st1 = ParseStateV {
            secs: st.secs.push(keep_valued(m[0])),
            cur: Some(st.secs.len() as int),
        };
        assert forall|i: int| 0 <= i < rest.len() implies !has_name(
            st1.secs,
            (#[trigger] rest[i]).name,
        ) by {
            if has_name(st1.secs, rest[i].name) {
                let t = choose|t: int|
                    0 <= t < st1.secs.len() && st1.secs[t].name == rest[i].name;
                if t < st.secs.len() {
                    assert(has_name(st.secs, m[i + 1].name));
                } else {
                    assert(m[0].name == m[i + 1].name);
                }
            }
        }
        lemma_parse_render_rec(rest, st1);
        assert(st1.secs + keep_valued_ini(rest) =~= st.secs + keep_valued_ini(m));
        if rest.len() > 0 {
            assert(st1.secs.len() + rest.len() - 1 == st.secs.len() + m.len() - 1);
        }
    }
}

/// Law: rendering a well-formed, parser-shaped model and parsing the text
/// back yields the same model, kept to its valued bindings; in particular
/// every section survives under its name and every `key = value` binding of
/// every section survives unchanged.
pub proof fn lemma_ini_round_trip(m: Seq<IniSectionV>)
    requires
        wf_ini(m),
        tidy_ini(m),
    ensures
        spec_parse_ini(render_ini(m)) == Some(keep_valued_ini(m)),
{
    let st = init_parse_state();
    lemma_parse_render_rec(m, st);
    assert(st.secs + keep_valued_ini(m) =~= keep_valued_ini(m));
}

/// Every binding kept by `filter_some` and its position under key lookup.
proof fn lemma_filter_some_index(ps: Seq<(Seq<char>, Option<Seq<char>>)>, k: Seq<char>)
    requires
        unique_pair_keys(ps),
    ensures
        ({
            let i = key_index(ps, k);
            let fs = filter_some(ps);
            let fi = key_index(fs, k);
            &&& (i < ps.len() && ps[i].1 is Some ==> fi < fs.len() && fs[fi] == ps[i])
            &&& (!(i < ps.len() && ps[i].1 is Some) ==> fi == fs.len())
        }),
    decreases ps.len(),
{
    lemma_key_index(ps, k);
    let fs = filter_some(ps);
    if ps.len() == 0 {
        lemma_key_index(fs, k);
    } else {
        let rest = ps.drop_first();
        assert(forall|j: int| 0 <= j < rest.len() ==> rest[j] == ps[j + 1]);
        lemma_filter_some_index(rest, k);
        lemma_key_index(rest, k);
        lemma_key_index(filter_some(rest), k);
        if ps[0].0 == k {
            assert(key_index(ps, k) == 0);
            match ps[0].1 {
                Some(v) => {
                    assert(fs == seq![(ps[0].0, Some(v))] + filter_some(rest));
                    assert(fs[0] == ps[0]);
                    lemma_key_index_is(fs, k, 0);
                },
                None => {
                    assert(fs == filter_some(rest));
                    assert(!has_key(rest, k)) by {
                        if has_key(rest, k) {
                            let t = choose|t: int| 0 <= t < rest.len() && rest[t].0 == k;
                            assert(ps[0].0 == ps[t + 1].0);
                        }
                    }
                    assert(key_index(rest, k) == rest.len()) by {
                        if key_index(rest, k) < rest.len() {
                            assert(has_key(rest, k));
                        }
                    }
                    assert(key_index(fs, k) == fs.len());
                },
            }
        } else {
            assert(key_index(ps, k) == 1 + key_index(rest, k));
            match ps[0].1 {
                Some(v) => {
                    assert(fs == seq![(ps[0].0, Some(v))] + filter_some(rest));
                    assert(fs[0].0 != k);
                    assert(fs.drop_first() =~= filter_some(rest));
                    assert(key_index(fs, k) == 1 + key_index(filter_some(rest), k));
                    let i = key_index(ps, k);
                    if i < ps.len() && ps[i].1 is Some {
                        assert(rest[i - 1] == ps[i]);
                        assert(fs[1 + key_index(filter_some(rest), k)] == filter_some(
                            rest,
                        )[key_index(filter_some(rest), k)]);
                    }
                },
                None => {
                    assert(fs == filter_some(rest));
                    let i = key_index(ps, k);
                    if i < ps.len() && ps[i].1 is Some {
                        assert(rest[i - 1] == ps[i]);
                    }
                },
            }
        }
    }
}

/// Law: a render-and-parse pass answers every valued lookup as the model it
/// started from did, section by section.
pub proof fn lemma_keep_valued_get(sec: IniSectionV, k: Seq<char>)
    requires
        unique_pair_keys(sec.pairs),
    ensures
        sec_get(sec, k) matches Some(Some(_)) ==> sec_get(keep_valued(sec), k) == sec_get(sec, k),
        sec_get(keep_valued(sec), k) matches Some(Some(_)) ==> sec_get(sec, k) == sec_get(
            keep_valued(sec),
            k,
        ),
{
    lemma_filter_some_index(sec.pairs, k);
    lemma_key_index(sec.pairs, k);
    lemma_key_index(filter_some(sec.pairs), k);
}

/// Blank-free lines: what the splitter yields never holds a newline.
pub proof fn lemma_split_lines_no_nl(s: Seq<char>)
    ensures
        forall|i: int|
            0 <= i < split_lines(s).len() ==> !has_char(#[trigger] split_lines(s)[i], '\n'),
    decreases s.len(),
{
    if s.len() > 0 {
        lemma_find_char_or(s, '\n');
        let i = find_char_or(s, '\n');
        if i == s.len() {
            assert(split_lines(s) == seq![s]);
            assert(!has_char(s, '\n'));
        } else {
            lemma_split_lines_no_nl(s.skip(i + 1));
            assert(!has_char(s.take(i), '\n')) by {
                if has_char(s.take(i), '\n') {
                    let j = choose|j: int| 0 <= j < s.take(i).len() && s.take(i)[j] == '\n';
                    assert(s[j] == '\n');
                }
            }
            assert(forall|j: int|
                0 <= j < split_lines(s.skip(i + 1)).len() ==> split_lines(s)[j + 1] == #[trigger] split_lines(
                    s.skip(i + 1),
                )[j]);
        }
    }
}

/// One classified line keeps the parse state well-formed and tidy.
pub proof fn lemma_apply_kind_keeps(st: ParseStateV, kind: LineKindV)
    requires
        cur_ok(st),
        wf_ini(st.secs),
        tidy_ini(st.secs),
        tidy_kind(kind),
    ensures
        apply_kind(st, kind) matches Some(st1) ==> cur_ok(st1) && wf_ini(st1.secs) && tidy_ini(
            st1.secs,
        ),
{
    match kind {
        LineKindV::Blank => {},
        LineKindV::Bad => {},
        LineKindV::Header(name) => {
            lemma_sec_index(st.secs, name);
            if sec_index(st.secs, name) < st.secs.len() {
            } else {
                let m0 = st.secs;
                let fresh = IniSectionV { name, pairs: Seq::empty() };
                let m1 = m0.push(fresh);
                assert(forall|j: int| 0 <= j < m0.len() ==> m0[j].name != name);
                assert forall|a: int, b: int| 0 <= a < b < m1.len() implies m1[a].name
                    != m1[b].name by {
                    if b == m0.len() {
                        assert(m1[a] == m0[a]);
                    } else {
                        assert(m1[a] == m0[a] && m1[b] == m0[b]);
                    }
                }
                assert forall|a: int| 0 <= a < m1.len() implies tidy_section(#[trigger] m1[a])
                    && unique_pair_keys(m1[a].pairs) by {
                    if a < m0.len() {
                        assert(m1[a] == m0[a]);
                        assert(tidy_section(m0[a]));
                        assert(unique_pair_keys(m0[a].pairs));
                    } else {
                        assert(m1[a] == fresh);
                    }
                }
            }
        },
        LineKindV::Pair(k, v) => {
            match st.cur {
                Some(i) => {
                    let m0 = st.secs;
                    let sec1 = IniSectionV {
                        name: m0[i].name,
                        pairs: upsert_pair(m0[i].pairs, k, v),
                    };
                    let m1 = m0.update(i, sec1);
                    lemma_upsert_unique(m0[i].pairs, k, v);
                    lemma_key_index(m0[i].pairs, k);
                    assert forall|a: int| 0 <= a < m1.len() implies tidy_section(#[trigger] m1[a])
                        && unique_pair_keys(m1[a].pairs) by {
                        if a == i {
                            assert(m1[a] == sec1);
                            let ps0 = m0[i].pairs;
                            let ps1 = sec1.pairs;
                            let ki = key_index(ps0, k);
                            assert(tidy_section(m0[i]));
                            assert forall|t: int| 0 <= t < ps1.len() implies tidy_pair(
                                #[trigger] ps1[t],
                            ) by {
                                if ki < ps0.len() {
                                    if t == ki {
                                        assert(ps1[t] == (k, v));
                                    } else {
                                        assert(ps1[t] == ps0[t]);
                                        assert(tidy_pair(ps0[t]));
                                    }
                                } else {
                                    if t == ps0.len() {
                                        assert(ps1[t] == (k, v));
                                    } else {
                                        assert(ps1[t] == ps0[t]);
                                        assert(tidy_pair(ps0[t]));
                                    }
                                }
                            }
                        } else {
                            assert(m1[a] == m0[a]);
                            assert(tidy_section(m0[a]));
                            assert(unique_pair_keys(m0[a].pairs));
                        }
                    }
                    assert forall|a: int, b: int| 0 <= a < b < m1.len() implies m1[a].name
                        != m1[b].name by {
                        assert(m1[a].name == m0[a].name && m1[b].name == m0[b].name);
                    }
                },
                None => {},
            }
        },
    }
}

/// Parsing newline-free lines keeps the state well-formed and tidy.
pub proof fn lemma_parse_lines_keeps(lines: Seq<Seq<char>>, st: ParseStateV)
    requires
        cur_ok(st),
        wf_ini(st.secs),
        tidy_ini(st.secs),
        forall|i: int| 0 <= i < lines.len() ==> !has_char(#[trigger] lines[i], '\n'),
    ensures
        parse_lines(lines, st) matches Some(st1) ==> cur_ok(st1) && wf_ini(st1.secs) && tidy_ini(
            st1.secs,
        ),
    decreases lines.len(),
{
    if lines.len() > 0 {
        lemma_classify_tidy(lines[0]);
        lemma_apply_kind_keeps(st, classify_line(lines[0]));
        match apply_line(st, lines[0]) {
            Some(st2) => {
                assert(forall|i: int|
                    0 <= i < lines.drop_first().len() ==> lines.drop_first()[i] == lines[i + 1]);
                lemma_parse_lines_keeps(lines.drop_first(), st2);
            },
            None => {},
        }
    }
}

/// What parsing yields is well-formed and tidy.
pub proof fn lemma_parse_ini_wf(text: Seq<char>)
    ensures
        spec_parse_ini(text) matches Some(m) ==> wf_ini(m) && tidy_ini(m),
{
    lemma_split_lines_no_nl(text);
    lemma_parse_lines_keeps(split_lines(text), init_parse_state());
}

/// Law: parse, render, parse again: every section survives under its name,
/// in order, and every valued binding of every section reads back unchanged.
pub proof fn lemma_parse_render_parse(text: Seq<char>)
    requires
        spec_parse_ini(text) is Some,
    ensures
        ({
            let m1 = spec_parse_ini(text)->Some_0;
            let r2 = spec_parse_ini(render_ini(m1));
            &&& r2 is Some
            &&& r2->Some_0.len() == m1.len()
            &&& forall|i: int| 0 <= i < m1.len() ==> (#[trigger] r2->Some_0[i]).name == m1[i].name
            &&& forall|i: int, k: Seq<char>|
                (0 <= i < m1.len() && ((#[trigger] sec_get(m1[i], k)) matches Some(Some(_))))
                    ==> sec_get(r2->Some_0[i], k) == sec_get(m1[i], k)
            &&& forall|i: int, k: Seq<char>|
                (0 <= i < m1.len() && ((#[trigger] sec_get(r2->Some_0[i], k)) matches Some(
                    Some(_),
                ))) ==> sec_get(m1[i], k) == sec_get(r2->Some_0[i], k)
        }),
{
    let m1 = spec_parse_ini(text)->Some_0;
    lemma_parse_ini_wf(text);
    lemma_ini_round_trip(m1);
    let m2 = keep_valued_ini(m1);
    lemma_keep_valued_rec(m1);
    assert forall|i: int, k: Seq<char>|
        0 <= i < m1.len() && ((#[trigger] sec_get(m1[i], k)) matches Some(Some(_)) || (
        #[trigger] sec_get(m2[i], k)) matches Some(Some(_))) implies sec_get(m2[i], k) == sec_get(
        m1[i],
        k,
    ) by {
        assert(unique_pair_keys(m1[i].pairs));
        assert(m2[i] == keep_valued(m1[i]));
        lemma_keep_valued_get(m1[i], k);
    }
}

/// `keep_valued_ini` maps `keep_valued` over the sections.
proof fn lemma_keep_valued_rec(m: Seq<IniSectionV>)
    ensures
        keep_valued_ini(m).len() == m.len(),
        forall|i: int| 0 <= i < m.len() ==> #[trigger] keep_valued_ini(m)[i] == keep_valued(m[i]),
    decreases m.len(),
{
    if m.len() > 0 {
        lemma_keep_valued_rec(m.drop_first());
        assert(forall|i: int| 0 <= i < m.len() - 1 ==> m.drop_first()[i] == m[i + 1]);
        assert(forall|i: int|
            1 <= i < m.len() ==> keep_valued_ini(m)[i] == keep_valued_ini(m.drop_first())[i - 1]);
    }
}

/// Law: when a profile names an SSO session and the referenced session
/// section exists, the profile's start URL and region are read from that
/// section, never from the profile section itself, whatever it also carries.
pub proof fn lemma_session_reference_precedence(m: Seq<IniSectionV>, nickname: Seq<char>)
    requires
        ({
            let si = sec_index(m, "profile "@ + nickname);
            &&& si < m.len()
            &&& sec_has_nonempty(m[si], "sso_account_id"@)
            &&& sec_has_nonempty(m[si], "sso_role_name"@)
            &&& (sec_get(m[si], "sso_session"@) matches Some(Some(s)) && s.len() > 0)
        }),
    ensures
        ({
            let si = sec_index(m, "profile "@ + nickname);
            let session = sec_get(m[si], "sso_session"@)->Some_0->Some_0;
            let xi = sec_index(m, "sso-session "@ + session);
            &&& spec_read_profile(m, nickname) matches Some(p)
            &&& xi < m.len() ==> spec_read_profile(m, nickname)->Some_0.sso_start_url
                == sec_get_str(m[xi], "sso_start_url"@)
            &&& xi < m.len() ==> spec_read_profile(m, nickname)->Some_0.sso_region == sec_get_str(
                m[xi],
                "sso_region"@,
            )
            &&& xi == m.len() ==> spec_read_profile(m, nickname)->Some_0.sso_start_url
                == Seq::<char>::empty() && spec_read_profile(m, nickname)->Some_0.sso_region
                == Seq::<char>::empty()
        }),
{
    lemma_sec_index(m, "sso-session "@ + sec_get(
        m[sec_index(m, "profile "@ + nickname)],
        "sso_session"@,
    )->Some_0->Some_0);
}

/// Law: a profile section whose `sso_account_id` or `sso_role_name` binding
/// is missing, valueless or empty reads as no profile at all, never as a
/// partially populated record.
pub proof fn lemma_missing_ids_read_as_none(m: Seq<IniSectionV>, nickname: Seq<char>)
    requires
        ({
            let si = sec_index(m, "profile "@ + nickname);
            si < m.len() ==> !sec_has_nonempty(m[si], "sso_account_id"@) || !sec_has_nonempty(
                m[si],
                "sso_role_name"@,
            )
        }),
    ensures
        spec_read_profile(m, nickname) is None,
{
}

/// Law: a profile the read yields always carries a non-empty account id and
/// role name, and is named after the nickname it was read for.
pub proof fn lemma_read_profile_ids_nonempty(m: Seq<IniSectionV>, nickname: Seq<char>)
    ensures
        spec_read_profile(m, nickname) matches Some(p) ==> p.sso_account_id.len() > 0
            && p.sso_role_name.len() > 0 && p.profile_name == nickname,
{
}

} // verus!
