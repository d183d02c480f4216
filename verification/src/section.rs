use vstd::prelude::*;

use crate::ini::split_lines;
use crate::text::{find_char_or, has_char, trim};

verus! {

/// Index of the first pair of `ps` whose key is `k`, or `ps.len()`.
pub open spec fn pair_index(ps: Seq<(Seq<char>, Seq<char>)>, k: Seq<char>) -> int
    decreases ps.len(),
{
    if ps.len() == 0 {
        0
    } else if ps[0].0 == k {
        0
    } else {
        1 + pair_index(ps.drop_first(), k)
    }
}

pub proof fn lemma_pair_index(ps: Seq<(Seq<char>, Seq<char>)>, k: Seq<char>)
    ensures
        0 <= pair_index(ps, k) <= ps.len(),
        pair_index(ps, k) < ps.len() ==> ps[pair_index(ps, k)].0 == k,
        forall|j: int| 0 <= j < pair_index(ps, k) ==> ps[j].0 != k,
    decreases ps.len(),
{
    if ps.len() > 0 && ps[0].0 != k {
        lemma_pair_index(ps.drop_first(), k);
        assert(forall|j: int| 1 <= j < ps.len() ==> ps[j] == ps.drop_first()[j - 1]);
    }
}

pub proof fn lemma_pair_index_is(ps: Seq<(Seq<char>, Seq<char>)>, k: Seq<char>, i: int)
    requires
        0 <= i <= ps.len(),
        forall|j: int| 0 <= j < i ==> ps[j].0 != k,
        i < ps.len() ==> ps[i].0 == k,
    ensures
        pair_index(ps, k) == i,
    decreases ps.len(),
{
    if ps.len() > 0 && ps[0].0 != k {
        assert(forall|j: int| 0 <= j < i - 1 ==> ps.drop_first()[j].0 != k);
        lemma_pair_index_is(ps.drop_first(), k, i - 1);
    }
}

/// The value bound to `k`, or nothing.
pub open spec fn section_lookup(ps: Seq<(Seq<char>, Seq<char>)>, k: Seq<char>) -> Option<
    Seq<char>,
> {
    let i = pair_index(ps, k);
    if i < ps.len() {
        Some(ps[i].1)
    } else {
        None
    }
}

/// Binding `k` to `v`: an existing binding of the key is overwritten in
/// place, a new key goes to the end.
pub open spec fn section_upsert(
    ps: Seq<(Seq<char>, Seq<char>)>,
    k: Seq<char>,
    v: Seq<char>,
) -> Seq<(Seq<char>, Seq<char>)> {
    let i = pair_index(ps, k);
    if i < ps.len() {
        ps.update(i, (k, v))
    } else {
        ps.push((k, v))
    }
}

/// The scan state: whether the lines being read lie inside the wanted
/// section, and the bindings collected so far.
pub ghost struct SectionScanV {
    pub in_section: bool,
    pub pairs: Seq<(Seq<char>, Seq<char>)>,
}

/// What one line does to the scan. A `[...]` line turns collection on exactly
/// when it spells the wanted section; a `key = value` line inside the section
/// is collected; everything else is skipped.
pub open spec fn scan_line(st: SectionScanV, l: Seq<char>, name: Seq<char>) -> SectionScanV {
    let t = trim(l);
    if t.len() > 0 && t[0] == '[' {
        SectionScanV { in_section: t == "["@ + name + "]"@, pairs: st.pairs }
    } else if st.in_section && t.len() > 0 && has_char(t, '=') {
        let e = find_char_or(t, '=');
        SectionScanV {
            in_section: st.in_section,
            pairs: section_upsert(st.pairs, trim(t.take(e)), trim(t.skip(e + 1))),
        }
    } else {
        st
    }
}

pub open spec fn scan_lines(lines: Seq<Seq<char>>, st: SectionScanV, name: Seq<char>) -> SectionScanV
    decreases lines.len(),
{
    if lines.len() == 0 {
        st
    } else {
        scan_lines(lines.drop_first(), scan_line(st, lines[0], name), name)
    }
}

/// The bindings that scanning `content` for section `name` collects.
pub open spec fn spec_scan_section(content: Seq<char>, name: Seq<char>) -> Seq<
    (Seq<char>, Seq<char>),
> {
    scan_lines(
        split_lines(content),
        SectionScanV { in_section: false, pairs: Seq::empty() },
        name,
    ).pairs
}

/// The bindings of one scanned section, with pairwise distinct keys.
pub struct SectionData {
    pub pairs: Vec<(String, String)>,
}

impl View for SectionData {
    type V = Seq<(Seq<char>, Seq<char>)>;

    open spec fn view(&self) -> Seq<(Seq<char>, Seq<char>)> {
        self.pairs@.map(|i: int, p: (String, String)| (p.0@, p.1@))
    }
}

impl SectionData {
    pub open spec fn wf(&self) -> bool {
        forall|i: int, j: int| 0 <= i < j < self@.len() ==> self@[i].0 != self@[j].0
    }

    pub fn new() -> (r: Self)
        ensures
            r.wf(),
            r@ == Seq::<(Seq<char>, Seq<char>)>::empty(),
    {
        let r = SectionData { pairs: Vec::new() };
        proof {
            assert(r@ =~= Seq::<(Seq<char>, Seq<char>)>::empty());
        }
        r
    }

    pub fn len(&self) -> (r: usize)
        ensures
            r == self@.len(),
    {
        self.pairs.len()
    }

    pub fn is_empty(&self) -> (r: bool)
        ensures
            r == (self@.len() == 0),
    {
        self.pairs.len() == 0
    }

    fn find(&self, key: &str) -> (r: Option<usize>)
        ensures
            match r {
                Some(i) => i == pair_index(self@, key@) && i < self@.len(),
                None => pair_index(self@, key@) == self@.len(),
            },
    {
        let needle: String = key.to_owned();
        let mut i: usize = 0;
        while i < self.pairs.len()
            invariant
                i <= self.pairs.len(),
                needle@ == key@,
                self@.len() == self.pairs.len(),
                forall|j: int| 0 <= j < i ==> self@[j].0 != key@,
            decreases self.pairs.len() - i,
        {
            if self.pairs[i].0 == needle {
                proof {
                    lemma_pair_index_is(self@, key@, i as int);
                }
                return Some(i);
            }
            i = i + 1;
        }
        proof {
            lemma_pair_index_is(self@, key@, self@.len() as int);
        }
        None
    }

    /// The value bound to `key`, if any.
    pub fn get(&self, key: &str) -> (r: Option<&String>)
        ensures
            match r {
                Some(v) => section_lookup(self@, key@) == Some(v@),
                None => section_lookup(self@, key@) is None,
            },
    {
        match self.find(key) {
            Some(i) => Some(&self.pairs[i].1),
            None => None,
        }
    }

    /// Whether `key` is bound.
    pub fn contains_key(&self, key: &str) -> (r: bool)
        ensures
            r == (section_lookup(self@, key@) is Some),
    {
        self.find(key).is_some()
    }

    /// Binds `key` to `value`, overwriting in place or appending.
    fn upsert(&mut self, key: String, value: String)
        ensures
            final(self)@ == section_upsert(old(self)@, key@, value@),
            old(self).wf() ==> final(self).wf(),
    {
        let ghost ps0 = self@;
        let ghost kv = (key@, value@);
        match self.find(key.as_str()) {
            Some(i) => {
                self.pairs.remove(i);
                self.pairs.insert(i, (key, value));
                proof {
                    assert(self@ =~= ps0.update(i as int, kv));
                    if old(self).wf() {
                        lemma_pair_index(ps0, kv.0);
                        assert(forall|a: int| 0 <= a < self@.len() ==> #[trigger] self@[a].0
                            == ps0[a].0);
                    }
                }
            },
            None => {
                self.pairs.push((key, value));
                proof {
                    assert(self@ =~= ps0.push(kv));
                    if old(self).wf() {
                        lemma_pair_index(ps0, kv.0);
                        assert forall|a: int, b: int|
                            0 <= a < b < self@.len() implies self@[a].0 != self@[b].0 by {
                            if b < ps0.len() {
                                assert(self@[a] == ps0[a] && self@[b] == ps0[b]);
                            } else {
                                assert(self@[b] == kv);
                                assert(self@[a] == ps0[a]);
                                if ps0[a].0 == kv.0 {
                                    assert(pair_index(ps0, kv.0) < ps0.len()) by {
                                        lemma_pair_index_is(ps0, kv.0, ps0.len() as int);
                                    }
                                }
                            }
                        }
                    }
                }
            },
        }
    }
}

/// Scans raw AWS config text for the section named `section_name` and
/// collects its `key = value` lines; yields nothing when no binding was
/// found. Section headers must spell `[section_name]` exactly once trimmed;
/// keys and values are trimmed around the first `=`.
pub fn parse_aws_config_section(content: &str, section_name: &str) -> (r: Option<SectionData>)
    ensures
        match r {
            Some(d) => d@ == spec_scan_section(content@, section_name@) && d@.len() > 0 && d.wf(),
            None => spec_scan_section(content@, section_name@).len() == 0,
        },
{
    let mut target = String::from_str("[");
    target.append(section_name);
    target.append("]");
    let n = content.unicode_len();
    let mut data = SectionData::new();
    let mut in_section = false;
    let mut pos: usize = 0;
    let ghost name = section_name@;
    let ghost lines_all = split_lines(content@);
    let ghost st_init = SectionScanV { in_section: false, pairs: Seq::empty() };
    proof {
        assert(content@.skip(0) =~= content@);
    }
    while pos < n
        invariant
            pos <= n,
            n == content@.len(),
            target@ == "["@ + name + "]"@,
            name == section_name@,
            data.wf(),
            scan_lines(
                split_lines(content@.skip(pos as int)),
                SectionScanV { in_section, pairs: data@ },
                name,
            ) == scan_lines(split_lines(content@), st_init, name),
        decreases n - pos,
    {
        let nl = crate::text::find_char_from(content, pos, n, '\n');
        let line = content.substring_char(pos, nl);
        let ghost rest = content@.skip(pos as int);
        let ghost st0 = SectionScanV { in_section, pairs: data@ };
        let ghost lines = split_lines(rest);
        proof {
            assert(forall|j: int| 0 <= j < rest.len() ==> rest[j] == content@[pos + j]);
            assert(line@ =~= rest.take(nl - pos));
            assert(find_char_or(rest, '\n') == nl - pos);
            if nl == n {
                assert(lines == seq![rest]);
                assert(rest.take(nl - pos) =~= rest);
                assert(lines[0] == line@);
                assert(lines.drop_first() =~= Seq::<Seq<char>>::empty());
            } else {
                assert(lines == seq![rest.take(nl - pos)] + split_lines(rest.skip(nl - pos + 1)));
                assert(lines[0] == line@);
                assert(rest.skip(nl - pos + 1) =~= content@.skip(nl + 1));
                assert(lines.drop_first() =~= split_lines(content@.skip(nl + 1)));
            }
        }
        let t = crate::text::trim_str(line);
        let tn = t.unicode_len();
        if tn > 0 && t.get_char(0) == '[' {
            let tt: String = t.to_owned();
            in_section = tt == target;
            proof {
                assert(scan_line(st0, line@, name) == (SectionScanV {
                    in_section,
                    pairs: data@,
                }));
            }
        } else if in_section && tn > 0 {
            let e = crate::text::find_char_from(t, 0, tn, '=');
            proof {
                assert(t@.skip(0) =~= t@);
            }
            if e < tn {
                proof {
                    assert(t@[e as int] == '=');
                    assert(has_char(t@, '='));
                }
                let kpart = t.substring_char(0, e);
                let key = crate::text::trim_str(kpart);
                let vpart = t.substring_char(e + 1, tn);
                let value = crate::text::trim_str(vpart);
                proof {
                    assert(kpart@ =~= t@.take(e as int));
                    assert(vpart@ =~= t@.skip(e as int + 1));
                }
                data.upsert(key.to_owned(), value.to_owned());
                proof {
                    assert(scan_line(st0, line@, name) == (SectionScanV {
                        in_section,
                        pairs: data@,
                    }));
                }
            } else {
                proof {
                    crate::text::lemma_find_char_or(t@, '=');
                    assert(!has_char(t@, '='));
                    assert(scan_line(st0, line@, name) == st0);
                }
            }
        } else {
            proof {
                assert(scan_line(st0, line@, name) == st0);
            }
        }
        proof {
            let st1 = SectionScanV { in_section, pairs: data@ };
            assert(scan_lines(lines, st0, name) == scan_lines(lines.drop_first(), st1, name));
            if nl == n {
                assert(content@.skip(n as int) =~= Seq::<char>::empty());
                assert(split_lines(content@.skip(n as int)) =~= Seq::<Seq<char>>::empty());
            }
        }
        pos = if nl < n {
            nl + 1
        } else {
            n
        };
    }
    proof {
        assert(content@.skip(pos as int) =~= Seq::<char>::empty());
        assert(split_lines(content@.skip(pos as int)) =~= Seq::<Seq<char>>::empty());
    }
    if data.is_empty() {
        None
    } else {
        Some(data)
    }
}

} // verus!
