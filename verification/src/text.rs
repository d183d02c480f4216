use vstd::prelude::*;

verus! {

/// The whitespace that the INI reader strips from line ends: blanks, tabs and
/// the carriage return that a CRLF line leaves behind.
pub open spec fn is_ini_space(c: char) -> bool {
    c == ' ' || c == '\t' || c == '\r'
}

/// Whether `c` occurs in `s`.
pub open spec fn has_char(s: Seq<char>, c: char) -> bool {
    exists|i: int| 0 <= i < s.len() && s[i] == c
}

/// Index of the first occurrence of `c` in `s`, or `s.len()` when absent.
pub open spec fn find_char_or(s: Seq<char>, c: char) -> int
    decreases s.len(),
{
    if s.len() == 0 {
        0
    } else if s[0] == c {
        0
    } else {
        1 + find_char_or(s.drop_first(), c)
    }
}

pub proof fn lemma_find_char_or(s: Seq<char>, c: char)
    ensures
        0 <= find_char_or(s, c) <= s.len(),
        find_char_or(s, c) < s.len() ==> s[find_char_or(s, c)] == c,
        forall|j: int| 0 <= j < find_char_or(s, c) ==> s[j] != c,
        find_char_or(s, c) == s.len() ==> !has_char(s, c),
    decreases s.len(),
{
    if s.len() > 0 && s[0] != c {
        lemma_find_char_or(s.drop_first(), c);
        let r = find_char_or(s, c);
        assert(forall|j: int| 1 <= j < r ==> s[j] == s.drop_first()[j - 1]);
        if r == s.len() && has_char(s, c) {
            let i = choose|i: int| 0 <= i < s.len() && s[i] == c;
            assert(s.drop_first()[i - 1] == c);
        }
    }
}

/// The first index has `c`, and nothing before it does, pins `find_char_or` down.
pub proof fn lemma_find_char_or_is(s: Seq<char>, c: char, i: int)
    requires
        0 <= i <= s.len(),
        forall|j: int| 0 <= j < i ==> s[j] != c,
        i < s.len() ==> s[i] == c,
    ensures
        find_char_or(s, c) == i,
    decreases s.len(),
{
    if s.len() > 0 && s[0] != c {
        assert(forall|j: int| 0 <= j < i - 1 ==> s.drop_first()[j] != c);
        lemma_find_char_or_is(s.drop_first(), c, i - 1);
    }
}

/// `s` with leading INI whitespace dropped.
pub open spec fn trim_start(s: Seq<char>) -> Seq<char>
    decreases s.len(),
{
    if s.len() > 0 && is_ini_space(s[0]) {
        trim_start(s.drop_first())
    } else {
        s
    }
}

/// `s` with trailing INI whitespace dropped.
pub open spec fn trim_end(s: Seq<char>) -> Seq<char>
    decreases s.len(),
{
    if s.len() > 0 && is_ini_space(s.last()) {
        trim_end(s.drop_last())
    } else {
        s
    }
}

/// `s` with INI whitespace dropped from both ends.
pub open spec fn trim(s: Seq<char>) -> Seq<char> {
    trim_end(trim_start(s))
}

pub proof fn lemma_trim_start_skip(s: Seq<char>, i: int)
    requires
        0 <= i <= s.len(),
        forall|j: int| 0 <= j < i ==> is_ini_space(s[j]),
        i < s.len() ==> !is_ini_space(s[i]),
    ensures
        trim_start(s) == s.skip(i),
    decreases i,
{
    if i == 0 {
        assert(s.skip(0) =~= s);
    } else {
        assert(forall|j: int| 0 <= j < i - 1 ==> is_ini_space(s.drop_first()[j]));
        lemma_trim_start_skip(s.drop_first(), i - 1);
        assert(s.drop_first().skip(i - 1) =~= s.skip(i));
    }
}

pub proof fn lemma_trim_end_take(s: Seq<char>, i: int)
    requires
        0 <= i <= s.len(),
        forall|j: int| i <= j < s.len() ==> is_ini_space(s[j]),
        i > 0 ==> !is_ini_space(s[i - 1]),
    ensures
        trim_end(s) == s.take(i),
    decreases s.len() - i,
{
    if i == s.len() {
        assert(s.take(i) =~= s);
    } else {
        assert(forall|j: int| i <= j < s.drop_last().len() ==> is_ini_space(s.drop_last()[j]));
        lemma_trim_end_take(s.drop_last(), i);
        assert(s.drop_last().take(i) =~= s.take(i));
    }
}

/// A sequence whose ends carry no INI whitespace is its own trim.
pub proof fn lemma_trim_noop(s: Seq<char>)
    requires
        s.len() > 0 ==> !is_ini_space(s[0]) && !is_ini_space(s.last()),
    ensures
        trim(s) == s,
{
    lemma_trim_start_skip(s, 0);
    assert(s.skip(0) =~= s);
    lemma_trim_end_take(s, s.len() as int);
    assert(s.take(s.len() as int) =~= s);
}

/// A trim is either empty or keeps characters of `s` with no whitespace at
/// its ends; trimming never adds characters.
pub proof fn lemma_trim_shape(s: Seq<char>)
    ensures
        trim(s).len() > 0 ==> !is_ini_space(trim(s)[0]) && !is_ini_space(trim(s).last()),
        trim(trim(s)) == trim(s),
        forall|j: int| 0 <= j < trim(s).len() ==> has_char(s, trim(s)[j]),
    decreases s.len(),
{
    lemma_trim_start_shape(s);
    lemma_trim_end_shape(trim_start(s));
    lemma_trim_noop(trim(s));
    assert forall|j: int| 0 <= j < trim(s).len() implies has_char(s, trim(s)[j]) by {
        lemma_trim_start_suffix(s);
        lemma_trim_end_prefix(trim_start(s));
        let i = choose|i: int|
            0 <= i <= s.len() && trim_start(s) == s.skip(i) && i + trim_start(s).len() == s.len();
        assert(trim(s)[j] == trim_start(s)[j]);
        assert(trim_start(s)[j] == s[i + j]);
    }
}

proof fn lemma_trim_start_shape(s: Seq<char>)
    ensures
        trim_start(s).len() > 0 ==> !is_ini_space(trim_start(s)[0]),
    decreases s.len(),
{
    if s.len() > 0 && is_ini_space(s[0]) {
        lemma_trim_start_shape(s.drop_first());
    }
}

proof fn lemma_trim_end_shape(s: Seq<char>)
    ensures
        trim_end(s).len() > 0 ==> !is_ini_space(trim_end(s).last()),
        trim_end(s).len() > 0 && s.len() > 0 && !is_ini_space(s[0]) ==> !is_ini_space(
            trim_end(s)[0],
        ),
    decreases s.len(),
{
    if s.len() > 0 && is_ini_space(s.last()) {
        lemma_trim_end_shape(s.drop_last());
    }
}

/// `trim_start(s)` is a suffix of `s`.
pub proof fn lemma_trim_start_suffix(s: Seq<char>)
    ensures
        exists|i: int|
            0 <= i <= s.len() && trim_start(s) == s.skip(i) && i + trim_start(s).len() == s.len(),
    decreases s.len(),
{
    if s.len() > 0 && is_ini_space(s[0]) {
        lemma_trim_start_suffix(s.drop_first());
        let i = choose|i: int|
            0 <= i <= s.drop_first().len() && trim_start(s.drop_first()) == s.drop_first().skip(i)
                && i + trim_start(s.drop_first()).len() == s.drop_first().len();
        assert(s.drop_first().skip(i) =~= s.skip(i + 1));
    } else {
        assert(trim_start(s) == s.skip(0));
    }
}

/// `trim_end(s)` is a prefix of `s`.
pub proof fn lemma_trim_end_prefix(s: Seq<char>)
    ensures
        trim_end(s).len() <= s.len(),
        forall|j: int| 0 <= j < trim_end(s).len() ==> trim_end(s)[j] == s[j],
    decreases s.len(),
{
    if s.len() > 0 && is_ini_space(s.last()) {
        lemma_trim_end_prefix(s.drop_last());
        assert(forall|j: int| 0 <= j < s.len() - 1 ==> s.drop_last()[j] == s[j]);
    }
}

/// Trimming never introduces a character.
pub proof fn lemma_trim_no_char(s: Seq<char>, c: char)
    requires
        !has_char(s, c),
    ensures
        !has_char(trim(s), c),
{
    lemma_trim_shape(s);
    if has_char(trim(s), c) {
        let j = choose|j: int| 0 <= j < trim(s).len() && trim(s)[j] == c;
        assert(has_char(s, trim(s)[j]));
    }
}

/// Whether `c` is whitespace that line trimming strips.
pub fn ini_space(c: char) -> (r: bool)
    ensures
        r == is_ini_space(c),
{
    c == ' ' || c == '\t' || c == '\r'
}

/// Index of the first occurrence of `c` in `s` at or after `from`, expressed
/// against the suffix `s@.skip(from)`; `s@.len()` when absent.
pub fn find_char_from(s: &str, from: usize, n: usize, c: char) -> (r: usize)
    requires
        from <= n,
        n == s@.len(),
    ensures
        from <= r <= n,
        r - from == find_char_or(s@.skip(from as int), c),
        r < n ==> s@[r as int] == c,
        forall|j: int| from <= j < r ==> s@[j] != c,
    {
    let mut i: usize = from;
    while i < n
        invariant
            from <= i <= n,
            n == s@.len(),
            forall|j: int| from <= j < i ==> s@[j] != c,
        decreases n - i,
    {
        if s.get_char(i) == c {
            proof {
                assert(forall|j: int|
                    0 <= j < i - from ==> s@.skip(from as int)[j] == s@[from + j]);
                lemma_find_char_or_is(s@.skip(from as int), c, i - from);
            }
            return i;
        }
        i = i + 1;
    }
    proof {
        assert(forall|j: int| 0 <= j < n - from ==> s@.skip(from as int)[j] == s@[from + j]);
        lemma_find_char_or_is(s@.skip(from as int), c, n - from);
    }
    n
}

/// The two pieces, joined into one owned string.
pub fn concat_strs(a: &str, b: &str) -> (r: String)
    ensures
        r@ == a@ + b@,
{
    let mut s = String::from_str(a);
    s.append(b);
    s
}

/// The trim of `s`, as a borrowed slice of it.
pub fn trim_str<'a>(s: &'a str) -> (r: &'a str)
    ensures
        r@ == trim(s@),
{
    let n: usize = s.unicode_len();
    let mut start: usize = 0;
    while start < n && ini_space(s.get_char(start))
        invariant
            start <= n,
            n == s@.len(),
            forall|j: int| 0 <= j < start ==> is_ini_space(s@[j]),
        decreases n - start,
    {
        start = start + 1;
    }
    proof {
        lemma_trim_start_skip(s@, start as int);
    }
    let mut end: usize = n;
    while end > start && ini_space(s.get_char(end - 1))
        invariant
            start <= end <= n,
            n == s@.len(),
            trim_start(s@) == s@.skip(start as int),
            forall|j: int| end <= j < n ==> is_ini_space(s@[j]),
        decreases end,
    {
        end = end - 1;
    }
    proof {
        let t = s@.skip(start as int);
        assert(forall|j: int|
            end - start <= j < t.len() ==> t[j] == s@[start + j] && is_ini_space(t[j]));
        assert(end - start > 0 ==> t[end - start - 1] == s@[end - 1]);
        lemma_trim_end_take(t, end - start);
        assert(t.take(end - start) =~= s@.subrange(start as int, end as int));
    }
    s.substring_char(start, end)
}

} // verus!
