use vstd::prelude::*;

use crate::registry::{pairs_to_map, KeeConfig, ProfileInfo, ProfileInfoV};

verus! {

/// The lowercase hex digit for `n`.
pub open spec fn hex_digit(n: int) -> char {
    if n < 10 {
        ((48 + n) as u8) as char
    } else {
        ((87 + n) as u8) as char
    }
}

/// The value of a lowercase hex digit, or 16 for any other character.
pub open spec fn unhex(c: char) -> int {
    let v = c as u32;
    if 48 <= v <= 57 {
        v - 48
    } else if 97 <= v <= 102 {
        v - 87
    } else {
        16
    }
}

/// How one character is written inside a JSON string: quote and backslash
/// escaped, the common control characters by letter, the rest of the control
/// range as `\u00..`, everything else as itself.
pub open spec fn esc_char(c: char) -> Seq<char> {
    if c == '"' {
        seq!['\\', '"']
    } else if c == '\\' {
        seq!['\\', '\\']
    } else if c == '\n' {
        seq!['\\', 'n']
    } else if c == '\r' {
        seq!['\\', 'r']
    } else if c == '\t' {
        seq!['\\', 't']
    } else if (c as u32) < 32 {
        seq!['\\', 'u', '0', '0', hex_digit((c as u32) as int / 16), hex_digit(
            (c as u32) as int % 16,
        )]
    } else {
        seq![c]
    }
}

pub open spec fn esc(s: Seq<char>) -> Seq<char>
    decreases s.len(),
{
    if s.len() == 0 {
        Seq::empty()
    } else {
        esc_char(s[0]) + esc(s.drop_first())
    }
}

/// A JSON string: the escaped characters between quotes.
pub open spec fn jstr(s: Seq<char>) -> Seq<char> {
    seq!['"'] + esc(s) + seq!['"']
}

/// A rendered profile object, fields in fixed order.
pub open spec fn spec_render_profile(p: ProfileInfoV) -> Seq<char> {
    "{\"profile_name\":"@ + jstr(p.profile_name) + ",\"sso_start_url\":"@ + jstr(p.sso_start_url)
        + ",\"sso_region\":"@ + jstr(p.sso_region) + ",\"sso_account_id\":"@ + jstr(
        p.sso_account_id,
    ) + ",\"sso_role_name\":"@ + jstr(p.sso_role_name) + ",\"session_name\":"@ + jstr(
        p.session_name,
    ) + "}"@
}

/// The rendered nickname-to-profile entries, comma-separated.
pub open spec fn spec_render_entries(es: Seq<(Seq<char>, ProfileInfoV)>) -> Seq<char>
    decreases es.len(),
{
    if es.len() == 0 {
        Seq::empty()
    } else {
        jstr(es[0].0) + seq![':'] + spec_render_profile(es[0].1) + (if es.len() > 1 {
            seq![','] + spec_render_entries(es.drop_first())
        } else {
            Seq::empty()
        })
    }
}

/// The rendered registry: the entries under `profiles`, then the current
/// pointer, a string or `null`.
pub open spec fn spec_render_registry(
    es: Seq<(Seq<char>, ProfileInfoV)>,
    cur: Option<Seq<char>>,
) -> Seq<char> {
    "{\"profiles\":{"@ + spec_render_entries(es) + seq!['}'] + ",\"current_profile\":"@ + (
    match cur {
        None => "null"@,
        Some(c) => jstr(c),
    }) + seq!['}']
}

/// The character a single-letter escape stands for, if the letter is one.
pub open spec fn short_escape(e: char) -> Option<char> {
    if e == '"' {
        Some('"')
    } else if e == '\\' {
        Some('\\')
    } else if e == 'n' {
        Some('\n')
    } else if e == 'r' {
        Some('\r')
    } else if e == 't' {
        Some('\t')
    } else if e == 'b' {
        Some('\u{8}')
    } else if e == 'f' {
        Some('\u{c}')
    } else if e == '/' {
        Some('/')
    } else {
        None
    }
}

pub open spec fn cons_parsed(c: char, r: Option<(Seq<char>, int)>) -> Option<(Seq<char>, int)> {
    match r {
        Some(p) => Some((seq![c] + p.0, p.1)),
        None => None,
    }
}

/// The characters of a JSON string after its opening quote: the decoded text
/// and the position past the closing quote. The letter escapes, `\/` and
/// `\u00..` are read back; unescaped control characters and unknown escapes
/// are malformed.
pub open spec fn parse_string_body(s: Seq<char>, i: int) -> Option<(Seq<char>, int)>
    decreases s.len() - i,
{
    if i < 0 || i >= s.len() {
        None
    } else if s[i] == '"' {
        Some((Seq::empty(), i + 1))
    } else if s[i] == '\\' {
        if i + 1 >= s.len() {
            None
        } else {
            let e = s[i + 1];
            if short_escape(e) is Some {
                cons_parsed(short_escape(e)->Some_0, parse_string_body(s, i + 2))
            } else if e == 'u' {
                if i + 5 < s.len() && s[i + 2] == '0' && s[i + 3] == '0' && unhex(s[i + 4]) < 16
                    && unhex(s[i + 5]) < 16 {
                    cons_parsed(
                        (((unhex(s[i + 4]) * 16 + unhex(s[i + 5])) as u8) as char),
                        parse_string_body(s, i + 6),
                    )
                } else {
                    None
                }
            } else {
                None
            }
        }
    } else if (s[i] as u32) < 32 {
        None
    } else {
        cons_parsed(s[i], parse_string_body(s, i + 1))
    }
}

/// A JSON string starting at `i`: the decoded text and the position past it.
pub open spec fn spec_parse_string(s: Seq<char>, i: int) -> Option<(Seq<char>, int)> {
    if 0 <= i < s.len() && s[i] == '"' {
        parse_string_body(s, i + 1)
    } else {
        None
    }
}

/// Exactly the literal `pat` at `i`: the position past it.
pub open spec fn expect(s: Seq<char>, i: int, pat: Seq<char>) -> Option<int> {
    if 0 <= i && i + pat.len() <= s.len() && s.subrange(i, i + pat.len()) == pat {
        Some(i + pat.len())
    } else {
        None
    }
}

/// A profile object at `i`, fields in the fixed rendered order.
pub open spec fn spec_parse_profile(s: Seq<char>, i: int) -> Option<(ProfileInfoV, int)> {
    match expect(s, i, "{\"profile_name\":"@) {
        None => None,
        Some(i1) => match spec_parse_string(s, i1) {
            None => None,
            Some((profile_name, i2)) => match expect(s, i2, ",\"sso_start_url\":"@) {
                None => None,
                Some(i3) => match spec_parse_string(s, i3) {
                    None => None,
                    Some((sso_start_url, i4)) => match expect(s, i4, ",\"sso_region\":"@) {
                        None => None,
                        Some(i5) => match spec_parse_string(s, i5) {
                            None => None,
                            Some((sso_region, i6)) => match expect(
                                s,
                                i6,
                                ",\"sso_account_id\":"@,
                            ) {
                                None => None,
                                Some(i7) => match spec_parse_string(s, i7) {
                                    None => None,
                                    Some((sso_account_id, i8)) => match expect(
                                        s,
                                        i8,
                                        ",\"sso_role_name\":"@,
                                    ) {
                                        None => None,
                                        Some(i9) => match spec_parse_string(s, i9) {
                                            None => None,
                                            Some((sso_role_name, i10)) => match expect(
                                                s,
                                                i10,
                                                ",\"session_name\":"@,
                                            ) {
                                                None => None,
                                                Some(i11) => match spec_parse_string(s, i11) {
                                                    None => None,
                                                    Some((session_name, i12)) => match expect(
                                                        s,
                                                        i12,
                                                        "}"@,
                                                    ) {
                                                        None => None,
                                                        Some(i13) => Some(
                                                            (
                                                                ProfileInfoV {
                                                                    profile_name,
                                                                    sso_start_url,
                                                                    sso_region,
                                                                    sso_account_id,
                                                                    sso_role_name,
                                                                    session_name,
                                                                },
                                                                i13,
                                                            ),
                                                        ),
                                                    },
                                                },
                                            },
                                        },
                                    },
                                },
                            },
                        },
                    },
                },
            },
        },
    }
}

pub proof fn lemma_parse_body_bounds(s: Seq<char>, i: int)
    ensures
        parse_string_body(s, i) matches Some(p) ==> i < p.1 <= s.len(),
    decreases s.len() - i,
{
    if 0 <= i < s.len() {
        if s[i] == '\\' && i + 1 < s.len() {
            lemma_parse_body_bounds(s, i + 2);
            if i + 5 < s.len() {
                lemma_parse_body_bounds(s, i + 6);
            }
        } else {
            lemma_parse_body_bounds(s, i + 1);
        }
    }
}

pub proof fn lemma_parse_string_bounds(s: Seq<char>, i: int)
    ensures
        spec_parse_string(s, i) matches Some(p) ==> i < p.1 <= s.len(),
{
    if 0 <= i < s.len() && s[i] == '"' {
        lemma_parse_body_bounds(s, i + 1);
    }
}

pub proof fn lemma_parse_profile_bounds(s: Seq<char>, i: int)
    ensures
        spec_parse_profile(s, i) matches Some(p) ==> i < p.1 <= s.len(),
{
    let i1 = expect(s, i, "{\"profile_name\":"@)->Some_0;
    lemma_parse_string_bounds(s, i1);
    let i2 = spec_parse_string(s, i1)->Some_0.1;
    let i3 = expect(s, i2, ",\"sso_start_url\":"@)->Some_0;
    lemma_parse_string_bounds(s, i3);
    let i4 = spec_parse_string(s, i3)->Some_0.1;
    let i5 = expect(s, i4, ",\"sso_region\":"@)->Some_0;
    lemma_parse_string_bounds(s, i5);
    let i6 = spec_parse_string(s, i5)->Some_0.1;
    let i7 = expect(s, i6, ",\"sso_account_id\":"@)->Some_0;
    lemma_parse_string_bounds(s, i7);
    let i8 = spec_parse_string(s, i7)->Some_0.1;
    let i9 = expect(s, i8, ",\"sso_role_name\":"@)->Some_0;
    lemma_parse_string_bounds(s, i9);
    let i10 = spec_parse_string(s, i9)->Some_0.1;
    let i11 = expect(s, i10, ",\"session_name\":"@)->Some_0;
    lemma_parse_string_bounds(s, i11);
}

/// The entries of the `profiles` object from `i` to its closing brace: the
/// parsed pairs and the position past the brace.
pub open spec fn spec_parse_entries(s: Seq<char>, i: int) -> Option<
    (Seq<(Seq<char>, ProfileInfoV)>, int),
>
    decreases s.len() - i via spec_parse_entries_dec
{
    if i < 0 || i >= s.len() {
        None
    } else if s[i] == '}' {
        Some((Seq::empty(), i + 1))
    } else {
        match spec_parse_string(s, i) {
            None => None,
            Some((nick, j1)) => {
                if j1 < s.len() && s[j1] == ':' {
                    match spec_parse_profile(s, j1 + 1) {
                        None => None,
                        Some((p, j2)) => {
                            if j2 < s.len() && s[j2] == ',' {
                                match spec_parse_entries(s, j2 + 1) {
                                    None => None,
                                    Some((rest, j3)) => Some((seq![(nick, p)] + rest, j3)),
                                }
                            } else if j2 < s.len() && s[j2] == '}' {
                                Some((seq![(nick, p)], j2 + 1))
                            } else {
                                None
                            }
                        },
                    }
                } else {
                    None
                }
            },
        }
    }
}

#[via_fn]
proof fn spec_parse_entries_dec(s: Seq<char>, i: int) {
    lemma_parse_string_bounds(s, i);
    let j1 = spec_parse_string(s, i)->Some_0.1;
    lemma_parse_profile_bounds(s, j1 + 1);
}

/// The whole registry file, strictly: nothing but the rendered shape, the
/// entire text consumed.
pub open spec fn spec_parse_registry(s: Seq<char>) -> Option<
    (Seq<(Seq<char>, ProfileInfoV)>, Option<Seq<char>>),
> {
    match expect(s, 0, "{\"profiles\":{"@) {
        None => None,
        Some(i1) => match spec_parse_entries(s, i1) {
            None => None,
            Some((es, i2)) => match expect(s, i2, ",\"current_profile\":"@) {
                None => None,
                Some(i3) => {
                    if i3 < s.len() && s[i3] == '"' {
                        match spec_parse_string(s, i3) {
                            None => None,
                            Some((cur, i4)) => {
                                if i4 < s.len() && s[i4] == '}' && i4 + 1 == s.len() {
                                    Some((es, Some(cur)))
                                } else {
                                    None
                                }
                            },
                        }
                    } else {
                        match expect(s, i3, "null"@) {
                            None => None,
                            Some(i4) => {
                                if i4 < s.len() && s[i4] == '}' && i4 + 1 == s.len() {
                                    Some((es, None))
                                } else {
                                    None
                                }
                            },
                        }
                    }
                },
            },
        },
    }
}

/// The suffix of `s` from `i` on.
pub open spec fn tail_from(s: Seq<char>, i: int) -> Seq<char> {
    s.subrange(i, s.len() as int)
}

/// Splitting a known suffix at a concatenation boundary.
proof fn lemma_tail_split(s: Seq<char>, i: int, a: Seq<char>, b: Seq<char>)
    requires
        0 <= i <= s.len(),
        tail_from(s, i) == a + b,
    ensures
        i + a.len() + b.len() == s.len(),
        s.subrange(i, i + a.len()) == a,
        tail_from(s, i + a.len()) == b,
        forall|j: int| 0 <= j < a.len() ==> s[i + j] == a[j],
        a.len() > 0 ==> s[i] == a[0],
{
    assert(tail_from(s, i).len() == s.len() - i);
    assert(tail_from(s, i).len() == a.len() + b.len());
    if a.len() > 0 {
        assert(tail_from(s, i)[0] == s[i]);
        assert((a + b)[0] == a[0]);
    }
    assert forall|j: int| 0 <= j < a.len() implies s[i + j] == a[j] by {
        assert(tail_from(s, i)[j] == s[i + j]);
        assert((a + b)[j] == a[j]);
    }
    assert forall|j: int| 0 <= j < b.len() implies s[i + a.len() + j] == b[j] by {
        assert(tail_from(s, i)[a.len() + j] == s[i + a.len() + j]);
        assert((a + b)[a.len() + j] == b[j]);
    }
    assert(s.subrange(i, i + a.len()) =~= a);
    assert(tail_from(s, i + a.len()) =~= b);
}

/// A literal that stands at `i` is found there.
proof fn lemma_expect_at(s: Seq<char>, i: int, pat: Seq<char>, rest: Seq<char>)
    requires
        0 <= i <= s.len(),
        tail_from(s, i) == pat + rest,
    ensures
        expect(s, i, pat) == Some(i + pat.len()),
        tail_from(s, i + pat.len()) == rest,
{
    lemma_tail_split(s, i, pat, rest);
}

/// Reading a hex digit back gives the value it was written for.
proof fn lemma_unhex_hex(n: int)
    requires
        0 <= n < 16,
    ensures
        unhex(hex_digit(n)) == n,
{
    if n < 10 {
        assert((((48 + n) as u8) as char) as u32 == 48 + n);
    } else {
        assert((((87 + n) as u8) as char) as u32 == 87 + n);
    }
}

/// Decoding finds exactly the text that escaping wrote.
proof fn lemma_parse_body_complete(s: Seq<char>, i: int, text: Seq<char>, rest: Seq<char>)
    requires
        0 <= i <= s.len(),
        tail_from(s, i) == esc(text) + seq!['"'] + rest,
    ensures
        parse_string_body(s, i) == Some((text, i + esc(text).len() + 1)),
    decreases text.len(),
{
    if text.len() == 0 {
        assert(esc(text) =~= Seq::<char>::empty());
        assert(tail_from(s, i) =~= seq!['"'] + rest);
        lemma_tail_split(s, i, seq!['"'], rest);
        assert(s[i] == '"');
        assert(text =~= Seq::<char>::empty());
    } else {
        let c = text[0];
        let t2 = text.drop_first();
        assert(esc(text) == esc_char(c) + esc(t2));
        let restall = esc(t2) + seq!['"'] + rest;
        assert(tail_from(s, i) =~= esc_char(c) + restall);
        lemma_tail_split(s, i, esc_char(c), restall);
        let i2 = i + esc_char(c).len();
        lemma_parse_body_complete(s, i2, t2, rest);
        assert(seq![c] + t2 =~= text);
        if c == '"' {
            assert(s[i] == '\\' && s[i + 1] == '"');
            assert(parse_string_body(s, i) == cons_parsed('"', parse_string_body(s, i + 2)));
        } else if c == '\\' {
            assert(s[i] == '\\' && s[i + 1] == '\\');
            assert(parse_string_body(s, i) == cons_parsed('\\', parse_string_body(s, i + 2)));
        } else if c == '\n' {
            assert(s[i] == '\\' && s[i + 1] == 'n');
            assert(parse_string_body(s, i) == cons_parsed('\n', parse_string_body(s, i + 2)));
        } else if c == '\r' {
            assert(s[i] == '\\' && s[i + 1] == 'r');
            assert(parse_string_body(s, i) == cons_parsed('\r', parse_string_body(s, i + 2)));
        } else if c == '\t' {
            assert(s[i] == '\\' && s[i + 1] == 't');
            assert(parse_string_body(s, i) == cons_parsed('\t', parse_string_body(s, i + 2)));
        } else if (c as u32) < 32 {
            let cv = (c as u32) as int;
            assert(s[i] == '\\' && s[i + 1] == 'u' && s[i + 2] == '0' && s[i + 3] == '0');
            assert(s[i + 4] == hex_digit(cv / 16) && s[i + 5] == hex_digit(cv % 16));
            lemma_unhex_hex(cv / 16);
            lemma_unhex_hex(cv % 16);
            assert(unhex(s[i + 4]) * 16 + unhex(s[i + 5]) == cv);
            assert(((cv as u8) as char) == c) by {
                vstd::utf8::char_u32_cast(c, c as u32);
                assert((cv as u8) as u32 == c as u32);
            }
            assert(i + 5 < s.len());
            assert(parse_string_body(s, i) == cons_parsed(c, parse_string_body(s, i + 6)));
        } else {
            assert(esc_char(c) =~= seq![c]);
            assert(s[i] == c);
            assert(parse_string_body(s, i) == cons_parsed(c, parse_string_body(s, i + 1)));
        }
    }
}

/// Parsing finds exactly the string that rendering wrote.
proof fn lemma_parse_string_complete(s: Seq<char>, i: int, text: Seq<char>, rest: Seq<char>)
    requires
        0 <= i <= s.len(),
        tail_from(s, i) == jstr(text) + rest,
    ensures
        spec_parse_string(s, i) == Some((text, i + jstr(text).len())),
        tail_from(s, i + jstr(text).len()) == rest,
        s[i] == '"',
        i + jstr(text).len() <= s.len(),
{
    assert(tail_from(s, i) =~= seq!['"'] + (esc(text) + seq!['"'] + rest));
    lemma_tail_split(s, i, seq!['"'], esc(text) + seq!['"'] + rest);
    assert(s[i] == '"');
    lemma_parse_body_complete(s, i + 1, text, rest);
    lemma_tail_split(s, i, jstr(text), rest);
}

/// One `"key":` literal and its string value, read back.
proof fn lemma_field_complete(s: Seq<char>, i: int, lit: Seq<char>, text: Seq<char>, rest: Seq<char>)
    requires
        0 <= i <= s.len(),
        tail_from(s, i) == lit + (jstr(text) + rest),
    ensures
        expect(s, i, lit) == Some(i + lit.len()),
        spec_parse_string(s, i + lit.len()) == Some((text, i + lit.len() + jstr(text).len())),
        tail_from(s, i + lit.len() + jstr(text).len()) == rest,
        i + lit.len() + jstr(text).len() <= s.len(),
{
    lemma_expect_at(s, i, lit, jstr(text) + rest);
    lemma_parse_string_complete(s, i + lit.len(), text, rest);
}

/// Parsing finds exactly the profile that rendering wrote.
#[verifier::rlimit(50)]
proof fn lemma_parse_profile_complete(s: Seq<char>, i: int, p: ProfileInfoV, rest: Seq<char>)
    requires
        0 <= i <= s.len(),
        tail_from(s, i) == spec_render_profile(p) + rest,
    ensures
        spec_parse_profile(s, i) == Some((p, i + spec_render_profile(p).len())),
        tail_from(s, i + spec_render_profile(p).len()) == rest,
        i + spec_render_profile(p).len() <= s.len(),
{
    let r_end = "}"@ + rest;
    let r5 = ",\"session_name\":"@ + (jstr(p.session_name) + r_end);
    let r4 = ",\"sso_role_name\":"@ + (jstr(p.sso_role_name) + r5);
    let r3 = ",\"sso_account_id\":"@ + (jstr(p.sso_account_id) + r4);
    let r2 = ",\"sso_region\":"@ + (jstr(p.sso_region) + r3);
    let r1 = ",\"sso_start_url\":"@ + (jstr(p.sso_start_url) + r2);
    assert(tail_from(s, i) =~= "{\"profile_name\":"@ + (jstr(p.profile_name) + r1));
    lemma_field_complete(s, i, "{\"profile_name\":"@, p.profile_name, r1);
    let j1 = i + "{\"profile_name\":"@.len() + jstr(p.profile_name).len();
    lemma_field_complete(s, j1, ",\"sso_start_url\":"@, p.sso_start_url, r2);
    let j2 = j1 + ",\"sso_start_url\":"@.len() + jstr(p.sso_start_url).len();
    lemma_field_complete(s, j2, ",\"sso_region\":"@, p.sso_region, r3);
    let j3 = j2 + ",\"sso_region\":"@.len() + jstr(p.sso_region).len();
    lemma_field_complete(s, j3, ",\"sso_account_id\":"@, p.sso_account_id, r4);
    let j4 = j3 + ",\"sso_account_id\":"@.len() + jstr(p.sso_account_id).len();
    lemma_field_complete(s, j4, ",\"sso_role_name\":"@, p.sso_role_name, r5);
    let j5 = j4 + ",\"sso_role_name\":"@.len() + jstr(p.sso_role_name).len();
    lemma_field_complete(s, j5, ",\"session_name\":"@, p.session_name, r_end);
    let j6 = j5 + ",\"session_name\":"@.len() + jstr(p.session_name).len();
    lemma_expect_at(s, j6, "}"@, rest);
    assert(spec_render_profile(p).len() == j6 + "}"@.len() - i);
}

/// Parsing finds exactly the entry list that rendering wrote, up to the
/// closing brace of the `profiles` object.
#[verifier::rlimit(100)]
proof fn lemma_parse_entries_complete(
    s: Seq<char>,
    i: int,
    es: Seq<(Seq<char>, ProfileInfoV)>,
    rest: Seq<char>,
)
    requires
        0 <= i <= s.len(),
        tail_from(s, i) == spec_render_entries(es) + (seq!['}'] + rest),
    ensures
        spec_parse_entries(s, i) == Some((es, i + spec_render_entries(es).len() + 1)),
        tail_from(s, i + spec_render_entries(es).len() + 1) == rest,
        i + spec_render_entries(es).len() + 1 <= s.len(),
    decreases es.len(),
{
    if es.len() == 0 {
        assert(spec_render_entries(es) =~= Seq::<char>::empty());
        assert(tail_from(s, i) =~= seq!['}'] + rest);
        lemma_tail_split(s, i, seq!['}'], rest);
        assert(s[i] == '}');
        assert(es =~= Seq::<(Seq<char>, ProfileInfoV)>::empty());
    } else {
        let e0 = es[0];
        if es.len() == 1 {
            let r1 = seq![':'] + (spec_render_profile(e0.1) + (seq!['}'] + rest));
            assert(spec_render_entries(es) =~= jstr(e0.0) + seq![':'] + spec_render_profile(e0.1));
            assert(tail_from(s, i) =~= jstr(e0.0) + r1);
            lemma_parse_string_complete(s, i, e0.0, r1);
            let j1 = i + jstr(e0.0).len();
            lemma_tail_split(s, j1, seq![':'], spec_render_profile(e0.1) + (seq!['}'] + rest));
            assert(s[j1] == ':');
            lemma_parse_profile_complete(s, j1 + 1, e0.1, seq!['}'] + rest);
            let j2 = j1 + 1 + spec_render_profile(e0.1).len();
            lemma_tail_split(s, j2, seq!['}'], rest);
            assert(s[j2] == '}');
            assert(s[i] == '"' && s[i] != '}');
            assert((e0.0, e0.1) == e0);
            assert(seq![(e0.0, e0.1)] =~= es);
        } else {
            let restes = es.drop_first();
            let after = spec_render_entries(restes) + (seq!['}'] + rest);
            let r1 = seq![':'] + (spec_render_profile(e0.1) + (seq![','] + after));
            assert(spec_render_entries(es) =~= jstr(e0.0) + seq![':'] + spec_render_profile(e0.1)
                + seq![','] + spec_render_entries(restes));
            assert(tail_from(s, i) =~= jstr(e0.0) + r1);
            lemma_parse_string_complete(s, i, e0.0, r1);
            let j1 = i + jstr(e0.0).len();
            lemma_tail_split(s, j1, seq![':'], spec_render_profile(e0.1) + (seq![','] + after));
            assert(s[j1] == ':');
            lemma_parse_profile_complete(s, j1 + 1, e0.1, seq![','] + after);
            let j2 = j1 + 1 + spec_render_profile(e0.1).len();
            lemma_tail_split(s, j2, seq![','], after);
            assert(s[j2] == ',');
            lemma_parse_entries_complete(s, j2 + 1, restes, rest);
            assert(s[i] == '"' && s[i] != '}');
            assert((e0.0, e0.1) == e0);
            assert(seq![(e0.0, e0.1)] + restes =~= es);
        }
    }
}

/// Law: the registry's JSON round-trips losslessly: parsing what rendering
/// wrote yields exactly the same entries, in order, and the same current
/// pointer, whatever strings the registry holds.
#[verifier::rlimit(100)]
pub proof fn lemma_registry_json_round_trip(
    es: Seq<(Seq<char>, ProfileInfoV)>,
    cur: Option<Seq<char>>,
)
    ensures
        spec_parse_registry(spec_render_registry(es, cur)) == Some((es, cur)),
{
    let s = spec_render_registry(es, cur);
    let curpart = match cur {
        None => "null"@,
        Some(c) => jstr(c),
    };
    let after_entries = ",\"current_profile\":"@ + (curpart + seq!['}']);
    assert(tail_from(s, 0) =~= s);
    assert(tail_from(s, 0) =~= "{\"profiles\":{"@ + (spec_render_entries(es) + (seq!['}']
        + after_entries)));
    lemma_expect_at(s, 0, "{\"profiles\":{"@, spec_render_entries(es) + (seq!['}']
        + after_entries));
    let i1 = "{\"profiles\":{"@.len() as int;
    lemma_parse_entries_complete(s, i1, es, after_entries);
    let i2 = i1 + spec_render_entries(es).len() + 1;
    lemma_expect_at(s, i2, ",\"current_profile\":"@, curpart + seq!['}']);
    let i3 = i2 + ",\"current_profile\":"@.len();
    match cur {
        Some(c) => {
            lemma_parse_string_complete(s, i3, c, seq!['}']);
            let i4 = i3 + jstr(c).len();
            assert(tail_from(s, i4) =~= seq!['}'] + Seq::<char>::empty());
            lemma_tail_split(s, i4, seq!['}'], Seq::<char>::empty());
            assert(s[i4] == '}');
            assert(i4 + 1 == s.len());
        },
        None => {
            reveal_strlit("null");
            assert(tail_from(s, i3) =~= "null"@ + seq!['}']);
            lemma_expect_at(s, i3, "null"@, seq!['}']);
            lemma_tail_split(s, i3, "null"@, seq!['}']);
            assert(s[i3] == "null"@[0]);
            assert(s[i3] != '"');
            let i4 = i3 + "null"@.len();
            assert(tail_from(s, i4) =~= seq!['}'] + Seq::<char>::empty());
            lemma_tail_split(s, i4, seq!['}'], Seq::<char>::empty());
            assert(s[i4] == '}');
            assert(i4 + 1 == s.len());
        },
    }
}

/// Relies on String::push: appends exactly the one character.
#[verifier::external_body]
fn push_char(s: &mut String, c: char)
    ensures
        final(s)@ == old(s)@ + seq![c],
{
    s.push(c);
}

/// The character a single-letter escape stands for, if the letter is one.
fn short_escape_exec(e: char) -> (r: Option<char>)
    ensures
        r == short_escape(e),
{
    if e == '"' {
        Some('"')
    } else if e == '\\' {
        Some('\\')
    } else if e == 'n' {
        Some('\n')
    } else if e == 'r' {
        Some('\r')
    } else if e == 't' {
        Some('\t')
    } else if e == 'b' {
        Some('\u{8}')
    } else if e == 'f' {
        Some('\u{c}')
    } else if e == '/' {
        Some('/')
    } else {
        None
    }
}

/// The lowercase hex digit for `n`.
fn hex_digit_exec(n: u8) -> (r: char)
    requires
        n < 16,
    ensures
        r == hex_digit(n as int),
{
    if n < 10 {
        (48 + n) as char
    } else {
        (87 + n) as char
    }
}

/// The value of a lowercase hex digit, 16 for any other character.
fn unhex_exec(c: char) -> (r: u8)
    ensures
        r as int == unhex(c),
{
    let v = c as u32;
    if 48 <= v && v <= 57 {
        (v - 48) as u8
    } else if 97 <= v && v <= 102 {
        (v - 87) as u8
    } else {
        16
    }
}

/// Writes `text` as a JSON string, quotes and escapes included.
fn render_string_into(out: &mut String, text: &str)
    ensures
        final(out)@ == old(out)@ + jstr(text@),
{
    let ghost whole = old(out)@ + jstr(text@);
    push_char(out, '"');
    let n = text.unicode_len();
    let mut i: usize = 0;
    proof {
        assert(text@.skip(0) =~= text@);
        assert(out@ + esc(text@.skip(0)) + seq!['"'] =~= whole);
    }
    while i < n
        invariant
            i <= n,
            n == text@.len(),
            whole == old(out)@ + jstr(text@),
            out@ + esc(text@.skip(i as int)) + seq!['"'] == whole,
        decreases n - i,
    {
        let ghost tail = text@.skip(i as int);
        proof {
            assert(tail[0] == text@[i as int]);
            assert(tail.drop_first() =~= text@.skip(i as int + 1));
            assert(esc(tail) == esc_char(text@[i as int]) + esc(text@.skip(i as int + 1)));
        }
        let c = text.get_char(i);
        if c == '"' {
            push_char(out, '\\');
            push_char(out, '"');
        } else if c == '\\' {
            push_char(out, '\\');
            push_char(out, '\\');
        } else if c == '\n' {
            push_char(out, '\\');
            push_char(out, 'n');
        } else if c == '\r' {
            push_char(out, '\\');
            push_char(out, 'r');
        } else if c == '\t' {
            push_char(out, '\\');
            push_char(out, 't');
        } else if (c as u32) < 32 {
            let v = (c as u32) as u8;
            push_char(out, '\\');
            push_char(out, 'u');
            push_char(out, '0');
            push_char(out, '0');
            push_char(out, hex_digit_exec(v / 16));
            push_char(out, hex_digit_exec(v % 16));
            proof {
                assert(v as int == (c as u32) as int);
                assert(esc_char(c)[4] == hex_digit(v as int / 16));
                assert(esc_char(c)[5] == hex_digit(v as int % 16));
            }
        } else {
            push_char(out, c);
        }
        proof {
            assert(out@ + esc(text@.skip(i as int + 1)) + seq!['"'] =~= whole);
        }
        i = i + 1;
    }
    proof {
        assert(text@.skip(n as int) =~= Seq::<char>::empty());
        assert(esc(Seq::<char>::empty()) =~= Seq::<char>::empty());
    }
    push_char(out, '"');
    proof {
        assert(out@ =~= whole);
    }
}

/// Writes one profile object.
fn render_profile_into(out: &mut String, p: &ProfileInfo)
    ensures
        final(out)@ == old(out)@ + spec_render_profile(p@),
{
    out.append("{\"profile_name\":");
    render_string_into(out, p.profile_name.as_str());
    out.append(",\"sso_start_url\":");
    render_string_into(out, p.sso_start_url.as_str());
    out.append(",\"sso_region\":");
    render_string_into(out, p.sso_region.as_str());
    out.append(",\"sso_account_id\":");
    render_string_into(out, p.sso_account_id.as_str());
    out.append(",\"sso_role_name\":");
    render_string_into(out, p.sso_role_name.as_str());
    out.append(",\"session_name\":");
    render_string_into(out, p.session_name.as_str());
    out.append("}");
    proof {
        assert(out@ =~= old(out)@ + spec_render_profile(p@));
    }
}

/// Renders the registry to its JSON text.
pub fn registry_to_json(cfg: &KeeConfig) -> (r: String)
    ensures
        r@ == spec_render_registry(cfg.profiles.entries_view(), cfg@.current_profile),
{
    let ghost es = cfg.profiles.entries_view();
    let mut out = String::from_str("{\"profiles\":{");
    let n = cfg.profiles.entries.len();
    let mut i: usize = 0;
    proof {
        assert(es.skip(0) =~= es);
        assert(out@ + spec_render_entries(es.skip(0)) =~= "{\"profiles\":{"@ + spec_render_entries(
            es,
        ));
    }
    while i < n
        invariant
            i <= n,
            n == cfg.profiles.entries.len(),
            es == cfg.profiles.entries_view(),
            es.len() == n,
            out@ + spec_render_entries(es.skip(i as int)) == "{\"profiles\":{"@
                + spec_render_entries(es),
        decreases n - i,
    {
        let ghost tail = es.skip(i as int);
        proof {
            assert(tail[0] == es[i as int]);
            assert(tail.drop_first() =~= es.skip(i as int + 1));
            assert(es[i as int] == (cfg.profiles.entries@[i as int].0@, cfg.profiles.entries@[
                i as int].1@));
        }
        let entry = &cfg.profiles.entries[i];
        render_string_into(&mut out, entry.0.as_str());
        push_char(&mut out, ':');
        render_profile_into(&mut out, &entry.1);
        if i + 1 < n {
            push_char(&mut out, ',');
            proof {
                assert(tail.len() > 1);
                assert(out@ + spec_render_entries(es.skip(i as int + 1)) =~= "{\"profiles\":{"@
                    + spec_render_entries(es));
            }
        } else {
            proof {
                assert(tail.len() == 1);
                assert(es.skip(i as int + 1) =~= Seq::<(Seq<char>, ProfileInfoV)>::empty());
                assert(spec_render_entries(es.skip(i as int + 1)) =~= Seq::<char>::empty());
                assert(out@ + spec_render_entries(es.skip(i as int + 1)) =~= "{\"profiles\":{"@
                    + spec_render_entries(es));
            }
        }
        i = i + 1;
    }
    proof {
        assert(es.skip(n as int) =~= Seq::<(Seq<char>, ProfileInfoV)>::empty());
        assert(spec_render_entries(es.skip(n as int)) =~= Seq::<char>::empty());
        assert(out@ =~= "{\"profiles\":{"@ + spec_render_entries(es));
    }
    push_char(&mut out, '}');
    out.append(",\"current_profile\":");
    match &cfg.current_profile {
        Some(c) => {
            render_string_into(&mut out, c.as_str());
        },
        None => {
            out.append("null");
        },
    }
    push_char(&mut out, '}');
    proof {
        assert(out@ =~= spec_render_registry(es, cfg@.current_profile));
    }
    out
}

/// Exactly the literal `pat` at `i`, or nothing.
fn expect_lit(s: &str, i: usize, n: usize, pat: &str) -> (r: Option<usize>)
    requires
        n == s@.len(),
        i <= n,
    ensures
        match r {
            Some(j) => expect(s@, i as int, pat@) == Some(j as int) && i <= j <= n,
            None => expect(s@, i as int, pat@) is None,
        },
{
    let m = pat.unicode_len();
    if n - i < m {
        return None;
    }
    let mut j: usize = 0;
    while j < m
        invariant
            j <= m,
            m == pat@.len(),
            n == s@.len(),
            i + m <= n,
            forall|t: int| 0 <= t < j ==> s@[i + t] == pat@[t],
        decreases m - j,
    {
        if s.get_char(i + j) != pat.get_char(j) {
            proof {
                assert(s@.subrange(i as int, i as int + m) != pat@) by {
                    if s@.subrange(i as int, i as int + m) == pat@ {
                        assert(s@.subrange(i as int, i as int + m)[j as int] == s@[i + j]);
                    }
                }
            }
            return None;
        }
        j = j + 1;
    }
    proof {
        assert(s@.subrange(i as int, i as int + m) =~= pat@);
    }
    Some(i + m)
}

/// A JSON string at `i`: its decoded text and the position past it.
fn parse_string_at(s: &str, i: usize, n: usize) -> (r: Option<(String, usize)>)
    requires
        n == s@.len(),
        i <= n,
    ensures
        match r {
            Some(p) => spec_parse_string(s@, i as int) == Some((p.0@, p.1 as int)) && i < p.1 <= n,
            None => spec_parse_string(s@, i as int) is None,
        },
{
    if i >= n || s.get_char(i) != '"' {
        return None;
    }
    proof {
        lemma_parse_body_bounds(s@, i as int + 1);
    }
    parse_body_at(s, i + 1, n)
}

/// The body of a JSON string: its decoded text and the position past the
/// closing quote.
fn parse_body_at(s: &str, i: usize, n: usize) -> (r: Option<(String, usize)>)
    requires
        n == s@.len(),
        i <= n,
    ensures
        match r {
            Some(p) => parse_string_body(s@, i as int) == Some((p.0@, p.1 as int)) && i < p.1 <= n,
            None => parse_string_body(s@, i as int) is None,
        },
    decreases n - i,
{
    if i >= n {
        return None;
    }
    let c = s.get_char(i);
    if c == '"' {
        let out = String::new();
        proof {
            assert(out@ =~= Seq::<char>::empty());
        }
        return Some((out, i + 1));
    }
    if c == '\\' {
        if i + 1 >= n {
            return None;
        }
        let e = s.get_char(i + 1);
        if let Some(d) = short_escape_exec(e) {
            match parse_body_at(s, i + 2, n) {
                Some((rest, j)) => {
                    let mut out = String::new();
                    push_char(&mut out, d);
                    out.append(rest.as_str());
                    proof {
                        assert(out@ =~= seq![d] + rest@);
                    }
                    Some((out, j))
                },
                None => None,
            }
        } else if e == 'u' {
            proof {
                assert(short_escape(e) is None);
            }
            if n - i > 5 && s.get_char(i + 2) == '0' && s.get_char(i + 3) == '0' {
                let hi = unhex_exec(s.get_char(i + 4));
                let lo = unhex_exec(s.get_char(i + 5));
                if hi < 16 && lo < 16 {
                    let d: char = (hi * 16 + lo) as char;
                    match parse_body_at(s, i + 6, n) {
                        Some((rest, j)) => {
                            let mut out = String::new();
                            push_char(&mut out, d);
                            out.append(rest.as_str());
                            proof {
                                assert(out@ =~= seq![d] + rest@);
                            }
                            Some((out, j))
                        },
                        None => None,
                    }
                } else {
                    None
                }
            } else {
                None
            }
        } else {
            None
        }
    } else if (c as u32) < 32 {
        None
    } else {
        match parse_body_at(s, i + 1, n) {
            Some((rest, j)) => {
                let mut out = String::new();
                push_char(&mut out, c);
                out.append(rest.as_str());
                proof {
                    assert(out@ =~= seq![c] + rest@);
                }
                Some((out, j))
            },
            None => None,
        }
    }
}

/// A profile object at `i`: the profile and the position past it.
fn parse_profile_at(s: &str, i: usize, n: usize) -> (r: Option<(ProfileInfo, usize)>)
    requires
        n == s@.len(),
        i <= n,
    ensures
        match r {
            Some(p) => spec_parse_profile(s@, i as int) == Some((p.0@, p.1 as int)) && i < p.1
                <= n,
            None => spec_parse_profile(s@, i as int) is None,
        },
{
    let i1 = match expect_lit(s, i, n, "{\"profile_name\":") {
        Some(j) => j,
        None => {
            return None;
        },
    };
    let (profile_name, i2) = match parse_string_at(s, i1, n) {
        Some(p) => p,
        None => {
            return None;
        },
    };
    let i3 = match expect_lit(s, i2, n, ",\"sso_start_url\":") {
        Some(j) => j,
        None => {
            return None;
        },
    };
    let (sso_start_url, i4) = match parse_string_at(s, i3, n) {
        Some(p) => p,
        None => {
            return None;
        },
    };
    let i5 = match expect_lit(s, i4, n, ",\"sso_region\":") {
        Some(j) => j,
        None => {
            return None;
        },
    };
    let (sso_region, i6) = match parse_string_at(s, i5, n) {
        Some(p) => p,
        None => {
            return None;
        },
    };
    let i7 = match expect_lit(s, i6, n, ",\"sso_account_id\":") {
        Some(j) => j,
        None => {
            return None;
        },
    };
    let (sso_account_id, i8) = match parse_string_at(s, i7, n) {
        Some(p) => p,
        None => {
            return None;
        },
    };
    let i9 = match expect_lit(s, i8, n, ",\"sso_role_name\":") {
        Some(j) => j,
        None => {
            return None;
        },
    };
    let (sso_role_name, i10) = match parse_string_at(s, i9, n) {
        Some(p) => p,
        None => {
            return None;
        },
    };
    let i11 = match expect_lit(s, i10, n, ",\"session_name\":") {
        Some(j) => j,
        None => {
            return None;
        },
    };
    let (session_name, i12) = match parse_string_at(s, i11, n) {
        Some(p) => p,
        None => {
            return None;
        },
    };
    let i13 = match expect_lit(s, i12, n, "}") {
        Some(j) => j,
        None => {
            return None;
        },
    };
    Some(
        (
            ProfileInfo {
                profile_name,
                sso_start_url,
                sso_region,
                sso_account_id,
                sso_role_name,
                session_name,
            },
            i13,
        ),
    )
}

/// The entries of the `profiles` object at `i`, up to and past its closing
/// brace.
fn parse_entries_at(s: &str, i: usize, n: usize) -> (r: Option<(Vec<(String, ProfileInfo)>, usize)>)
    requires
        n == s@.len(),
        i <= n,
    ensures
        match r {
            Some(p) => spec_parse_entries(s@, i as int) == Some(
                (p.0@.map(|t: int, e: (String, ProfileInfo)| (e.0@, e.1@)), p.1 as int),
            ) && i < p.1 <= n,
            None => spec_parse_entries(s@, i as int) is None,
        },
    decreases n - i,
{
    if i >= n {
        return None;
    }
    if s.get_char(i) == '}' {
        let out: Vec<(String, ProfileInfo)> = Vec::new();
        proof {
            assert(out@.map(|t: int, e: (String, ProfileInfo)| (e.0@, e.1@)) =~= Seq::<
                (Seq<char>, ProfileInfoV),
            >::empty());
        }
        return Some((out, i + 1));
    }
    let (nick, j1) = match parse_string_at(s, i, n) {
        Some(p) => p,
        None => {
            return None;
        },
    };
    if j1 >= n || s.get_char(j1) != ':' {
        return None;
    }
    let (profile, j2) = match parse_profile_at(s, j1 + 1, n) {
        Some(p) => p,
        None => {
            return None;
        },
    };
    if j2 < n && s.get_char(j2) == ',' {
        match parse_entries_at(s, j2 + 1, n) {
            Some((rest, j3)) => {
                let mut out: Vec<(String, ProfileInfo)> = Vec::new();
                out.push((nick, profile));
                let mut t: usize = 0;
                let ghost restv = rest@;
                while t < rest.len()
                    invariant
                        t <= rest.len(),
                        restv == rest@,
                        out@.len() == t + 1,
                        out@[0] == (nick, profile),
                        forall|u: int| 0 <= u < t ==> out@[u + 1] == restv[u],
                    decreases rest.len() - t,
                {
                    let pair = &rest[t];
                    out.push((pair.0.clone(), clone_profile(&pair.1)));
                    proof {
                        assert(out@[t as int + 1] == (rest@[t as int].0, rest@[t as int].1));
                        assert(out@[t as int + 1] == restv[t as int]);
                    }
                    t = t + 1;
                }
                proof {
                    assert(out@.map(|u: int, e: (String, ProfileInfo)| (e.0@, e.1@)) =~= seq![
                        (nick@, profile@),
                    ] + restv.map(|u: int, e: (String, ProfileInfo)| (e.0@, e.1@)));
                }
                Some((out, j3))
            },
            None => None,
        }
    } else if j2 < n && s.get_char(j2) == '}' {
        let mut out: Vec<(String, ProfileInfo)> = Vec::new();
        out.push((nick, profile));
        proof {
            assert(out@.map(|t: int, e: (String, ProfileInfo)| (e.0@, e.1@)) =~= seq![
                (out@[0].0@, out@[0].1@),
            ]);
        }
        Some((out, j2 + 1))
    } else {
        None
    }
}

/// A field-for-field copy of the profile.
fn clone_profile(p: &ProfileInfo) -> (r: ProfileInfo)
    ensures
        r == *p,
{
    ProfileInfo {
        profile_name: p.profile_name.clone(),
        sso_start_url: p.sso_start_url.clone(),
        sso_region: p.sso_region.clone(),
        sso_account_id: p.sso_account_id.clone(),
        sso_role_name: p.sso_role_name.clone(),
        session_name: p.session_name.clone(),
    }
}

/// Reads a registry from exactly the rendered JSON shape, no whitespace
/// between tokens.
fn parse_registry_strict(text: &str) -> (r: Option<KeeConfig>)
    ensures
        match r {
            Some(cfg) => {
                &&& cfg.wf()
                &&& spec_parse_registry(text@) matches Some(pr)
                &&& cfg@.profiles == pairs_to_map(spec_parse_registry(text@)->Some_0.0)
                &&& cfg@.current_profile == spec_parse_registry(text@)->Some_0.1
            },
            None => spec_parse_registry(text@) is None,
        },
{
    let n = text.unicode_len();
    let i1 = match expect_lit(text, 0, n, "{\"profiles\":{") {
        Some(j) => j,
        None => {
            return None;
        },
    };
    let (entries, i2) = match parse_entries_at(text, i1, n) {
        Some(p) => p,
        None => {
            return None;
        },
    };
    let i3 = match expect_lit(text, i2, n, ",\"current_profile\":") {
        Some(j) => j,
        None => {
            return None;
        },
    };
    let mut cfg = KeeConfig::new();
    let ghost es = entries@.map(|t: int, e: (String, ProfileInfo)| (e.0@, e.1@));
    let mut t: usize = 0;
    proof {
        assert(es.take(0) =~= Seq::<(Seq<char>, ProfileInfoV)>::empty());
        assert(cfg@.profiles =~= pairs_to_map(es.take(0)));
    }
    while t < entries.len()
        invariant
            t <= entries.len(),
            es == entries@.map(|u: int, e: (String, ProfileInfo)| (e.0@, e.1@)),
            es.len() == entries.len(),
            cfg.wf(),
            cfg@.profiles == pairs_to_map(es.take(t as int)),
            cfg@.current_profile is None,
        decreases entries.len() - t,
    {
        let pair = &entries[t];
        cfg.add_profile(pair.0.clone(), clone_profile(&pair.1));
        proof {
            crate::registry::lemma_pairs_to_map_push(es.take(t as int), es[t as int].0, es[
                t as int].1);
            assert(es.take(t as int).push(es[t as int]) =~= es.take(t as int + 1));
        }
        t = t + 1;
    }
    proof {
        assert(es.take(entries@.len() as int) =~= es);
    }
    if i3 < n && text.get_char(i3) == '"' {
        let (cur, i4) = match parse_string_at(text, i3, n) {
            Some(p) => p,
            None => {
                return None;
            },
        };
        if i4 < n && text.get_char(i4) == '}' && i4 + 1 == n {
            cfg.set_current_profile(Some(cur));
            Some(cfg)
        } else {
            None
        }
    } else {
        let i4 = match expect_lit(text, i3, n, "null") {
            Some(j) => j,
            None => {
                return None;
            },
        };
        if i4 < n && text.get_char(i4) == '}' && i4 + 1 == n {
            Some(cfg)
        } else {
            None
        }
    }
}

/// The whitespace JSON allows between tokens.
pub open spec fn is_json_ws(c: char) -> bool {
    c == ' ' || c == '\t' || c == '\n' || c == '\r'
}

/// `s` with the whitespace outside string literals removed; `in_string` says
/// whether the scan stands inside a string literal, where every character,
/// an escaped pair as a whole, is kept.
pub open spec fn strip_ws(s: Seq<char>, in_string: bool) -> Seq<char>
    decreases s.len(),
{
    if s.len() == 0 {
        Seq::empty()
    } else {
        let c = s[0];
        if in_string {
            if c == '\\' {
                if s.len() >= 2 {
                    seq![c, s[1]] + strip_ws(s.skip(2), true)
                } else {
                    seq![c]
                }
            } else if c == '"' {
                seq![c] + strip_ws(s.drop_first(), false)
            } else {
                seq![c] + strip_ws(s.drop_first(), true)
            }
        } else {
            if is_json_ws(c) {
                strip_ws(s.drop_first(), false)
            } else if c == '"' {
                seq![c] + strip_ws(s.drop_first(), true)
            } else {
                seq![c] + strip_ws(s.drop_first(), false)
            }
        }
    }
}

/// What reading registry JSON accepts: the canonical rendered text, or any
/// spelling of it with whitespace between tokens.
pub open spec fn spec_parse_registry_relaxed(s: Seq<char>) -> Option<
    (Seq<(Seq<char>, ProfileInfoV)>, Option<Seq<char>>),
> {
    match spec_parse_registry(s) {
        Some(p) => Some(p),
        None => spec_parse_registry(strip_ws(s, false)),
    }
}

/// Drops the whitespace standing between tokens, leaving string literals
/// untouched.
fn strip_ws_exec(text: &str) -> (r: String)
    ensures
        r@ == strip_ws(text@, false),
{
    let n = text.unicode_len();
    let ghost full = strip_ws(text@, false);
    let mut out = String::new();
    let mut in_string = false;
    let mut i: usize = 0;
    proof {
        assert(text@.skip(0) =~= text@);
    }
    while i < n
        invariant
            i <= n,
            n == text@.len(),
            full == strip_ws(text@, false),
            out@ + strip_ws(text@.skip(i as int), in_string) == full,
        decreases n - i,
    {
        let ghost tail = text@.skip(i as int);
        proof {
            assert(tail[0] == text@[i as int]);
            assert(tail.drop_first() =~= text@.skip(i as int + 1));
        }
        let c = text.get_char(i);
        if in_string {
            if c == '\\' && i + 1 < n {
                proof {
                    assert(tail[1] == text@[i as int + 1]);
                    assert(tail.skip(2) =~= text@.skip(i as int + 2));
                }
                push_char(&mut out, c);
                push_char(&mut out, text.get_char(i + 1));
                proof {
                    assert(out@ + strip_ws(text@.skip(i as int + 2), true) =~= full);
                }
                i = i + 2;
                continue ;
            }
            if c == '\\' {
                push_char(&mut out, c);
                proof {
                    assert(tail.len() == 1);
                    assert(strip_ws(tail, true) =~= seq![c]);
                    assert(out@ + strip_ws(text@.skip(i as int + 1), in_string) =~= full);
                }
            } else if c == '"' {
                push_char(&mut out, c);
                in_string = false;
                proof {
                    assert(out@ + strip_ws(text@.skip(i as int + 1), false) =~= full);
                }
            } else {
                push_char(&mut out, c);
                proof {
                    assert(out@ + strip_ws(text@.skip(i as int + 1), true) =~= full);
                }
            }
        } else {
            if c == ' ' || c == '\t' || c == '\n' || c == '\r' {
                proof {
                    assert(out@ + strip_ws(text@.skip(i as int + 1), false) =~= full);
                }
            } else if c == '"' {
                push_char(&mut out, c);
                in_string = true;
                proof {
                    assert(out@ + strip_ws(text@.skip(i as int + 1), true) =~= full);
                }
            } else {
                push_char(&mut out, c);
                proof {
                    assert(out@ + strip_ws(text@.skip(i as int + 1), false) =~= full);
                }
            }
        }
        i = i + 1;
    }
    proof {
        assert(text@.skip(n as int) =~= Seq::<char>::empty());
        assert(strip_ws(Seq::<char>::empty(), in_string) =~= Seq::<char>::empty());
        assert(out@ =~= full);
    }
    out
}

/// Reads a registry from its JSON text: the rendered shape, with whitespace
/// between tokens tolerated; anything else is no registry.
pub fn parse_registry_json(text: &str) -> (r: Option<KeeConfig>)
    ensures
        match r {
            Some(cfg) => {
                &&& cfg.wf()
                &&& spec_parse_registry_relaxed(text@) matches Some(pr)
                &&& cfg@.profiles == pairs_to_map(spec_parse_registry_relaxed(text@)->Some_0.0)
                &&& cfg@.current_profile == spec_parse_registry_relaxed(text@)->Some_0.1
            },
            None => spec_parse_registry_relaxed(text@) is None,
        },
{
    match parse_registry_strict(text) {
        Some(cfg) => Some(cfg),
        None => {
            let stripped = strip_ws_exec(text);
            parse_registry_strict(stripped.as_str())
        },
    }
}

/// Reads a registry from JSON text, falling back to the empty registry on
/// malformed text: a corrupt file is swallowed, never surfaced.
pub fn registry_from_json(text: &str) -> (r: KeeConfig)
    ensures
        r.wf(),
        spec_parse_registry_relaxed(text@) matches Some(pr) ==> r@.profiles == pairs_to_map(pr.0)
            && r@.current_profile == pr.1,
        spec_parse_registry_relaxed(text@) is None ==> KeeConfig::spec_empty(r@),
{
    match parse_registry_json(text) {
        Some(cfg) => cfg,
        None => KeeConfig::new(),
    }
}

} // verus!
