use vstd::prelude::*;

verus! {

use crate::dict::Dict;
use crate::json::{find_path, find_char, str_at};
use crate::response::Response;
use crate::strutil::{to_chars, chars_to_string};
use vstd::string::StringExecFns;

broadcast use vstd::seq::group_seq_axioms;

/// The characters that may pad a placeholder: the Unicode white
/// space characters.
pub open spec fn is_space(c: char) -> bool {
    ||| c as u32 == 9
    ||| c as u32 == 10
    ||| c as u32 == 11
    ||| c as u32 == 12
    ||| c as u32 == 13
    ||| c as u32 == 32
    ||| c as u32 == 0x85
    ||| c as u32 == 0xA0
    ||| c as u32 == 0x1680
    ||| (0x2000 <= c as u32 && c as u32 <= 0x200A)
    ||| c as u32 == 0x2028
    ||| c as u32 == 0x2029
    ||| c as u32 == 0x202F
    ||| c as u32 == 0x205F
    ||| c as u32 == 0x3000
}

/// Whether a character is in the Unicode letter or number categories.
pub uninterp spec fn unicode_alphanumeric(c: char) -> bool;

/// Relies on char::is_alphanumeric: whether a character is in the
/// letter or number categories depends on the character alone.
#[verifier::external_body]
fn is_alphanumeric_x(c: char) -> (r: bool)
    ensures
        r == unicode_alphanumeric(c),
{
    c.is_alphanumeric()
}

/// The characters an identifier may hold: letters, digits, `-`, `.`,
/// `_`; never the whitespace or the closing brace that bound it.
pub open spec fn is_ident_char(c: char) -> bool {
    &&& !is_space(c)
    &&& c != '}'
    &&& (c == '-' || c == '.' || c == '_' || unicode_alphanumeric(c))
}

/// The first position at or after `i` that does not hold whitespace.
pub open spec fn space_end(s: Seq<char>, i: int) -> int
    decreases s.len() - i,
{
    if 0 <= i && i < s.len() && is_space(s[i]) {
        space_end(s, i + 1)
    } else {
        i
    }
}

/// The first position at or after `i` that does not hold an identifier character.
pub open spec fn ident_end(s: Seq<char>, i: int) -> int
    decreases s.len() - i,
{
    if 0 <= i && i < s.len() && is_ident_char(s[i]) {
        ident_end(s, i + 1)
    } else {
        i
    }
}

/// A placeholder starting exactly at `i`: a dollar sign and brace,
/// whitespace, an identifier, whitespace, and a closing brace. Yields
/// the identifier and the position after the brace.
pub open spec fn match_at(s: Seq<char>, i: int) -> Option<(Seq<char>, int)> {
    if str_at(s, i, '$') && str_at(s, i + 1, '{') {
        let j = space_end(s, i + 2);
        let k = ident_end(s, j);
        let m = space_end(s, k);
        if k > j && str_at(s, m, '}') {
            Some((s.subrange(j, k), m + 1))
        } else {
            None
        }
    } else {
        None
    }
}

/// The prefix marking a lookup into the response store.
pub open spec fn response_prefix() -> Seq<char> {
    seq!['r', 'e', 's', 'p', 'o', 'n', 's', 'e', '.']
}

/// What an identifier resolves to: a response store lookup when it
/// carries the response prefix, else a context lookup; an identifier
/// that reaches nothing resolves to the empty string.
pub open spec fn resolve_name(
    name: Seq<char>,
    ctx: Map<Seq<char>, String>,
    resps: Map<Seq<char>, Response>,
) -> Seq<char> {
    if name.len() >= 9 && name.subrange(0, 9) == response_prefix() {
        let rest = name.skip(9);
        let d = find_char(rest, '.', 0);
        if d < rest.len() {
            let rname = rest.subrange(0, d);
            let path = rest.skip(d + 1);
            if resps.contains_key(rname) {
                match find_path(resps[rname].body@, path) {
                    Some(v) => v,
                    None => Seq::empty(),
                }
            } else {
                Seq::empty()
            }
        } else {
            Seq::empty()
        }
    } else if ctx.contains_key(name) {
        ctx[name]@
    } else {
        Seq::empty()
    }
}

/// The template text from position `i` on, with each placeholder
/// replaced by what its identifier resolves to; other text unchanged.
pub open spec fn resolve_from(
    s: Seq<char>,
    i: int,
    ctx: Map<Seq<char>, String>,
    resps: Map<Seq<char>, Response>,
) -> Seq<char>
    decreases s.len() - i,
{
    if i < 0 || i >= s.len() {
        Seq::empty()
    } else {
        match match_at(s, i) {
            Some((name, e)) => {
                if i < e <= s.len() {
                    resolve_name(name, ctx, resps) + resolve_from(s, e, ctx, resps)
                } else {
                    seq![s[i]] + resolve_from(s, i + 1, ctx, resps)
                }
            }
            None => seq![s[i]] + resolve_from(s, i + 1, ctx, resps),
        }
    }
}

/// A whole template resolved against a context and a response store.
pub open spec fn resolve(
    s: Seq<char>,
    ctx: Map<Seq<char>, String>,
    resps: Map<Seq<char>, Response>,
) -> Seq<char> {
    resolve_from(s, 0, ctx, resps)
}

/// The identifiers of the placeholders from position `i` on, leftmost first.
pub open spec fn captures_from(s: Seq<char>, i: int) -> Seq<Seq<char>>
    decreases s.len() - i,
{
    if i < 0 || i >= s.len() {
        Seq::empty()
    } else {
        match match_at(s, i) {
            Some((name, e)) => {
                if i < e <= s.len() {
                    seq![name] + captures_from(s, e)
                } else {
                    captures_from(s, i + 1)
                }
            }
            None => captures_from(s, i + 1),
        }
    }
}

fn is_ident_char_x(c: char) -> (b: bool)
    ensures
        b == is_ident_char(c),
{
    !is_space_x(c) && c != '}' && (c == '-' || c == '.' || c == '_' || is_alphanumeric_x(c))
}

fn is_space_x(c: char) -> (b: bool)
    ensures
        b == is_space(c),
{
    let u = c as u32;
    u == 9 || u == 10 || u == 11 || u == 12 || u == 13 || u == 32 || u == 0x85 || u == 0xA0 || u
        == 0x1680 || (0x2000 <= u && u <= 0x200A) || u == 0x2028 || u == 0x2029 || u == 0x202F || u
        == 0x205F || u == 0x3000
}

fn space_end_x(s: &Vec<char>, i: usize) -> (r: usize)
    requires
        i <= s@.len(),
    ensures
        i <= r <= s@.len(),
        r as int == space_end(s@, i as int),
{
    let mut r = i;
    while r < s.len() && is_space_x(s[r])
        invariant
            i <= r <= s@.len(),
            space_end(s@, i as int) == space_end(s@, r as int),
        decreases s@.len() - r,
    {
        r = r + 1;
    }
    r
}

fn ident_end_x(s: &Vec<char>, i: usize) -> (r: usize)
    requires
        i <= s@.len(),
    ensures
        i <= r <= s@.len(),
        r as int == ident_end(s@, i as int),
{
    let mut r = i;
    while r < s.len() && is_ident_char_x(s[r])
        invariant
            i <= r <= s@.len(),
            ident_end(s@, i as int) == ident_end(s@, r as int),
        decreases s@.len() - r,
    {
        r = r + 1;
    }
    r
}

fn copy_chars(s: &Vec<char>, a: usize, b: usize) -> (r: Vec<char>)
    requires
        a <= b <= s@.len(),
    ensures
        r@ == s@.subrange(a as int, b as int),
{
    let mut r: Vec<char> = Vec::new();
    let mut i = a;
    while i < b
        invariant
            a <= i <= b <= s@.len(),
            r@ =~= s@.subrange(a as int, i as int),
        decreases b - i,
    {
        r.push(s[i]);
        proof {
            assert(s@.subrange(a as int, i as int).push(s@[i as int]) =~= s@.subrange(
                a as int,
                i + 1,
            ));
        }
        i = i + 1;
    }
    r
}

fn try_match(s: &Vec<char>, i: usize) -> (r: Option<(Vec<char>, usize)>)
    requires
        i < s@.len(),
    ensures
        match r {
            Some(p) => {
                &&& match_at(s@, i as int) == Some((p.0@, p.1 as int))
                &&& i < p.1 <= s@.len()
            },
            None => match_at(s@, i as int) is None,
        },
{
    if s[i] == '$' && s.len() - i >= 2 && s[i + 1] == '{' {
        let j = space_end_x(s, i + 2);
        let k = ident_end_x(s, j);
        let m = space_end_x(s, k);
        if k > j && m < s.len() && s[m] == '}' {
            Some((copy_chars(s, j, k), m + 1))
        } else {
            None
        }
    } else {
        None
    }
}

fn has_response_prefix(name: &Vec<char>) -> (b: bool)
    ensures
        b == (name@.len() >= 9 && name@.subrange(0, 9) == response_prefix()),
{
    if name.len() >= 9 && name[0] == 'r' && name[1] == 'e' && name[2] == 's' && name[3] == 'p'
        && name[4] == 'o' && name[5] == 'n' && name[6] == 's' && name[7] == 'e' && name[8] == '.' {
        proof {
            assert(name@.subrange(0, 9) =~= response_prefix());
        }
        true
    } else {
        proof {
            if name@.len() >= 9 && name@.subrange(0, 9) == response_prefix() {
                assert(name@[0] == name@.subrange(0, 9)[0]);
                assert(name@[1] == name@.subrange(0, 9)[1]);
                assert(name@[2] == name@.subrange(0, 9)[2]);
                assert(name@[3] == name@.subrange(0, 9)[3]);
                assert(name@[4] == name@.subrange(0, 9)[4]);
                assert(name@[5] == name@.subrange(0, 9)[5]);
                assert(name@[6] == name@.subrange(0, 9)[6]);
                assert(name@[7] == name@.subrange(0, 9)[7]);
                assert(name@[8] == name@.subrange(0, 9)[8]);
            }
        }
        false
    }
}

fn find_dot(s: &Vec<char>, i: usize) -> (r: usize)
    requires
        i <= s@.len(),
    ensures
        i <= r <= s@.len(),
        r as int == find_char(s@, '.', i as int),
{
    let mut r = i;
    while r < s.len() && s[r] != '.'
        invariant
            i <= r <= s@.len(),
            find_char(s@, '.', i as int) == find_char(s@, '.', r as int),
        decreases s@.len() - r,
    {
        r = r + 1;
    }
    r
}

/// The identifiers of every placeholder in a template, leftmost first.
pub fn placeholder_names(s: &str) -> (r: Vec<String>)
    ensures
        Seq::new(r@.len(), |i: int| r@[i]@) == captures_from(s@, 0),
{
    let cs = to_chars(s);
    let mut out: Vec<String> = Vec::new();
    let mut i: usize = 0;
    while i < cs.len()
        invariant
            i <= cs@.len(),
            cs@ == s@,
            Seq::new(out@.len(), |k: int| out@[k]@) + captures_from(cs@, i as int)
                =~= captures_from(cs@, 0),
        decreases cs@.len() - i,
    {
        let ghost before = Seq::new(out@.len(), |k: int| out@[k]@);
        match try_match(&cs, i) {
            Some((name, e)) => {
                out.push(chars_to_string(&name));
                proof {
                    assert(Seq::new(out@.len(), |k: int| out@[k]@) =~= before + seq![name@]);
                    assert(before + (seq![name@] + captures_from(cs@, e as int)) =~= (before
                        + seq![name@]) + captures_from(cs@, e as int));
                }
                i = e;
            }
            None => {
                i = i + 1;
            }
        }
    }
    proof {
        assert(Seq::new(out@.len(), |k: int| out@[k]@) + captures_from(cs@, i as int) =~= Seq::new(
            out@.len(),
            |k: int| out@[k]@,
        ));
        assert(Seq::new(out@.len(), |k: int| out@[k]@) =~= captures_from(cs@, 0));
    }
    out
}

pub open spec fn all_spaces(s: Seq<char>) -> bool {
    forall|i: int| 0 <= i < s.len() ==> is_space(#[trigger] s[i])
}

pub open spec fn all_ident(s: Seq<char>) -> bool {
    forall|i: int| 0 <= i < s.len() ==> is_ident_char(#[trigger] s[i])
}

proof fn lemma_ws_not_ident(c: char)
    requires
        is_space(c),
    ensures
        !is_ident_char(c),
{
}

proof fn lemma_space_run(s: Seq<char>, i: int, j: int)
    requires
        0 <= i <= j <= s.len(),
        forall|t: int| i <= t < j ==> is_space(#[trigger] s[t]),
        j < s.len() ==> !is_space(s[j]),
    ensures
        space_end(s, i) == j,
    decreases j - i,
{
    if i < j {
        lemma_space_run(s, i + 1, j);
    }
}

proof fn lemma_ident_run(s: Seq<char>, i: int, j: int)
    requires
        0 <= i <= j <= s.len(),
        forall|t: int| i <= t < j ==> is_ident_char(#[trigger] s[t]),
        j < s.len() ==> !is_ident_char(s[j]),
    ensures
        ident_end(s, i) == j,
    decreases j - i,
{
    if i < j {
        lemma_ident_run(s, i + 1, j);
    }
}

/// The text a placeholder is written as.
pub open spec fn placeholder(ws1: Seq<char>, name: Seq<char>, ws2: Seq<char>) -> Seq<char> {
    seq!['$', '{'] + ws1 + name + ws2 + seq!['}']
}

proof fn lemma_match_at_placeholder(
    s: Seq<char>,
    ws1: Seq<char>,
    name: Seq<char>,
    ws2: Seq<char>,
    rest: Seq<char>,
)
    requires
        s == placeholder(ws1, name, ws2) + rest,
        all_spaces(ws1),
        all_spaces(ws2),
        all_ident(name),
        name.len() > 0,
    ensures
        match_at(s, 0) == Some((name, (3 + ws1.len() + name.len() + ws2.len()) as int)),
{
    let a = 2 + ws1.len() as int;
    let b = a + name.len() as int;
    let m = b + ws2.len() as int;
    assert(s.len() == m + 1 + rest.len());
    assert(s[0] == '$');
    assert(s[1] == '{');
    assert forall|t: int| 2 <= t < a implies is_space(#[trigger] s[t]) by {
        assert(s[t] == ws1[t - 2]);
    }
    assert forall|t: int| a <= t < b implies is_ident_char(#[trigger] s[t]) by {
        assert(s[t] == name[t - a]);
    }
    assert forall|t: int| b <= t < m implies is_space(#[trigger] s[t]) by {
        assert(s[t] == ws2[t - b]);
    }
    assert(s[m] == '}');
    assert(!is_space(s[a])) by {
        assert(s[a] == name[0]);
        assert(is_ident_char(name[0]));
    }
    lemma_space_run(s, 2, a);
    assert(!is_ident_char(s[b])) by {
        if ws2.len() > 0 {
            assert(s[b] == ws2[0]);
            lemma_ws_not_ident(ws2[0]);
        } else {
            assert(s[b] == '}');
        }
    }
    lemma_ident_run(s, a, b);
    assert(!is_space(s[m]));
    lemma_space_run(s, b, m);
    assert(s.subrange(a, b) =~= name);
}

proof fn lemma_space_end_shift(s1: Seq<char>, i1: int, s2: Seq<char>, i2: int, a: int)
    requires
        0 <= i1 <= s1.len(),
        0 <= i2 <= s2.len(),
        s1.skip(i1) == s2.skip(i2),
        i1 <= a <= s1.len(),
    ensures
        space_end(s1, a) - i1 == space_end(s2, a - i1 + i2) - i2,
    decreases s1.len() - a,
{
    let a2 = a - i1 + i2;
    let t1 = s1.skip(i1);
    let t2 = s2.skip(i2);
    assert(t1.len() == t2.len());
    assert(s2.len() - i2 == s1.len() - i1);
    if a < s1.len() {
        assert(s1[a] == s2[a2]) by {
            assert(t1[a - i1] == s1[a]);
            assert(t2[a - i1] == s2[a - i1 + i2]);
        }
        if is_space(s1[a]) {
            lemma_space_end_shift(s1, i1, s2, i2, a + 1);
        }
    }
}

proof fn lemma_ident_end_shift(s1: Seq<char>, i1: int, s2: Seq<char>, i2: int, a: int)
    requires
        0 <= i1 <= s1.len(),
        0 <= i2 <= s2.len(),
        s1.skip(i1) == s2.skip(i2),
        i1 <= a <= s1.len(),
    ensures
        ident_end(s1, a) - i1 == ident_end(s2, a - i1 + i2) - i2,
    decreases s1.len() - a,
{
    let a2 = a - i1 + i2;
    let t1 = s1.skip(i1);
    let t2 = s2.skip(i2);
    assert(t1.len() == t2.len());
    assert(s2.len() - i2 == s1.len() - i1);
    if a < s1.len() {
        assert(s1[a] == s2[a2]) by {
            assert(t1[a - i1] == s1[a]);
            assert(t2[a - i1] == s2[a - i1 + i2]);
        }
        if is_ident_char(s1[a]) {
            lemma_ident_end_shift(s1, i1, s2, i2, a + 1);
        }
    }
}

proof fn lemma_match_at_shift(s1: Seq<char>, i1: int, s2: Seq<char>, i2: int)
    requires
        0 <= i1 <= s1.len(),
        0 <= i2 <= s2.len(),
        s1.skip(i1) == s2.skip(i2),
    ensures
        match_at(s1, i1) is None <==> match_at(s2, i2) is None,
        match_at(s1, i1) matches Some(p1) ==> match_at(s2, i2) == Some(
            (p1.0, p1.1 - i1 + i2),
        ),
{
    let t1 = s1.skip(i1);
    let t2 = s2.skip(i2);
    assert(t1.len() == t2.len());
    assert(s2.len() - i2 == s1.len() - i1);
    assert forall|x: int| i1 <= x < s1.len() implies #[trigger] s1[x] == s2[x - i1 + i2] by {
        assert(t1[x - i1] == s1[x]);
        assert(t2[x - i1] == s2[x - i1 + i2]);
    }
    assert(str_at(s2, i2, '$') == str_at(s1, i1, '$')) by {
        if i1 < s1.len() {
            assert(s1[i1] == s2[i2]);
        }
    }
    assert(str_at(s2, i2 + 1, '{') == str_at(s1, i1 + 1, '{')) by {
        if i1 + 1 < s1.len() {
            assert(s1[i1 + 1] == s2[i1 + 1 - i1 + i2]);
        }
    }
    if str_at(s1, i1, '$') && str_at(s1, i1 + 1, '{') {
        lemma_space_end_bounds(s1, i1 + 2);
        lemma_space_end_shift(s1, i1, s2, i2, i1 + 2);
        let j1 = space_end(s1, i1 + 2);
        let j2 = space_end(s2, i2 + 2);
        assert(j2 == j1 - i1 + i2);
        lemma_ident_end_bounds(s1, j1);
        lemma_ident_end_shift(s1, i1, s2, i2, j1);
        let k1 = ident_end(s1, j1);
        let k2 = ident_end(s2, j2);
        assert(k2 == k1 - i1 + i2);
        lemma_space_end_bounds(s1, k1);
        lemma_space_end_shift(s1, i1, s2, i2, k1);
        let m1 = space_end(s1, k1);
        let m2 = space_end(s2, k2);
        assert(m2 == m1 - i1 + i2);
        assert(str_at(s2, m2, '}') == str_at(s1, m1, '}')) by {
            if m1 < s1.len() {
                assert(s1[m1] == s2[m1 - i1 + i2]);
            }
        }
        if k1 > j1 && str_at(s1, m1, '}') {
            assert(s1.subrange(j1, k1) =~= s2.subrange(j2, k2)) by {
                assert forall|t: int| 0 <= t < k1 - j1 implies #[trigger] s1.subrange(j1, k1)[t]
                    == s2.subrange(j2, k2)[t] by {
                    assert(s1.subrange(j1, k1)[t] == s1[j1 + t]);
                    assert(s2.subrange(j2, k2)[t] == s2[j2 + t]);
                    assert(s1[j1 + t] == s2[(j1 + t) - i1 + i2]);
                }
            }
        }
    }
}

proof fn lemma_space_end_bounds(s: Seq<char>, i: int)
    requires
        0 <= i <= s.len(),
    ensures
        i <= space_end(s, i) <= s.len(),
    decreases s.len() - i,
{
    if i < s.len() && is_space(s[i]) {
        lemma_space_end_bounds(s, i + 1);
    }
}

proof fn lemma_ident_end_bounds(s: Seq<char>, i: int)
    requires
        0 <= i <= s.len(),
    ensures
        i <= ident_end(s, i) <= s.len(),
    decreases s.len() - i,
{
    if i < s.len() && is_ident_char(s[i]) {
        lemma_ident_end_bounds(s, i + 1);
    }
}

proof fn lemma_match_at_bounds(s: Seq<char>, i: int)
    requires
        0 <= i <= s.len(),
        match_at(s, i) is Some,
    ensures
        i < (match_at(s, i)->0).1 <= s.len(),
{
    lemma_space_end_bounds(s, i + 2);
    let j = space_end(s, i + 2);
    lemma_ident_end_bounds(s, j);
    let k = ident_end(s, j);
    lemma_space_end_bounds(s, k);
}

/// Resolution reads only the text from the position on: equal
/// suffixes resolve equally.
proof fn lemma_resolve_from_suffix(
    s1: Seq<char>,
    i1: int,
    s2: Seq<char>,
    i2: int,
    ctx: Map<Seq<char>, String>,
    resps: Map<Seq<char>, Response>,
)
    requires
        0 <= i1 <= s1.len(),
        0 <= i2 <= s2.len(),
        s1.skip(i1) == s2.skip(i2),
    ensures
        resolve_from(s1, i1, ctx, resps) == resolve_from(s2, i2, ctx, resps),
    decreases s1.len() - i1,
{
    let t1 = s1.skip(i1);
    let t2 = s2.skip(i2);
    assert(t1.len() == t2.len());
    assert(s2.len() - i2 == s1.len() - i1);
    if i1 < s1.len() {
        assert(s1[i1] == s2[i2]) by {
            assert(t1[0] == s1[i1]);
            assert(t2[0] == s2[i2]);
        }
        lemma_match_at_shift(s1, i1, s2, i2);
        match match_at(s1, i1) {
            Some((name, e1)) => {
                lemma_match_at_bounds(s1, i1);
                let e2 = e1 - i1 + i2;
                assert(s1.skip(e1) =~= s2.skip(e2)) by {
                    assert forall|t: int| 0 <= t < s1.len() - e1 implies #[trigger] s1.skip(e1)[t]
                        == s2.skip(e2)[t] by {
                        assert(s1.skip(e1)[t] == s1[e1 + t]);
                        assert(t1[e1 + t - i1] == s1[e1 + t]);
                        assert(t2[e1 + t - i1] == s2[e1 + t - i1 + i2]);
                        assert(s2.skip(e2)[t] == s2[e2 + t]);
                    }
                }
                lemma_resolve_from_suffix(s1, e1, s2, e2, ctx, resps);
            }
            None => {
                assert(s1.skip(i1 + 1) =~= s2.skip(i2 + 1)) by {
                    assert forall|t: int|
                        0 <= t < s1.len() - i1 - 1 implies #[trigger] s1.skip(i1 + 1)[t] == s2.skip(
                        i2 + 1,
                    )[t] by {
                        assert(s1.skip(i1 + 1)[t] == s1[i1 + 1 + t]);
                        assert(t1[1 + t] == s1[i1 + 1 + t]);
                        assert(t2[1 + t] == s2[i2 + 1 + t]);
                        assert(s2.skip(i2 + 1)[t] == s2[i2 + 1 + t]);
                    }
                }
                lemma_resolve_from_suffix(s1, i1 + 1, s2, i2 + 1, ctx, resps);
            }
        }
    }
}

/// A placeholder resolves to its identifier's value whatever interior
/// whitespace it carries: a template that starts with `${`,
/// whitespace, an identifier, whitespace and `}` resolves exactly as
/// the same template with the whitespace removed.
pub proof fn lemma_whitespace_irrelevant(
    ws1: Seq<char>,
    name: Seq<char>,
    ws2: Seq<char>,
    rest: Seq<char>,
    ctx: Map<Seq<char>, String>,
    resps: Map<Seq<char>, Response>,
)
    requires
        all_spaces(ws1),
        all_spaces(ws2),
        all_ident(name),
        name.len() > 0,
    ensures
        resolve(placeholder(ws1, name, ws2) + rest, ctx, resps) == resolve(
            placeholder(Seq::empty(), name, Seq::empty()) + rest,
            ctx,
            resps,
        ),
{
    let s1 = placeholder(ws1, name, ws2) + rest;
    let s2 = placeholder(Seq::empty(), name, Seq::empty()) + rest;
    lemma_match_at_placeholder(s1, ws1, name, ws2, rest);
    lemma_match_at_placeholder(s2, Seq::empty(), name, Seq::empty(), rest);
    let e1 = 3 + ws1.len() + name.len() + ws2.len();
    let e2 = 3 + name.len();
    assert(s1.len() == e1 + rest.len());
    assert(s2.len() == e2 + rest.len());
    assert(s1.len() > 0) by {
        assert(s1[0] == '$');
    }
    assert(s2.len() > 0) by {
        assert(s2[0] == '$');
    }
    assert(s1.skip(e1 as int) =~= rest) by {
        assert forall|t: int| 0 <= t < rest.len() implies #[trigger] s1.skip(e1 as int)[t] == rest[t] by {
            assert(s1.skip(e1 as int)[t] == s1[e1 + t]);
            assert(s1[e1 + t] == rest[t]);
        }
    }
    assert(s2.skip(e2 as int) =~= rest) by {
        assert forall|t: int| 0 <= t < rest.len() implies #[trigger] s2.skip(e2 as int)[t] == rest[t] by {
            assert(s2.skip(e2 as int)[t] == s2[e2 + t]);
            assert(s2[e2 + t] == rest[t]);
        }
    }
    lemma_resolve_from_suffix(s1, e1 as int, s2, e2 as int, ctx, resps);
}

/// A leading placeholder resolves to its identifier's value, and the
/// rest of the template resolves on its own after it.
pub proof fn lemma_placeholder_resolution(
    ws1: Seq<char>,
    name: Seq<char>,
    ws2: Seq<char>,
    rest: Seq<char>,
    ctx: Map<Seq<char>, String>,
    resps: Map<Seq<char>, Response>,
)
    requires
        all_spaces(ws1),
        all_spaces(ws2),
        all_ident(name),
        name.len() > 0,
    ensures
        resolve(placeholder(ws1, name, ws2) + rest, ctx, resps) == resolve_name(name, ctx, resps)
            + resolve(rest, ctx, resps),
{
    let s = placeholder(ws1, name, ws2) + rest;
    lemma_match_at_placeholder(s, ws1, name, ws2, rest);
    let e = 3 + ws1.len() + name.len() + ws2.len();
    assert(s.len() == e + rest.len());
    assert(s.len() > 0) by {
        assert(s[0] == '$');
    }
    assert(s.skip(e as int) =~= rest) by {
        assert forall|t: int| 0 <= t < rest.len() implies #[trigger] s.skip(e as int)[t]
            == rest[t] by {
            assert(s.skip(e as int)[t] == s[e + t]);
            assert(s[e + t] == rest[t]);
        }
    }
    assert(rest.skip(0) =~= rest);
    lemma_resolve_from_suffix(s, e as int, rest, 0, ctx, resps);
}

/// Literal text without a dollar sign passes through, and the
/// placeholder after it resolves to its identifier's value.
pub proof fn lemma_text_then_placeholder(
    lit: Seq<char>,
    ws1: Seq<char>,
    name: Seq<char>,
    ws2: Seq<char>,
    rest: Seq<char>,
    ctx: Map<Seq<char>, String>,
    resps: Map<Seq<char>, Response>,
)
    requires
        forall|i: int| 0 <= i < lit.len() ==> #[trigger] lit[i] != '$',
        all_spaces(ws1),
        all_spaces(ws2),
        all_ident(name),
        name.len() > 0,
    ensures
        resolve(lit + placeholder(ws1, name, ws2) + rest, ctx, resps) == lit + resolve_name(
            name,
            ctx,
            resps,
        ) + resolve(rest, ctx, resps),
{
    let tail = placeholder(ws1, name, ws2) + rest;
    let s = lit + tail;
    assert(s =~= lit + placeholder(ws1, name, ws2) + rest);
    lemma_text_prefix(s, lit, tail, 0, ctx, resps);
    assert(lit.skip(0) =~= lit);
    assert(s.skip(lit.len() as int) =~= tail) by {
        assert forall|t: int| 0 <= t < tail.len() implies #[trigger] s.skip(lit.len() as int)[t]
            == tail[t] by {
            assert(s.skip(lit.len() as int)[t] == s[lit.len() + t]);
        }
    }
    assert(tail.skip(0) =~= tail);
    lemma_resolve_from_suffix(s, lit.len() as int, tail, 0, ctx, resps);
    lemma_placeholder_resolution(ws1, name, ws2, rest, ctx, resps);
    assert(lit + (resolve_name(name, ctx, resps) + resolve(rest, ctx, resps)) =~= lit
        + resolve_name(name, ctx, resps) + resolve(rest, ctx, resps));
}

proof fn lemma_text_prefix(
    s: Seq<char>,
    lit: Seq<char>,
    tail: Seq<char>,
    i: int,
    ctx: Map<Seq<char>, String>,
    resps: Map<Seq<char>, Response>,
)
    requires
        s == lit + tail,
        forall|t: int| 0 <= t < lit.len() ==> #[trigger] lit[t] != '$',
        0 <= i <= lit.len(),
    ensures
        resolve_from(s, i, ctx, resps) == lit.skip(i) + resolve_from(
            s,
            lit.len() as int,
            ctx,
            resps,
        ),
    decreases lit.len() - i,
{
    if i == lit.len() {
        assert(lit.skip(i) =~= Seq::<char>::empty());
        assert(Seq::<char>::empty() + resolve_from(s, lit.len() as int, ctx, resps)
            =~= resolve_from(s, lit.len() as int, ctx, resps));
    } else {
        assert(s[i] == lit[i]);
        assert(s[i] != '$');
        assert(match_at(s, i) is None);
        assert(i < s.len());
        lemma_text_prefix(s, lit, tail, i + 1, ctx, resps);
        assert(seq![s[i]] + (lit.skip(i + 1) + resolve_from(s, lit.len() as int, ctx, resps))
            =~= lit.skip(i) + resolve_from(s, lit.len() as int, ctx, resps));
    }
}

/// An identifier that reaches neither the context nor the response
/// store resolves to the empty string; resolution is total and never
/// an error.
pub proof fn lemma_absent_resolves_empty(
    name: Seq<char>,
    ctx: Map<Seq<char>, String>,
    resps: Map<Seq<char>, Response>,
)
    requires
        !ctx.contains_key(name),
        (name.len() >= 9 && name.subrange(0, 9) == response_prefix()) ==> !resps.contains_key(
            name.skip(9).subrange(0, find_char(name.skip(9), '.', 0)),
        ),
    ensures
        resolve_name(name, ctx, resps) == Seq::<char>::empty(),
{
    if name.len() >= 9 && name.subrange(0, 9) == response_prefix() {
        let rest = name.skip(9);
        let d = find_char(rest, '.', 0);
        lemma_find_char_bounds(rest, 0);
        if d < rest.len() {
            assert(!resps.contains_key(rest.subrange(0, d)));
        }
    }
}

proof fn lemma_find_char_bounds(s: Seq<char>, i: int)
    requires
        0 <= i <= s.len(),
    ensures
        i <= find_char(s, '.', i) <= s.len(),
    decreases s.len() - i,
{
    if i < s.len() && s[i] != '.' {
        lemma_find_char_bounds(s, i + 1);
    }
}

/// Text without a placeholder passes through resolution unchanged.
pub proof fn lemma_literal_text_unchanged(
    s: Seq<char>,
    ctx: Map<Seq<char>, String>,
    resps: Map<Seq<char>, Response>,
)
    requires
        forall|i: int| match_at(s, i) is None,
    ensures
        resolve(s, ctx, resps) == s,
{
    lemma_literal_from(s, 0, ctx, resps);
    assert(s.skip(0) =~= s);
}

proof fn lemma_literal_from(
    s: Seq<char>,
    i: int,
    ctx: Map<Seq<char>, String>,
    resps: Map<Seq<char>, Response>,
)
    requires
        0 <= i <= s.len(),
        forall|t: int| match_at(s, t) is None,
    ensures
        resolve_from(s, i, ctx, resps) == s.skip(i),
    decreases s.len() - i,
{
    if i < s.len() {
        lemma_literal_from(s, i + 1, ctx, resps);
        assert(seq![s[i]] + s.skip(i + 1) =~= s.skip(i));
    } else {
        assert(s.skip(i) =~= Seq::<char>::empty());
    }
}

/// Rewrites template strings against a context and a response store.
pub struct Applicator {
    context: Dict<String>,
    responses: Dict<Response>,
}

impl Applicator {
    pub closed spec fn wf(&self) -> bool {
        self.context.wf() && self.responses.wf()
    }

    pub closed spec fn ctx(&self) -> Map<Seq<char>, String> {
        self.context@
    }

    pub closed spec fn resps(&self) -> Map<Seq<char>, Response> {
        self.responses@
    }

    pub fn new(context: Dict<String>, responses: Dict<Response>) -> (r: Self)
        requires
            context.wf(),
            responses.wf(),
        ensures
            r.wf(),
            r.ctx() == context@,
            r.resps() == responses@,
    {
        Applicator { context, responses }
    }

    /// Stores the latest response under a request name, replacing any
    /// earlier one of that name.
    pub fn add_response(&mut self, name: String, response: Response)
        requires
            old(self).wf(),
        ensures
            final(self).wf(),
            final(self).ctx() == old(self).ctx(),
            final(self).resps() == old(self).resps().insert(name@, response),
    {
        self.responses.insert(name, response);
    }

    /// The stored response under a request name, if any.
    pub fn get_response(&self, name: &str) -> (r: Option<&Response>)
        requires
            self.wf(),
        ensures
            match r {
                Some(v) => self.resps().contains_key(name@) && *v == self.resps()[name@],
                None => !self.resps().contains_key(name@),
            },
    {
        self.responses.get(name)
    }

    fn resolve_name_x(&self, name: &Vec<char>) -> (r: String)
        requires
            self.wf(),
        ensures
            r@ == resolve_name(name@, self.ctx(), self.resps()),
    {
        if has_response_prefix(name) {
            let rest = copy_chars(name, 9, name.len());
            proof {
                assert(rest@ =~= name@.skip(9));
            }
            let d = find_dot(&rest, 0);
            if d < rest.len() {
                let rname = chars_to_string(&copy_chars(&rest, 0, d));
                match self.responses.get(rname.as_str()) {
                    Some(resp) => {
                        let path = chars_to_string(&copy_chars(&rest, d + 1, rest.len()));
                        proof {
                            assert(path@ =~= rest@.skip(d + 1));
                        }
                        match resp.find_path_in_body(path.as_str()) {
                            Some(v) => v,
                            None => String::new(),
                        }
                    }
                    None => String::new(),
                }
            } else {
                String::new()
            }
        } else {
            let ns = chars_to_string(name);
            match self.context.get(ns.as_str()) {
                Some(v) => v.clone(),
                None => String::new(),
            }
        }
    }

    /// Rewrites a template: every placeholder is replaced by what its
    /// identifier resolves to, all other text passes through unchanged.
    pub fn apply(&self, s: &str) -> (r: String)
        requires
            self.wf(),
        ensures
            r@ == resolve(s@, self.ctx(), self.resps()),
    {
        let cs = to_chars(s);
        let mut out = String::new();
        let mut i: usize = 0;
        while i < cs.len()
            invariant
                i <= cs@.len(),
                cs@ == s@,
                self.wf(),
                out@ + resolve_from(cs@, i as int, self.ctx(), self.resps()) =~= resolve(
                    s@,
                    self.ctx(),
                    self.resps(),
                ),
            decreases cs@.len() - i,
        {
            let ghost before = out@;
            match try_match(&cs, i) {
                Some((name, e)) => {
                    let val = self.resolve_name_x(&name);
                    out.append(val.as_str());
                    proof {
                        assert(before + (val@ + resolve_from(
                            cs@,
                            e as int,
                            self.ctx(),
                            self.resps(),
                        )) =~= (before + val@) + resolve_from(
                            cs@,
                            e as int,
                            self.ctx(),
                            self.resps(),
                        ));
                    }
                    i = e;
                }
                None => {
                    out.push(cs[i]);
                    proof {
                        assert(before + (seq![cs@[i as int]] + resolve_from(
                            cs@,
                            i + 1,
                            self.ctx(),
                            self.resps(),
                        )) =~= before.push(cs@[i as int]) + resolve_from(
                            cs@,
                            i + 1,
                            self.ctx(),
                            self.resps(),
                        ));
                    }
                    i = i + 1;
                }
            }
        }
        proof {
            assert(out@ + resolve_from(cs@, i as int, self.ctx(), self.resps()) =~= out@);
        }
        out
    }
}

} // verus!
