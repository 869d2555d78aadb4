use vstd::prelude::*;

verus! {

use crate::strutil::{to_chars, chars_to_string};

broadcast use vstd::seq::group_seq_axioms;

/// The mathematical shape of a parsed body: scalars keep their notation,
/// strings keep their notation between the quotes.
#[verifier::ext_equal]
pub enum JVal {
    Null,
    Bool(bool),
    Num(Seq<char>),
    Str(Seq<char>),
    Arr(Seq<JVal>),
    Obj(Seq<(Seq<char>, JVal)>),
}

/// A parsed body value.
#[verifier::ext_equal]
pub enum Json {
    Null,
    Bool(bool),
    Num(Vec<char>),
    Str(Vec<char>),
    Arr(Vec<Json>),
    Obj(Vec<(Vec<char>, Json)>),
}

pub open spec fn vals_view(v: Seq<Json>) -> Seq<JVal> {
    Seq::new(
        v.len(),
        |i: int|
            if 0 <= i < v.len() {
                jview(v[i])
            } else {
                JVal::Null
            },
    )
}

pub open spec fn pairs_view(v: Seq<(Vec<char>, Json)>) -> Seq<(Seq<char>, JVal)> {
    Seq::new(
        v.len(),
        |i: int|
            (
                v[i].0@,
                if 0 <= i < v.len() {
                    jview(v[i].1)
                } else {
                    JVal::Null
                },
            ),
    )
}

pub open spec fn jview(j: Json) -> JVal
    decreases j,
    via jview_dec
{
    match j {
        Json::Null => JVal::Null,
        Json::Bool(b) => JVal::Bool(b),
        Json::Num(l) => JVal::Num(l@),
        Json::Str(s) => JVal::Str(s@),
        Json::Arr(v) => JVal::Arr(
            Seq::new(
                v@.len(),
                |i: int|
                    if 0 <= i < v@.len() {
                        jview(v@[i])
                    } else {
                        JVal::Null
                    },
            ),
        ),
        Json::Obj(v) => JVal::Obj(
            Seq::new(
                v@.len(),
                |i: int|
                    (
                        v@[i].0@,
                        if 0 <= i < v@.len() {
                            jview(v@[i].1)
                        } else {
                            JVal::Null
                        },
                    ),
            ),
        ),
    }
}

#[via_fn]
proof fn jview_dec(j: Json) {
    match j {
        Json::Arr(v) => {
            assert forall|i: int| 0 <= i < v@.len() implies decreases_to!(j => v@[i]) by {
                assert(decreases_to!(j => v));
                assert(decreases_to!(v => v@));
                assert(decreases_to!(v@ => v@[i]));
            }
        }
        Json::Obj(v) => {
            assert forall|i: int| 0 <= i < v@.len() implies decreases_to!(j => v@[i].1) by {
                assert(decreases_to!(j => v));
                assert(decreases_to!(v => v@));
                assert(decreases_to!(v@ => v@[i]));
                assert(decreases_to!(v@[i] => v@[i].1));
            }
        }
        _ => {}
    }
}

impl View for Json {
    type V = JVal;

    open spec fn view(&self) -> JVal {
        jview(*self)
    }
}

pub open spec fn is_json_ws(c: char) -> bool {
    c == ' ' || c == '\t' || c == '\n' || c == '\r'
}

pub open spec fn is_digit(c: char) -> bool {
    ('0' as u32) <= (c as u32) && (c as u32) <= ('9' as u32)
}

/// The first position at or after `i` that does not hold whitespace.
pub open spec fn skip_ws(s: Seq<char>, i: int) -> int
    decreases s.len() - i,
{
    if 0 <= i && i < s.len() && is_json_ws(s[i]) {
        skip_ws(s, i + 1)
    } else {
        i
    }
}

/// The first position at or after `i` that does not hold a digit.
pub open spec fn digit_run(s: Seq<char>, i: int) -> int
    decreases s.len() - i,
{
    if 0 <= i && i < s.len() && is_digit(s[i]) {
        digit_run(s, i + 1)
    } else {
        i
    }
}

pub open spec fn str_at(s: Seq<char>, i: int, c: char) -> bool {
    0 <= i && i < s.len() && s[i] == c
}

pub open spec fn lit_at(s: Seq<char>, i: int, w: Seq<char>) -> bool {
    0 <= i && i + w.len() <= s.len() && s.subrange(i, i + w.len()) == w
}

/// The notation of a string body starting after its opening quote:
/// its characters up to the closing quote, escapes kept as written,
/// and the position after the closing quote.
pub open spec fn parse_string_body(s: Seq<char>, i: int) -> Option<(Seq<char>, int)>
    decreases s.len() - i,
{
    if i < 0 || i >= s.len() {
        None
    } else if s[i] == '"' {
        Some((Seq::empty(), i + 1))
    } else if s[i] == '\\' {
        if i + 1 < s.len() {
            match parse_string_body(s, i + 2) {
                Some((rest, e)) => Some((seq![s[i], s[i + 1]] + rest, e)),
                None => None,
            }
        } else {
            None
        }
    } else {
        match parse_string_body(s, i + 1) {
            Some((rest, e)) => Some((seq![s[i]] + rest, e)),
            None => None,
        }
    }
}

/// A number's notation: sign, digits, then a fraction or exponent
/// only where a digit follows it.
pub open spec fn parse_number(s: Seq<char>, i: int) -> Option<(Seq<char>, int)> {
    let a = if str_at(s, i, '-') {
        i + 1
    } else {
        i
    };
    let b = digit_run(s, a);
    if b == a || i < 0 {
        None
    } else {
        let c2 = if str_at(s, b, '.') && digit_run(s, b + 1) > b + 1 {
            digit_run(s, b + 1)
        } else {
            b
        };
        let d = if str_at(s, c2, 'e') || str_at(s, c2, 'E') {
            let g = if str_at(s, c2 + 1, '+') || str_at(s, c2 + 1, '-') {
                c2 + 2
            } else {
                c2 + 1
            };
            if digit_run(s, g) > g {
                digit_run(s, g)
            } else {
                c2
            }
        } else {
            c2
        };
        Some((s.subrange(i, d), d))
    }
}

/// A single value starting exactly at `i`, and the position after it.
pub open spec fn parse_value(s: Seq<char>, i: int) -> Option<(JVal, int)>
    decreases s.len() - i, 0int,
{
    if i < 0 || i >= s.len() {
        None
    } else if s[i] == '{' {
        let j = skip_ws(s, i + 1);
        if str_at(s, j, '}') {
            Some((JVal::Obj(Seq::empty()), j + 1))
        } else if i < j && j <= s.len() {
            match parse_members(s, j) {
                Some((ps, e)) => Some((JVal::Obj(ps), e)),
                None => None,
            }
        } else {
            None
        }
    } else if s[i] == '[' {
        let j = skip_ws(s, i + 1);
        if str_at(s, j, ']') {
            Some((JVal::Arr(Seq::empty()), j + 1))
        } else if i < j && j <= s.len() {
            match parse_elems(s, j) {
                Some((vs, e)) => Some((JVal::Arr(vs), e)),
                None => None,
            }
        } else {
            None
        }
    } else if s[i] == '"' {
        match parse_string_body(s, i + 1) {
            Some((cs, e)) => Some((JVal::Str(cs), e)),
            None => None,
        }
    } else if lit_at(s, i, seq!['t', 'r', 'u', 'e']) {
        Some((JVal::Bool(true), i + 4))
    } else if lit_at(s, i, seq!['f', 'a', 'l', 's', 'e']) {
        Some((JVal::Bool(false), i + 5))
    } else if lit_at(s, i, seq!['n', 'u', 'l', 'l']) {
        Some((JVal::Null, i + 4))
    } else {
        match parse_number(s, i) {
            Some((l, e)) => Some((JVal::Num(l), e)),
            None => None,
        }
    }
}

/// The elements of an array from the first element up to and including
/// the closing bracket.
pub open spec fn parse_elems(s: Seq<char>, i: int) -> Option<(Seq<JVal>, int)>
    decreases s.len() - i, 1int,
{
    if i < 0 || i > s.len() {
        None
    } else {
        match parse_value(s, i) {
            Some((v, e)) => {
                let m = skip_ws(s, e);
                if str_at(s, m, ',') {
                    let n = skip_ws(s, m + 1);
                    if i < n && n <= s.len() {
                        match parse_elems(s, n) {
                            Some((vs, f)) => Some((seq![v] + vs, f)),
                            None => None,
                        }
                    } else {
                        None
                    }
                } else if str_at(s, m, ']') {
                    Some((seq![v], m + 1))
                } else {
                    None
                }
            }
            None => None,
        }
    }
}

/// The members of an object from the first key up to and including
/// the closing brace.
pub open spec fn parse_members(s: Seq<char>, i: int) -> Option<(Seq<(Seq<char>, JVal)>, int)>
    decreases s.len() - i, 1int,
{
    if i < 0 || i >= s.len() || s[i] != '"' {
        None
    } else {
        match parse_string_body(s, i + 1) {
            Some((key, a)) => {
                let j = skip_ws(s, a);
                if str_at(s, j, ':') {
                    let k = skip_ws(s, j + 1);
                    if i < k && k <= s.len() {
                        match parse_value(s, k) {
                            Some((v, e)) => {
                                let m = skip_ws(s, e);
                                if str_at(s, m, ',') {
                                    let n = skip_ws(s, m + 1);
                                    if i < n && n <= s.len() {
                                        match parse_members(s, n) {
                                            Some((ps, f)) => Some((seq![(key, v)] + ps, f)),
                                            None => None,
                                        }
                                    } else {
                                        None
                                    }
                                } else if str_at(s, m, '}') {
                                    Some((seq![(key, v)], m + 1))
                                } else {
                                    None
                                }
                            }
                            None => None,
                        }
                    } else {
                        None
                    }
                } else {
                    None
                }
            }
            None => None,
        }
    }
}

/// A whole body: one value surrounded by whitespace and nothing else.
pub open spec fn parse_json(s: Seq<char>) -> Option<JVal> {
    let i = skip_ws(s, 0);
    match parse_value(s, i) {
        Some((v, e)) => {
            if skip_ws(s, e) == s.len() {
                Some(v)
            } else {
                None
            }
        }
        None => None,
    }
}

/// The first position at or after `i` holding the character, else the length.
pub open spec fn find_char(s: Seq<char>, c: char, i: int) -> int
    decreases s.len() - i,
{
    if 0 <= i && i < s.len() {
        if s[i] == c {
            i
        } else {
            find_char(s, c, i + 1)
        }
    } else {
        s.len() as int
    }
}

/// A path split on every dot; the empty path is one empty token.
pub open spec fn split_dots(p: Seq<char>) -> Seq<Seq<char>>
    decreases p.len(),
{
    let d = find_char(p, '.', 0);
    if 0 <= d && d < p.len() {
        seq![p.subrange(0, d)] + split_dots(p.subrange(d + 1, p.len() as int))
    } else {
        seq![p]
    }
}

pub open spec fn all_digits(t: Seq<char>) -> bool {
    t.len() > 0 && forall|i: int| 0 <= i < t.len() ==> is_digit(t[i])
}

/// The number a digit sequence denotes.
pub open spec fn digits_val(t: Seq<char>) -> int
    decreases t.len(),
{
    if t.len() == 0 {
        0
    } else {
        digits_val(t.drop_last()) * 10 + (t.last() as u32 - 48)
    }
}

/// The first member index at or after `i` whose key is `t`, else the length.
pub open spec fn obj_find(ps: Seq<(Seq<char>, JVal)>, t: Seq<char>, i: int) -> int
    decreases ps.len() - i,
{
    if 0 <= i && i < ps.len() {
        if ps[i].0 == t {
            i
        } else {
            obj_find(ps, t, i + 1)
        }
    } else {
        ps.len() as int
    }
}

/// The text a scalar leaf stands for: string notation with the quotes
/// stripped, a number's notation, or a keyword's name.
pub open spec fn leaf_text(v: JVal) -> Option<Seq<char>> {
    match v {
        JVal::Str(s) => Some(s),
        JVal::Num(l) => Some(l),
        JVal::Bool(b) => if b {
            Some(seq!['t', 'r', 'u', 'e'])
        } else {
            Some(seq!['f', 'a', 'l', 's', 'e'])
        },
        JVal::Null => Some(seq!['n', 'u', 'l', 'l']),
        _ => None,
    }
}

/// Follows path tokens through a value: a token selects an object member
/// by key, and a digit token indexes an array; the walk ends on a scalar.
pub open spec fn walk(v: JVal, toks: Seq<Seq<char>>) -> Option<Seq<char>>
    decreases toks.len(),
{
    if toks.len() == 0 {
        leaf_text(v)
    } else {
        let t = toks[0];
        match v {
            JVal::Obj(ps) => {
                let i = obj_find(ps, t, 0);
                if i < ps.len() {
                    walk(ps[i].1, toks.drop_first())
                } else {
                    None
                }
            }
            JVal::Arr(vs) => {
                if all_digits(t) && digits_val(t) < vs.len() {
                    walk(vs[digits_val(t)], toks.drop_first())
                } else {
                    None
                }
            }
            _ => None,
        }
    }
}

/// What a dot path selects in a body: nothing when the body does not
/// parse, else the leaf the path reaches.
pub open spec fn find_path(body: Seq<char>, path: Seq<char>) -> Option<Seq<char>> {
    match parse_json(body) {
        Some(v) => walk(v, split_dots(path)),
        None => None,
    }
}

fn is_ws_x(c: char) -> (b: bool)
    ensures
        b == is_json_ws(c),
{
    c == ' ' || c == '\t' || c == '\n' || c == '\r'
}

fn is_digit_x(c: char) -> (b: bool)
    ensures
        b == is_digit(c),
{
    let u = c as u32;
    48 <= u && u <= 57
}

fn skip_ws_x(s: &Vec<char>, i: usize) -> (r: usize)
    requires
        i <= s@.len(),
    ensures
        i <= r <= s@.len(),
        r as int == skip_ws(s@, i as int),
{
    let mut r = i;
    while r < s.len() && is_ws_x(s[r])
        invariant
            i <= r <= s@.len(),
            skip_ws(s@, i as int) == skip_ws(s@, r as int),
        decreases s@.len() - r,
    {
        r = r + 1;
    }
    r
}

fn digit_run_x(s: &Vec<char>, i: usize) -> (r: usize)
    requires
        i <= s@.len(),
    ensures
        i <= r <= s@.len(),
        r as int == digit_run(s@, i as int),
{
    let mut r = i;
    while r < s.len() && is_digit_x(s[r])
        invariant
            i <= r <= s@.len(),
            digit_run(s@, i as int) == digit_run(s@, r as int),
        decreases s@.len() - r,
    {
        r = r + 1;
    }
    r
}

/// A copy of the characters in a range.
fn copy_range(s: &Vec<char>, a: usize, b: usize) -> (r: Vec<char>)
    requires
        a <= b <= s@.len(),
    ensures
        r@ == s@.subrange(a as int, b as int),
{
    let mut r: Vec<char> = Vec::new();
    let mut i = a;
    while i < b
        invariant
            a <= i <= b <= s@.len(),
            r@ =~= s@.subrange(a as int, i as int),
        decreases b - i,
    {
        r.push(s[i]);
        proof {
            assert(s@.subrange(a as int, i as int).push(s@[i as int]) =~= s@.subrange(
                a as int,
                i + 1,
            ));
        }
        i = i + 1;
    }
    r
}

fn parse_string_body_x(s: &Vec<char>, i: usize) -> (r: Option<(Vec<char>, usize)>)
    requires
        i <= s@.len(),
    ensures
        match r {
            Some(p) => {
                &&& parse_string_body(s@, i as int) == Some((p.0@, p.1 as int))
                &&& i < p.1 <= s@.len()
            },
            None => parse_string_body(s@, i as int) is None,
        },
    decreases s@.len() - i,
{
    if i >= s.len() {
        None
    } else if s[i] == '"' {
        let c: Vec<char> = Vec::new();
        proof {
            assert(c@ =~= Seq::<char>::empty());
        }
        Some((c, i + 1))
    } else if s[i] == '\\' {
        if i + 1 < s.len() {
            match parse_string_body_x(s, i + 2) {
                Some((mut c, e)) => {
                    let ghost rest = c@;
                    c.insert(0, s[i + 1]);
                    c.insert(0, s[i]);
                    proof {
                        assert(c@ =~= seq![s@[i as int], s@[i + 1]] + rest);
                    }
                    Some((c, e))
                }
                None => None,
            }
        } else {
            None
        }
    } else {
        match parse_string_body_x(s, i + 1) {
            Some((mut c, e)) => {
                let ghost rest = c@;
                c.insert(0, s[i]);
                proof {
                    assert(c@ =~= seq![s@[i as int]] + rest);
                }
                Some((c, e))
            }
            None => None,
        }
    }
}

fn parse_number_x(s: &Vec<char>, i: usize) -> (r: Option<(Vec<char>, usize)>)
    requires
        i <= s@.len(),
    ensures
        match r {
            Some(p) => {
                &&& parse_number(s@, i as int) == Some((p.0@, p.1 as int))
                &&& i < p.1 <= s@.len()
            },
            None => parse_number(s@, i as int) is None,
        },
{
    let a = if i < s.len() && s[i] == '-' {
        i + 1
    } else {
        i
    };
    let b = digit_run_x(s, a);
    if b == a {
        return None;
    }
    let c2 = if b < s.len() && s[b] == '.' && digit_run_x(s, b + 1) > b + 1 {
        digit_run_x(s, b + 1)
    } else {
        b
    };
    let d = if c2 < s.len() && (s[c2] == 'e' || s[c2] == 'E') {
        let g = if c2 + 1 < s.len() && (s[c2 + 1] == '+' || s[c2 + 1] == '-') {
            c2 + 2
        } else {
            c2 + 1
        };
        if g <= s.len() && digit_run_x(s, g) > g {
            digit_run_x(s, g)
        } else {
            c2
        }
    } else {
        c2
    };
    let lex = copy_range(s, i, d);
    Some((lex, d))
}

fn parse_value_x(s: &Vec<char>, i: usize) -> (r: Option<(Json, usize)>)
    requires
        i <= s@.len(),
    ensures
        match r {
            Some(p) => {
                &&& parse_value(s@, i as int) == Some((p.0@, p.1 as int))
                &&& i < p.1 <= s@.len()
            },
            None => parse_value(s@, i as int) is None,
        },
    decreases s@.len() - i, 0int,
{
    if i >= s.len() {
        None
    } else if s[i] == '{' {
        let j = skip_ws_x(s, i + 1);
        if j < s.len() && s[j] == '}' {
            let ps: Vec<(Vec<char>, Json)> = Vec::new();
            let v = Json::Obj(ps);
            proof {
                let ps2 = jview(v)->Obj_0;
                assert(ps2 =~= Seq::<(Seq<char>, JVal)>::empty());
                assert(v@ == JVal::Obj(Seq::<(Seq<char>, JVal)>::empty()));
            }
            Some((v, j + 1))
        } else {
            match parse_members_x(s, j) {
                Some((ps, e)) => {
                    let ghost pv = pairs_view(ps@);
                    let r = Json::Obj(ps);
                    proof {
                        assert(jview(r)->Obj_0 =~= pv);
                        assert(jview(r) == JVal::Obj(pv));
                    }
                    Some((r, e))
                }
                None => None,
            }
        }
    } else if s[i] == '[' {
        let j = skip_ws_x(s, i + 1);
        if j < s.len() && s[j] == ']' {
            let vs: Vec<Json> = Vec::new();
            let v = Json::Arr(vs);
            proof {
                let vs2 = jview(v)->Arr_0;
                assert(vs2 =~= Seq::<JVal>::empty());
                assert(v@ == JVal::Arr(Seq::<JVal>::empty()));
            }
            Some((v, j + 1))
        } else {
            match parse_elems_x(s, j) {
                Some((vs, e)) => {
                    let ghost vv = vals_view(vs@);
                    let r = Json::Arr(vs);
                    proof {
                        assert(jview(r)->Arr_0 =~= vv);
                        assert(jview(r) == JVal::Arr(vv));
                    }
                    Some((r, e))
                }
                None => None,
            }
        }
    } else if s[i] == '"' {
        match parse_string_body_x(s, i + 1) {
            Some((cs, e)) => Some((Json::Str(cs), e)),
            None => None,
        }
    } else if s.len() - i >= 4 && s[i] == 't' && s[i + 1] == 'r' && s[i + 2] == 'u' && s[i + 3]
        == 'e' {
        proof {
            assert(s@.subrange(i as int, i + 4) =~= seq!['t', 'r', 'u', 'e']);
        }
        Some((Json::Bool(true), i + 4))
    } else if s.len() - i >= 5 && s[i] == 'f' && s[i + 1] == 'a' && s[i + 2] == 'l' && s[i + 3]
        == 's' && s[i + 4] == 'e' {
        proof {
            assert(s@.subrange(i as int, i + 5) =~= seq!['f', 'a', 'l', 's', 'e']);
        }
        Some((Json::Bool(false), i + 5))
    } else if s.len() - i >= 4 && s[i] == 'n' && s[i + 1] == 'u' && s[i + 2] == 'l' && s[i + 3]
        == 'l' {
        proof {
            assert(s@.subrange(i as int, i + 4) =~= seq!['n', 'u', 'l', 'l']);
        }
        Some((Json::Null, i + 4))
    } else {
        proof {
            assert(!lit_at(s@, i as int, seq!['t', 'r', 'u', 'e'])) by {
                if lit_at(s@, i as int, seq!['t', 'r', 'u', 'e']) {
                    assert(s@[i as int] == s@.subrange(i as int, i + 4)[0]);
                    assert(s@[i + 1] == s@.subrange(i as int, i + 4)[1]);
                    assert(s@[i + 2] == s@.subrange(i as int, i + 4)[2]);
                    assert(s@[i + 3] == s@.subrange(i as int, i + 4)[3]);
                }
            }
            assert(!lit_at(s@, i as int, seq!['f', 'a', 'l', 's', 'e'])) by {
                if lit_at(s@, i as int, seq!['f', 'a', 'l', 's', 'e']) {
                    assert(s@[i as int] == s@.subrange(i as int, i + 5)[0]);
                    assert(s@[i + 1] == s@.subrange(i as int, i + 5)[1]);
                    assert(s@[i + 2] == s@.subrange(i as int, i + 5)[2]);
                    assert(s@[i + 3] == s@.subrange(i as int, i + 5)[3]);
                    assert(s@[i + 4] == s@.subrange(i as int, i + 5)[4]);
                }
            }
            assert(!lit_at(s@, i as int, seq!['n', 'u', 'l', 'l'])) by {
                if lit_at(s@, i as int, seq!['n', 'u', 'l', 'l']) {
                    assert(s@[i as int] == s@.subrange(i as int, i + 4)[0]);
                    assert(s@[i + 1] == s@.subrange(i as int, i + 4)[1]);
                    assert(s@[i + 2] == s@.subrange(i as int, i + 4)[2]);
                    assert(s@[i + 3] == s@.subrange(i as int, i + 4)[3]);
                }
            }
        }
        match parse_number_x(s, i) {
            Some((l, e)) => Some((Json::Num(l), e)),
            None => None,
        }
    }
}

fn parse_elems_x(s: &Vec<char>, i: usize) -> (r: Option<(Vec<Json>, usize)>)
    requires
        i <= s@.len(),
    ensures
        match r {
            Some(p) => {
                &&& parse_elems(s@, i as int) == Some((vals_view(p.0@), p.1 as int))
                &&& i < p.1 <= s@.len()
            },
            None => parse_elems(s@, i as int) is None,
        },
    decreases s@.len() - i, 1int,
{
    match parse_value_x(s, i) {
        Some((v, e)) => {
            let m = skip_ws_x(s, e);
            if m < s.len() && s[m] == ',' {
                let n = skip_ws_x(s, m + 1);
                match parse_elems_x(s, n) {
                    Some((mut vs, f)) => {
                        let ghost rest = vs@;
                        vs.insert(0, v);
                        proof {
                            assert(vals_view(vs@) =~= seq![v@] + vals_view(rest));
                        }
                        Some((vs, f))
                    }
                    None => None,
                }
            } else if m < s.len() && s[m] == ']' {
                let mut vs: Vec<Json> = Vec::new();
                vs.push(v);
                proof {
                    assert(vals_view(vs@) =~= seq![v@]);
                }
                Some((vs, m + 1))
            } else {
                None
            }
        }
        None => None,
    }
}

fn parse_members_x(s: &Vec<char>, i: usize) -> (r: Option<(Vec<(Vec<char>, Json)>, usize)>)
    requires
        i <= s@.len(),
    ensures
        match r {
            Some(p) => {
                &&& parse_members(s@, i as int) == Some((pairs_view(p.0@), p.1 as int))
                &&& i < p.1 <= s@.len()
            },
            None => parse_members(s@, i as int) is None,
        },
    decreases s@.len() - i, 1int,
{
    if i >= s.len() || s[i] != '"' {
        return None;
    }
    match parse_string_body_x(s, i + 1) {
        Some((key, a)) => {
            let j = skip_ws_x(s, a);
            if j < s.len() && s[j] == ':' {
                let k = skip_ws_x(s, j + 1);
                match parse_value_x(s, k) {
                    Some((v, e)) => {
                        let m = skip_ws_x(s, e);
                        if m < s.len() && s[m] == ',' {
                            let n = skip_ws_x(s, m + 1);
                            match parse_members_x(s, n) {
                                Some((mut ps, f)) => {
                                    let ghost rest = ps@;
                                    let ghost kv = (key@, v@);
                                    ps.insert(0, (key, v));
                                    proof {
                                        assert(pairs_view(ps@) =~= seq![kv] + pairs_view(rest));
                                    }
                                    Some((ps, f))
                                }
                                None => None,
                            }
                        } else if m < s.len() && s[m] == '}' {
                            let ghost kv = (key@, v@);
                            let mut ps: Vec<(Vec<char>, Json)> = Vec::new();
                            ps.push((key, v));
                            proof {
                                assert(pairs_view(ps@) =~= seq![kv]);
                            }
                            Some((ps, m + 1))
                        } else {
                            None
                        }
                    }
                    None => None,
                }
            } else {
                None
            }
        }
        None => None,
    }
}

pub open spec fn toks_view(v: Seq<Vec<char>>) -> Seq<Seq<char>> {
    Seq::new(v.len(), |i: int| v[i]@)
}

fn find_char_x(s: &Vec<char>, c: char, i: usize) -> (r: usize)
    requires
        i <= s@.len(),
    ensures
        i <= r <= s@.len(),
        r as int == find_char(s@, c, i as int),
{
    let mut r = i;
    while r < s.len() && s[r] != c
        invariant
            i <= r <= s@.len(),
            find_char(s@, c, i as int) == find_char(s@, c, r as int),
        decreases s@.len() - r,
    {
        r = r + 1;
    }
    r
}

fn chars_eq(a: &Vec<char>, b: &Vec<char>) -> (r: bool)
    ensures
        r == (a@ == b@),
{
    if a.len() != b.len() {
        return false;
    }
    let mut i: usize = 0;
    while i < a.len()
        invariant
            i <= a@.len(),
            a@.len() == b@.len(),
            forall|j: int| 0 <= j < i ==> a@[j] == b@[j],
        decreases a@.len() - i,
    {
        if a[i] != b[i] {
            return false;
        }
        i = i + 1;
    }
    proof {
        assert(a@ =~= b@);
    }
    true
}

/// Splits a path on every dot.
fn split_dots_x(p: &Vec<char>) -> (r: Vec<Vec<char>>)
    ensures
        toks_view(r@) == split_dots(p@),
        r@.len() > 0,
    decreases p@.len(),
{
    let d = find_char_x(p, '.', 0);
    if d < p.len() {
        let head = copy_range(p, 0, d);
        let tail = copy_range(p, d + 1, p.len());
        let mut rest = split_dots_x(&tail);
        let ghost rv = toks_view(rest@);
        rest.insert(0, head);
        proof {
            assert(toks_view(rest@) =~= seq![p@.subrange(0, d as int)] + rv);
        }
        rest
    } else {
        let whole = copy_range(p, 0, p.len());
        let mut r: Vec<Vec<char>> = Vec::new();
        r.push(whole);
        proof {
            assert(p@.subrange(0, p@.len() as int) =~= p@);
            assert(toks_view(r@) =~= seq![p@]);
        }
        r
    }
}

fn all_digits_x(t: &Vec<char>) -> (r: bool)
    ensures
        r == all_digits(t@),
{
    if t.len() == 0 {
        return false;
    }
    let mut i: usize = 0;
    while i < t.len()
        invariant
            i <= t@.len(),
            forall|j: int| 0 <= j < i ==> is_digit(t@[j]),
        decreases t@.len() - i,
    {
        if !is_digit_x(t[i]) {
            return false;
        }
        i = i + 1;
    }
    true
}

proof fn lemma_dv_nonneg(t: Seq<char>)
    requires
        forall|i: int| 0 <= i < t.len() ==> is_digit(t[i]),
    ensures
        digits_val(t) >= 0,
    decreases t.len(),
{
    if t.len() > 0 {
        lemma_dv_nonneg(t.drop_last());
    }
}

proof fn lemma_dv_step(t: Seq<char>, k: int)
    requires
        0 <= k < t.len(),
    ensures
        digits_val(t.subrange(0, k + 1)) == digits_val(t.subrange(0, k)) * 10 + (t[k] as u32
            - 48),
{
    let a = t.subrange(0, k + 1);
    assert(a.drop_last() =~= t.subrange(0, k));
    assert(a.last() == t[k]);
}

proof fn lemma_dv_prefix_mono(t: Seq<char>, a: int, b: int)
    requires
        forall|i: int| 0 <= i < t.len() ==> is_digit(t[i]),
        0 <= a <= b <= t.len(),
    ensures
        digits_val(t.subrange(0, a)) <= digits_val(t.subrange(0, b)),
    decreases b - a,
{
    if a < b {
        lemma_dv_prefix_mono(t, a, b - 1);
        lemma_dv_step(t, b - 1);
        assert(forall|i: int|
            0 <= i < t.subrange(0, b - 1).len() ==> is_digit(#[trigger] t.subrange(0, b - 1)[i]));
        lemma_dv_nonneg(t.subrange(0, b - 1));
    }
}

/// The index a digit token denotes, where it fits the machine.
fn token_index(t: &Vec<char>) -> (r: Option<usize>)
    requires
        all_digits(t@),
    ensures
        match r {
            Some(n) => n as int == digits_val(t@),
            None => digits_val(t@) > usize::MAX,
        },
{
    let mut acc: usize = 0;
    let mut k: usize = 0;
    proof {
        assert(t@.subrange(0, 0) =~= Seq::<char>::empty());
    }
    while k < t.len()
        invariant
            all_digits(t@),
            k <= t@.len(),
            acc as int == digits_val(t@.subrange(0, k as int)),
        decreases t@.len() - k,
    {
        let u = t[k] as u32;
        let d = (u - 48) as usize;
        proof {
            lemma_dv_step(t@, k as int);
        }
        let q = (usize::MAX - d) / 10;
        proof {
            vstd::arithmetic::div_mod::lemma_fundamental_div_mod((usize::MAX - d) as int, 10);
        }
        if acc > q {
            proof {
                vstd::arithmetic::mul::lemma_mul_inequality(q as int + 1, acc as int, 10);
                assert(digits_val(t@.subrange(0, k + 1)) > usize::MAX);
                lemma_dv_prefix_mono(t@, k + 1, t@.len() as int);
                assert(t@.subrange(0, t@.len() as int) =~= t@);
            }
            return None;
        }
        proof {
            vstd::arithmetic::mul::lemma_mul_inequality(acc as int, q as int, 10);
        }
        acc = acc * 10 + d;
        k = k + 1;
    }
    proof {
        assert(t@.subrange(0, t@.len() as int) =~= t@);
    }
    Some(acc)
}

fn obj_find_x(ps: &Vec<(Vec<char>, Json)>, t: &Vec<char>) -> (r: usize)
    ensures
        r <= ps@.len(),
        r as int == obj_find(pairs_view(ps@), t@, 0),
{
    let ghost sp = pairs_view(ps@);
    let mut i: usize = 0;
    while i < ps.len() && !chars_eq(&ps[i].0, t)
        invariant
            i <= ps@.len(),
            sp == pairs_view(ps@),
            obj_find(sp, t@, 0) == obj_find(sp, t@, i as int),
        decreases ps@.len() - i,
    {
        i = i + 1;
    }
    i
}

fn leaf_text_x(v: &Json) -> (r: Option<Vec<char>>)
    ensures
        match r {
            Some(c) => leaf_text(v@) == Some(c@),
            None => leaf_text(v@) is None,
        },
{
    match v {
        Json::Str(s) => Some(copy_range(s, 0, s.len())),
        Json::Num(l) => Some(copy_range(l, 0, l.len())),
        Json::Bool(b) => {
            let mut c: Vec<char> = Vec::new();
            if *b {
                c.push('t');
                c.push('r');
                c.push('u');
                c.push('e');
                proof {
                    assert(c@ =~= seq!['t', 'r', 'u', 'e']);
                }
            } else {
                c.push('f');
                c.push('a');
                c.push('l');
                c.push('s');
                c.push('e');
                proof {
                    assert(c@ =~= seq!['f', 'a', 'l', 's', 'e']);
                }
            }
            Some(c)
        }
        Json::Null => {
            let mut c: Vec<char> = Vec::new();
            c.push('n');
            c.push('u');
            c.push('l');
            c.push('l');
            proof {
                assert(c@ =~= seq!['n', 'u', 'l', 'l']);
            }
            Some(c)
        }
        _ => None,
    }
}

fn walk_x(v: &Json, toks: &Vec<Vec<char>>, ti: usize) -> (r: Option<Vec<char>>)
    requires
        ti <= toks@.len(),
    ensures
        match r {
            Some(c) => walk(v@, toks_view(toks@).skip(ti as int)) == Some(c@),
            None => walk(v@, toks_view(toks@).skip(ti as int)) is None,
        },
    decreases toks@.len() - ti,
{
    let ghost suffix = toks_view(toks@).skip(ti as int);
    if ti == toks.len() {
        proof {
            assert(suffix =~= Seq::<Seq<char>>::empty());
        }
        leaf_text_x(v)
    } else {
        let t = &toks[ti];
        proof {
            assert(suffix[0] == t@);
            assert(suffix.drop_first() =~= toks_view(toks@).skip(ti + 1));
        }
        match v {
            Json::Obj(ps) => {
                proof {
                    assert(v@->Obj_0 =~= pairs_view(ps@));
                }
                let i = obj_find_x(ps, t);
                if i < ps.len() {
                    proof {
                        assert(pairs_view(ps@)[i as int].1 == ps@[i as int].1@);
                    }
                    walk_x(&ps[i].1, toks, ti + 1)
                } else {
                    None
                }
            }
            Json::Arr(vs) => {
                proof {
                    assert(v@->Arr_0 =~= vals_view(vs@));
                }
                if all_digits_x(t) {
                    match token_index(t) {
                        Some(n) => {
                            if n < vs.len() {
                                proof {
                                    assert(vals_view(vs@)[n as int] == vs@[n as int]@);
                                }
                                walk_x(&vs[n], toks, ti + 1)
                            } else {
                                None
                            }
                        }
                        None => None,
                    }
                } else {
                    None
                }
            }
            _ => None,
        }
    }
}

/// What a dot path selects in a body, as executable code.
pub fn find_path_x(body: &str, path: &str) -> (r: Option<String>)
    ensures
        match r {
            Some(s) => find_path(body@, path@) == Some(s@),
            None => find_path(body@, path@) is None,
        },
{
    let b = to_chars(body);
    match parse_json_x(&b) {
        Some(v) => {
            let p = to_chars(path);
            let toks = split_dots_x(&p);
            proof {
                assert(toks_view(toks@).skip(0) =~= toks_view(toks@));
            }
            match walk_x(&v, &toks, 0) {
                Some(c) => Some(chars_to_string(&c)),
                None => None,
            }
        }
        None => None,
    }
}

/// Parses a whole body.
pub fn parse_json_x(s: &Vec<char>) -> (r: Option<Json>)
    ensures
        match r {
            Some(v) => parse_json(s@) == Some(v@),
            None => parse_json(s@) is None,
        },
{
    let i = skip_ws_x(s, 0);
    match parse_value_x(s, i) {
        Some((v, e)) => {
            let t = skip_ws_x(s, e);
            if t == s.len() {
                Some(v)
            } else {
                None
            }
        }
        None => None,
    }
}

} // verus!
