//! The record grammar of the lava-lamp shader: one constructor call
//! `Blob(vec2(..), vec3(r, g, b), size, speed, smoothness)` per line.
use vstd::prelude::*;
use crate::decimal::{Decimal, spec_parse_decimal, parse_decimal};
use crate::history::Blob;
use crate::scan::{
    char_at, char_at_exec, is_space, lit_at, lit_at_exec, run_number, run_number_exec, run_until,
    run_until_exec, skip_spaces, skip_spaces_exec,
};

verus! {

/// Where the fields of a record call lie in a line: `[start, end)` of each.
#[derive(Clone, Copy, Debug, PartialEq, Eq)]
pub struct Captures {
    pub color: (usize, usize),
    pub size: (usize, usize),
    pub speed: (usize, usize),
    pub smoothness: (usize, usize),
}

/// The record call that starts at position `i` of `l`, if one does. Each
/// part is followed as far as it goes, so a call has at most one reading.
pub open spec fn match_at(l: Seq<char>, i: int) -> Option<Captures> {
    let paren = skip_spaces(l, i + 4);
    let pos = skip_spaces(l, paren + 1);
    let pos_end = run_until(l, pos + 5, ')');
    let col = skip_spaces(l, pos_end + 2);
    let c0 = col + 5;
    let c1 = run_until(l, c0, ')');
    let s0 = skip_spaces(l, c1 + 2);
    let s1 = run_number(l, s0);
    let v0 = skip_spaces(l, s1 + 1);
    let v1 = run_number(l, v0);
    let m0 = skip_spaces(l, v1 + 1);
    let m1 = run_number(l, m0);
    let e = skip_spaces(l, m1);
    if lit_at(l, i, "Blob"@) && char_at(l, paren, '(') && lit_at(l, pos, "vec2("@) && pos_end > pos + 5
        && char_at(l, pos_end, ')') && char_at(l, pos_end + 1, ',') && lit_at(l, col, "vec3("@) && c1 > c0
        && char_at(l, c1, ')') && char_at(l, c1 + 1, ',') && s1 > s0 && char_at(l, s1, ',') && v1 > v0
        && char_at(l, v1, ',') && m1 > m0 && char_at(l, e, ')') {
        Some(
            Captures {
                color: (c0 as usize, c1 as usize),
                size: (s0 as usize, s1 as usize),
                speed: (v0 as usize, v1 as usize),
                smoothness: (m0 as usize, m1 as usize),
            },
        )
    } else {
        None
    }
}

/// The leftmost record call at or after position `i`.
pub open spec fn find_match(l: Seq<char>, i: int) -> Option<Captures>
    decreases l.len() + 1 - i,
{
    if i < 0 || i > l.len() {
        None
    } else {
        match match_at(l, i) {
            Some(c) => Some(c),
            None => find_match(l, i + 1),
        }
    }
}

/// The pieces of `s` between commas (always at least one).
pub open spec fn comma_pieces(s: Seq<char>) -> Seq<Seq<char>>
    decreases s.len(),
{
    if s.len() == 0 {
        seq![seq![]]
    } else {
        let ps = comma_pieces(s.drop_last());
        if s.last() == ',' {
            ps.push(seq![])
        } else {
            ps.update(ps.len() - 1, ps.last().push(s.last()))
        }
    }
}

/// Last position (exclusive) before `j` after which only whitespace follows.
pub open spec fn skip_spaces_back(s: Seq<char>, j: int) -> int
    decreases j,
{
    if j <= 0 || j > s.len() {
        j
    } else if is_space(s[j - 1]) {
        skip_spaces_back(s, j - 1)
    } else {
        j
    }
}

/// `s` without leading and trailing whitespace.
pub open spec fn trim(s: Seq<char>) -> Seq<char> {
    let a = skip_spaces(s, 0);
    let b = skip_spaces_back(s, s.len() as int);
    if a >= b {
        seq![]
    } else {
        s.subrange(a, b)
    }
}

/// The numbers among `pieces`, each trimmed; pieces that are no number are left out.
pub open spec fn numbers_of(pieces: Seq<Seq<char>>) -> Seq<Decimal>
    decreases pieces.len(),
{
    if pieces.len() == 0 {
        seq![]
    } else {
        numbers_of(pieces.drop_last()) + match spec_parse_decimal(trim(pieces.last())) {
            Some(d) => seq![d],
            None => seq![],
        }
    }
}

/// The record that the fields at `c` in `l` describe, if each is a number
/// and the color has exactly three.
pub open spec fn blob_from_captures(l: Seq<char>, c: Captures) -> Option<Blob> {
    let color = numbers_of(comma_pieces(l.subrange(c.color.0 as int, c.color.1 as int)));
    let size = spec_parse_decimal(l.subrange(c.size.0 as int, c.size.1 as int));
    let speed = spec_parse_decimal(l.subrange(c.speed.0 as int, c.speed.1 as int));
    let smoothness = spec_parse_decimal(l.subrange(c.smoothness.0 as int, c.smoothness.1 as int));
    if size is Some && speed is Some && smoothness is Some && color.len() == 3 {
        Some(
            Blob {
                color: [color[0], color[1], color[2]],
                size: size->Some_0,
                speed: speed->Some_0,
                smoothness: smoothness->Some_0,
            },
        )
    } else {
        None
    }
}

/// The record that a line of shader text defines: the leftmost record call
/// on it, if its fields read as numbers.
pub open spec fn spec_parse_line(l: Seq<char>) -> Option<Blob> {
    match find_match(l, 0) {
        Some(c) => blob_from_captures(l, c),
        None => None,
    }
}

pub fn match_at_exec(l: &Vec<char>, i: usize) -> (r: Option<Captures>)
    requires
        i <= l@.len(),
    ensures
        r == match_at(l@, i as int),
        r matches Some(c) ==> {
            &&& c.color.0 <= c.color.1 <= l@.len()
            &&& c.size.0 <= c.size.1 <= l@.len()
            &&& c.speed.0 <= c.speed.1 <= l@.len()
            &&& c.smoothness.0 <= c.smoothness.1 <= l@.len()
        },
{
    proof {
        reveal_strlit("Blob");
        reveal_strlit("vec2(");
        reveal_strlit("vec3(");
    }
    assert(l@.len() == l.len());
    if !lit_at_exec(l, i, "Blob") {
        return None;
    }
    let paren = skip_spaces_exec(l, i + 4);
    if !char_at_exec(l, paren, '(') {
        return None;
    }
    let pos = skip_spaces_exec(l, paren + 1);
    if !lit_at_exec(l, pos, "vec2(") {
        return None;
    }
    let pos_end = run_until_exec(l, pos + 5, ')');
    if !(pos_end > pos + 5 && char_at_exec(l, pos_end, ')') && char_at_exec(l, pos_end + 1, ',')) {
        return None;
    }
    let col = skip_spaces_exec(l, pos_end + 2);
    if !lit_at_exec(l, col, "vec3(") {
        return None;
    }
    let c0 = col + 5;
    let c1 = run_until_exec(l, c0, ')');
    if !(c1 > c0 && char_at_exec(l, c1, ')') && char_at_exec(l, c1 + 1, ',')) {
        return None;
    }
    let s0 = skip_spaces_exec(l, c1 + 2);
    let s1 = run_number_exec(l, s0);
    if !(s1 > s0 && char_at_exec(l, s1, ',')) {
        return None;
    }
    let v0 = skip_spaces_exec(l, s1 + 1);
    let v1 = run_number_exec(l, v0);
    if !(v1 > v0 && char_at_exec(l, v1, ',')) {
        return None;
    }
    let m0 = skip_spaces_exec(l, v1 + 1);
    let m1 = run_number_exec(l, m0);
    if !(m1 > m0) {
        return None;
    }
    let e = skip_spaces_exec(l, m1);
    if !char_at_exec(l, e, ')') {
        return None;
    }
    Some(Captures { color: (c0, c1), size: (s0, s1), speed: (v0, v1), smoothness: (m0, m1) })
}


/// The leftmost record call in `l`.
pub fn find_match_exec(l: &Vec<char>) -> (r: Option<Captures>)
    ensures
        r == find_match(l@, 0),
        r matches Some(c) ==> {
            &&& c.color.0 <= c.color.1 <= l@.len()
            &&& c.size.0 <= c.size.1 <= l@.len()
            &&& c.speed.0 <= c.speed.1 <= l@.len()
            &&& c.smoothness.0 <= c.smoothness.1 <= l@.len()
        },
{
    let mut i: usize = 0;
    while i < l.len()
        invariant
            i <= l@.len(),
            l@.len() == l.len(),
            find_match(l@, 0) == find_match(l@, i as int),
        decreases l@.len() - i,
    {
        let m = match_at_exec(l, i);
        if m.is_some() {
            return m;
        }
        i = i + 1;
    }
    proof {
        reveal_strlit("Blob");
        assert(match_at(l@, i as int) is None);
        assert(find_match(l@, i + 1) is None);
    }
    None
}

/// Bounds of `l[a..b]` without its leading and trailing whitespace.
fn trim_range(l: &Vec<char>, a: usize, b: usize) -> (r: (usize, usize))
    requires
        a <= b <= l@.len(),
    ensures
        a <= r.0 <= r.1 <= b,
        l@.subrange(r.0 as int, r.1 as int) == trim(l@.subrange(a as int, b as int)),
{
    let ghost s = l@.subrange(a as int, b as int);
    let mut x = a;
    while x < b && (l[x] == ' ' || l[x] == '\t' || l[x] == '\n' || l[x] == '\r' || l[x] == '\x0B' || l[x] == '\x0C')
        invariant
            a <= x <= b <= l@.len(),
            s == l@.subrange(a as int, b as int),
            skip_spaces(s, 0) == skip_spaces(s, x - a),
        decreases b - x,
    {
        x = x + 1;
    }
    let mut y = b;
    while y > a && (l[y - 1] == ' ' || l[y - 1] == '\t' || l[y - 1] == '\n' || l[y - 1] == '\r'
        || l[y - 1] == '\x0B' || l[y - 1] == '\x0C')
        invariant
            a <= y <= b <= l@.len(),
            s == l@.subrange(a as int, b as int),
            skip_spaces_back(s, s.len() as int) == skip_spaces_back(s, y - a),
        decreases y,
    {
        y = y - 1;
    }
    if x >= y {
        (x, x)
    } else {
        assert(l@.subrange(x as int, y as int) =~= s.subrange(x - a, y - a));
        (x, y)
    }
}

proof fn lemma_comma_pieces_nonempty(s: Seq<char>)
    ensures
        comma_pieces(s).len() >= 1,
    decreases s.len(),
{
    if s.len() > 0 {
        lemma_comma_pieces_nonempty(s.drop_last());
    }
}

/// The numbers among the comma-separated pieces of `l[a..b]`.
fn numbers_in(l: &Vec<char>, a: usize, b: usize) -> (r: Vec<Decimal>)
    requires
        a <= b <= l@.len(),
    ensures
        r@ == numbers_of(comma_pieces(l@.subrange(a as int, b as int))),
        forall|i: int| 0 <= i < r@.len() ==> (#[trigger] r@[i]).wf(),
{
    let mut out: Vec<Decimal> = Vec::new();
    let mut ps = a;
    let mut k = a;
    assert(l@.subrange(a as int, a as int) =~= Seq::<char>::empty());
    while k < b
        invariant
            a <= ps <= k <= b <= l@.len(),
            comma_pieces(l@.subrange(a as int, k as int)).last() == l@.subrange(ps as int, k as int),
            out@ == numbers_of(comma_pieces(l@.subrange(a as int, k as int)).drop_last()),
            forall|i: int| 0 <= i < out@.len() ==> (#[trigger] out@[i]).wf(),
        decreases b - k,
    {
        let ghost pre = l@.subrange(a as int, k as int);
        let ghost post = l@.subrange(a as int, k + 1);
        assert(post.drop_last() =~= pre);
        proof {
            lemma_comma_pieces_nonempty(pre);
        }
        let ghost pieces = comma_pieces(pre);
        if l[k] == ',' {
            let (x, y) = trim_range(l, ps, k);
            let d = parse_decimal(l, x, y);
            proof {
                assert(comma_pieces(post).drop_last() =~= pieces);
                assert(pieces.drop_last().push(pieces.last()) =~= pieces);
            }
            match d {
                Some(d) => {
                    out.push(d);
                },
                None => {},
            }
            assert(out@ =~= numbers_of(pieces));
            k = k + 1;
            ps = k;
            assert(l@.subrange(ps as int, k as int) =~= Seq::<char>::empty());
        } else {
            proof {
                assert(comma_pieces(post).drop_last() =~= pieces.drop_last());
                assert(l@.subrange(ps as int, k + 1) =~= l@.subrange(ps as int, k as int).push(l@[k as int]));
            }
            k = k + 1;
        }
    }
    let ghost pieces = comma_pieces(l@.subrange(a as int, b as int));
    proof {
        lemma_comma_pieces_nonempty(l@.subrange(a as int, b as int));
    }
    let (x, y) = trim_range(l, ps, b);
    let d = parse_decimal(l, x, y);
    match d {
        Some(d) => {
            out.push(d);
        },
        None => {},
    }
    assert(out@ =~= numbers_of(pieces));
    out
}

/// The record that one line of shader text defines, if any.
pub fn parse_blob_definition(l: &Vec<char>) -> (r: Option<Blob>)
    ensures
        r == spec_parse_line(l@),
        r matches Some(b) ==> b.wf(),
{
    let c = match find_match_exec(l) {
        Some(c) => c,
        None => {
            return None;
        },
    };
    let size = parse_decimal(l, c.size.0, c.size.1);
    let speed = parse_decimal(l, c.speed.0, c.speed.1);
    let smoothness = parse_decimal(l, c.smoothness.0, c.smoothness.1);
    let color = numbers_in(l, c.color.0, c.color.1);
    match (size, speed, smoothness) {
        (Some(size), Some(speed), Some(smoothness)) => {
            if color.len() == 3 {
                Some(Blob { color: [color[0], color[1], color[2]], size, speed, smoothness })
            } else {
                None
            }
        },
        _ => None,
    }
}

} // verus!
