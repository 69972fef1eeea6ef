//! Character-level scanning over shader text.
use vstd::prelude::*;

verus! {

/// The whitespace that separates tokens in shader source.
pub open spec fn is_space(c: char) -> bool {
    c == ' ' || c == '\t' || c == '\n' || c == '\r' || c == '\x0B' || c == '\x0C'
}

pub open spec fn is_num_char(c: char) -> bool {
    ('0' <= c && c <= '9') || c == '.'
}

/// First position at or after `i` that holds no whitespace (or the end).
pub open spec fn skip_spaces(l: Seq<char>, i: int) -> int
    decreases l.len() - i,
{
    if i < 0 || i >= l.len() {
        i
    } else if is_space(l[i]) {
        skip_spaces(l, i + 1)
    } else {
        i
    }
}

/// First position at or after `i` that holds `c` (or the end).
pub open spec fn run_until(l: Seq<char>, i: int, c: char) -> int
    decreases l.len() - i,
{
    if i < 0 || i >= l.len() {
        i
    } else if l[i] != c {
        run_until(l, i + 1, c)
    } else {
        i
    }
}

/// First position at or after `i` that holds neither a digit nor a dot (or the end).
pub open spec fn run_number(l: Seq<char>, i: int) -> int
    decreases l.len() - i,
{
    if i < 0 || i >= l.len() {
        i
    } else if is_num_char(l[i]) {
        run_number(l, i + 1)
    } else {
        i
    }
}

/// First position at or after `i` that holds no ASCII digit (or the end).
pub open spec fn run_digits(l: Seq<char>, i: int) -> int
    decreases l.len() - i,
{
    if i < 0 || i >= l.len() {
        i
    } else if '0' <= l[i] && l[i] <= '9' {
        run_digits(l, i + 1)
    } else {
        i
    }
}

/// No `c` in `s`.
pub open spec fn no_char(s: Seq<char>, c: char) -> bool {
    forall|k: int| 0 <= k < s.len() ==> #[trigger] s[k] != c
}

pub proof fn lemma_no_char_concat(a: Seq<char>, b: Seq<char>, c: char)
    requires
        no_char(a, c),
        no_char(b, c),
    ensures
        no_char(a + b, c),
{
    assert forall|k: int| 0 <= k < (a + b).len() implies #[trigger] (a + b)[k] != c by {
        if k < a.len() {
            assert((a + b)[k] == a[k]);
        } else {
            assert((a + b)[k] == b[k - a.len()]);
        }
    }
}

/// `acc + x`, which holds no `c` when neither part does.
pub proof fn lemma_no_char_extend(acc: Seq<char>, x: Seq<char>, c: char) -> (r: Seq<char>)
    requires
        no_char(acc, c),
        no_char(x, c),
    ensures
        r == acc + x,
        no_char(r, c),
{
    lemma_no_char_concat(acc, x, c);
    acc + x
}

/// `lit` stands in `l` at position `i`.
pub open spec fn lit_at(l: Seq<char>, i: int, lit: Seq<char>) -> bool {
    0 <= i && i + lit.len() <= l.len() && l.subrange(i, i + lit.len()) == lit
}

/// `c` stands in `l` at position `i`.
pub open spec fn char_at(l: Seq<char>, i: int, c: char) -> bool {
    0 <= i < l.len() && l[i] == c
}

pub fn skip_spaces_exec(l: &Vec<char>, i: usize) -> (r: usize)
    requires
        i <= l@.len(),
    ensures
        r as int == skip_spaces(l@, i as int),
        i <= r <= l@.len(),
{
    let mut j = i;
    while j < l.len() && (l[j] == ' ' || l[j] == '\t' || l[j] == '\n' || l[j] == '\r' || l[j] == '\x0B' || l[j] == '\x0C')
        invariant
            i <= j <= l@.len(),
            skip_spaces(l@, i as int) == skip_spaces(l@, j as int),
        decreases l@.len() - j,
    {
        j = j + 1;
    }
    j
}

pub fn run_until_exec(l: &Vec<char>, i: usize, c: char) -> (r: usize)
    requires
        i <= l@.len(),
    ensures
        r as int == run_until(l@, i as int, c),
        i <= r <= l@.len(),
{
    let mut j = i;
    while j < l.len() && l[j] != c
        invariant
            i <= j <= l@.len(),
            run_until(l@, i as int, c) == run_until(l@, j as int, c),
        decreases l@.len() - j,
    {
        j = j + 1;
    }
    j
}

pub fn run_number_exec(l: &Vec<char>, i: usize) -> (r: usize)
    requires
        i <= l@.len(),
    ensures
        r as int == run_number(l@, i as int),
        i <= r <= l@.len(),
{
    let mut j = i;
    while j < l.len() && (('0' <= l[j] && l[j] <= '9') || l[j] == '.')
        invariant
            i <= j <= l@.len(),
            run_number(l@, i as int) == run_number(l@, j as int),
        decreases l@.len() - j,
    {
        j = j + 1;
    }
    j
}

pub fn run_digits_exec(l: &Vec<char>, i: usize) -> (r: usize)
    requires
        i <= l@.len(),
    ensures
        r as int == run_digits(l@, i as int),
        i <= r <= l@.len(),
{
    let mut j = i;
    while j < l.len() && ('0' <= l[j] && l[j] <= '9')
        invariant
            i <= j <= l@.len(),
            run_digits(l@, i as int) == run_digits(l@, j as int),
        decreases l@.len() - j,
    {
        j = j + 1;
    }
    j
}

pub fn char_at_exec(l: &Vec<char>, i: usize, c: char) -> (r: bool)
    ensures
        r == char_at(l@, i as int, c),
{
    i < l.len() && l[i] == c
}

pub fn lit_at_exec(l: &Vec<char>, i: usize, lit: &str) -> (r: bool)
    ensures
        r == lit_at(l@, i as int, lit@),
{
    let n = lit.unicode_len();
    if i > l.len() || n > l.len() - i {
        return false;
    }
    let mut k: usize = 0;
    while k < n
        invariant
            n == lit@.len(),
            i + n <= l@.len() == l.len(),
            k <= n,
            l@.subrange(i as int, i + k) == lit@.subrange(0, k as int),
        decreases n - k,
    {
        if l[i + k] != lit.get_char(k) {
            assert(l@.subrange(i as int, i + n)[k as int] != lit@[k as int]);
            return false;
        }
        k = k + 1;
        assert(l@.subrange(i as int, i + k) =~= lit@.subrange(0, k as int));
    }
    assert(lit@.subrange(0, n as int) =~= lit@);
    true
}

/// Appends the characters of `lit`.
pub fn push_str(out: &mut Vec<char>, lit: &str)
    ensures
        final(out)@ == old(out)@ + lit@,
{
    let n = lit.unicode_len();
    let mut k: usize = 0;
    while k < n
        invariant
            n == lit@.len(),
            k <= n,
            out@ == old(out)@ + lit@.subrange(0, k as int),
        decreases n - k,
    {
        out.push(lit.get_char(k));
        k = k + 1;
        assert(out@ =~= old(out)@ + lit@.subrange(0, k as int));
    }
    assert(lit@.subrange(0, n as int) =~= lit@);
}

} // verus!
