//! Decimal numbers as they appear in shader source, and their text form.
use vstd::prelude::*;

verus! {

/// Largest mantissa (exclusive) a well-formed decimal may carry.
pub const MANTISSA_LIMIT: u64 = 1_000_000_000_000_000_000;

/// Largest number of fractional digits a well-formed decimal may carry.
pub const MAX_SCALE: u32 = 18;

/// A decimal number `(-1)^negative * mantissa / 10^scale`, kept in normal form:
/// no trailing zero in the fraction and no negative zero.
#[derive(Clone, Copy, Debug, PartialEq, Eq, Structural)]
pub struct Decimal {
    pub negative: bool,
    pub mantissa: u64,
    pub scale: u32,
}

pub open spec fn pow10(k: nat) -> nat
    decreases k,
{
    if k == 0 { 1 } else { 10 * pow10((k - 1) as nat) }
}

pub open spec fn is_digit(c: char) -> bool {
    '0' <= c && c <= '9'
}

pub open spec fn digit_value(c: char) -> nat {
    (c as nat - '0' as nat) as nat
}

pub open spec fn digit_char(d: nat) -> char {
    ((d + '0' as nat) as u8) as char
}

pub open spec fn all_digits(s: Seq<char>) -> bool {
    forall|i: int| 0 <= i < s.len() ==> is_digit(#[trigger] s[i])
}

/// The number that a run of decimal digits denotes.
pub open spec fn digits_value(s: Seq<char>) -> nat
    decreases s.len(),
{
    if s.len() == 0 {
        0
    } else {
        digits_value(s.drop_last()) * 10 + digit_value(s.last())
    }
}

/// Shortest decimal digits of `n`.
pub open spec fn digits_of(n: nat) -> Seq<char>
    decreases n,
{
    if n < 10 {
        seq![digit_char(n)]
    } else {
        digits_of(n / 10).push(digit_char(n % 10))
    }
}

/// The last `k` decimal digits of `n`, with leading zeros.
pub open spec fn padded_digits(n: nat, k: nat) -> Seq<char>
    decreases k,
{
    if k == 0 {
        seq![]
    } else {
        padded_digits(n / 10, (k - 1) as nat).push(digit_char(n % 10))
    }
}

impl Decimal {
    /// Normal form within the representable range.
    pub open spec fn wf(self) -> bool {
        &&& self.mantissa < MANTISSA_LIMIT
        &&& self.scale <= MAX_SCALE
        &&& (self.scale == 0 || self.mantissa % 10 != 0)
        &&& (self.mantissa == 0 ==> !self.negative)
    }
}

/// Drops trailing fractional zeros and the sign of zero.
pub open spec fn normalize(negative: bool, mantissa: nat, scale: nat) -> (nat, nat, bool)
    decreases scale,
{
    if scale > 0 && mantissa % 10 == 0 {
        normalize(negative, mantissa / 10, (scale - 1) as nat)
    } else {
        (mantissa, scale, negative && mantissa != 0)
    }
}

/// Position of the first `c` in `s`, or `s.len()` when there is none.
pub open spec fn find_char(s: Seq<char>, c: char) -> nat
    decreases s.len(),
{
    if s.len() == 0 {
        0
    } else if s[0] == c {
        0
    } else {
        1 + find_char(s.drop_first(), c)
    }
}

/// How many digits of `frac`, from the `k`-th on, are kept after the digits
/// read so far, whose value is `v`: a digit is kept while the value read
/// stays below `MANTISSA_LIMIT` and the places within `MAX_SCALE`; the
/// digits after the first one dropped are dropped too, so that a long
/// fraction is cut to what a decimal can hold.
pub open spec fn kept_fraction(v: nat, frac: Seq<char>, k: nat) -> nat
    decreases frac.len() - k,
{
    if k >= frac.len() || k >= MAX_SCALE || v * 10 + digit_value(frac[k as int]) >= MANTISSA_LIMIT {
        k
    } else {
        kept_fraction(v * 10 + digit_value(frac[k as int]), frac, k + 1)
    }
}

/// What a numeric literal `[-]digits[.digits]` denotes, if it is one and its
/// integer part fits; fraction digits beyond what fits are cut off.
pub open spec fn spec_parse_decimal(s: Seq<char>) -> Option<Decimal> {
    let negative = s.len() > 0 && s[0] == '-';
    let body = if negative { s.drop_first() } else { s };
    let dot = find_char(body, '.');
    let int_part = body.subrange(0, dot as int);
    let frac_part = if dot < body.len() { body.subrange((dot + 1) as int, body.len() as int) } else { seq![] };
    let all = int_part + frac_part;
    if all.len() == 0 || !all_digits(all) || digits_value(int_part) >= MANTISSA_LIMIT {
        None
    } else {
        let k = kept_fraction(digits_value(int_part), frac_part, 0);
        let (m, sc, neg) = normalize(negative, digits_value(int_part + frac_part.subrange(0, k as int)), k);
        Some(Decimal { negative: neg, mantissa: m as u64, scale: sc as u32 })
    }
}

/// Source text of a decimal: always with a decimal point and at least one
/// digit on each side of it.
pub open spec fn render(d: Decimal) -> Seq<char> {
    let sign: Seq<char> = if d.negative { seq!['-'] } else { seq![] };
    let int_part = digits_of(d.mantissa as nat / pow10(d.scale as nat));
    let frac = if d.scale == 0 {
        seq!['0']
    } else {
        padded_digits(d.mantissa as nat % pow10(d.scale as nat), d.scale as nat)
    };
    sign + int_part + seq!['.'] + frac
}


pub proof fn lemma_pow10_positive(k: nat)
    ensures
        pow10(k) >= 1,
    decreases k,
{
    if k > 0 {
        lemma_pow10_positive((k - 1) as nat);
    }
}

pub proof fn lemma_pow10_mono(a: nat, b: nat)
    requires
        a <= b,
    ensures
        pow10(a) <= pow10(b),
    decreases b,
{
    if a < b {
        lemma_pow10_mono(a, (b - 1) as nat);
        lemma_pow10_positive((b - 1) as nat);
    }
}

proof fn lemma_pow10_18()
    ensures
        pow10(18) == 1_000_000_000_000_000_000,
{
    reveal_with_fuel(pow10, 19);
}

/// Ten to the power `k`, for the scales a decimal may have.
fn pow10_exec(k: u32) -> (r: u64)
    requires
        k <= MAX_SCALE,
    ensures
        r as nat == pow10(k as nat),
{
    let mut p: u64 = 1;
    let mut i: u32 = 0;
    while i < k
        invariant
            i <= k <= MAX_SCALE,
            p as nat == pow10(i as nat),
        decreases k - i,
    {
        proof {
            lemma_pow10_mono((i + 1) as nat, 18);
            lemma_pow10_18();
        }
        p = p * 10;
        i = i + 1;
    }
    p
}

/// Appends the shortest decimal digits of `n`.
fn push_digits(n: u64, out: &mut Vec<char>)
    ensures
        final(out)@ == old(out)@ + digits_of(n as nat),
    decreases n,
{
    if n < 10 {
        out.push(((n as u8) + 48u8) as char);
        assert(final(out)@ =~= old(out)@ + digits_of(n as nat));
    } else {
        push_digits(n / 10, out);
        out.push((((n % 10) as u8) + 48u8) as char);
        assert(final(out)@ =~= old(out)@ + digits_of(n as nat));
    }
}

/// Appends the last `k` decimal digits of `n`, with leading zeros.
fn push_padded_digits(n: u64, k: u32, out: &mut Vec<char>)
    ensures
        final(out)@ == old(out)@ + padded_digits(n as nat, k as nat),
    decreases k,
{
    if k == 0 {
        assert(final(out)@ =~= old(out)@ + padded_digits(n as nat, k as nat));
    } else {
        push_padded_digits(n / 10, k - 1, out);
        out.push((((n % 10) as u8) + 48u8) as char);
        assert(final(out)@ =~= old(out)@ + padded_digits(n as nat, k as nat));
    }
}

/// Appends the source text of `d`.
pub fn push_decimal(d: Decimal, out: &mut Vec<char>)
    requires
        d.wf(),
    ensures
        final(out)@ == old(out)@ + render(d),
{
    let ghost start = out@;
    if d.negative {
        out.push('-');
    }
    let p = pow10_exec(d.scale);
    proof {
        lemma_pow10_positive(d.scale as nat);
    }
    push_digits(d.mantissa / p, out);
    out.push('.');
    if d.scale == 0 {
        out.push('0');
    } else {
        push_padded_digits(d.mantissa % p, d.scale, out);
    }
    assert(final(out)@ =~= start + render(d));
}

/// Text of a number as a shader literal: the decimal point is always present,
/// so an integral value gets a `.0` fraction.
pub fn float_to_string_decimal(d: Decimal) -> (r: String)
    requires
        d.wf(),
    ensures
        r@ == render(d),
        r@.contains('.'),
{
    let mut out: Vec<char> = Vec::new();
    push_decimal(d, &mut out);
    proof {
        let sign: Seq<char> = if d.negative { seq!['-'] } else { seq![] };
        let i = sign.len() + digits_of(d.mantissa as nat / pow10(d.scale as nat)).len();
        assert(render(d)[i as int] == '.');
    }
    crate::text::string_from_chars(&out)
}


proof fn lemma_find_char(s: Seq<char>, c: char, idx: nat)
    requires
        idx <= s.len(),
        forall|i: int| 0 <= i < idx ==> s[i] != c,
        idx < s.len() ==> s[idx as int] == c,
    ensures
        find_char(s, c) == idx,
    decreases idx,
{
    if idx > 0 {
        lemma_find_char(s.drop_first(), c, (idx - 1) as nat);
    }
}

proof fn lemma_digits_value_grows(s: Seq<char>, j: int)
    requires
        0 <= j <= s.len(),
    ensures
        digits_value(s.subrange(0, j)) <= digits_value(s),
    decreases s.len(),
{
    if j < s.len() {
        assert(s.drop_last().subrange(0, j) =~= s.subrange(0, j));
        lemma_digits_value_grows(s.drop_last(), j);
    } else {
        assert(s.subrange(0, j) =~= s);
    }
}

proof fn lemma_normalize_shape(negative: bool, m: nat, k: nat)
    ensures
        normalize(negative, m, k).0 <= m,
        normalize(negative, m, k).1 <= k,
        normalize(negative, m, k).1 == 0 || normalize(negative, m, k).0 % 10 != 0,
        normalize(negative, m, k).0 == 0 ==> !normalize(negative, m, k).2,
    decreases k,
{
    if k > 0 && m % 10 == 0 {
        lemma_normalize_shape(negative, m / 10, (k - 1) as nat);
    }
}

/// Reads the literal `text[start..end]` as a decimal.
#[verifier::rlimit(80)]
#[verifier::spinoff_prover]
pub fn parse_decimal(text: &Vec<char>, start: usize, end: usize) -> (r: Option<Decimal>)
    requires
        start <= end <= text@.len(),
    ensures
        r == spec_parse_decimal(text@.subrange(start as int, end as int)),
        r matches Some(d) ==> d.wf(),
{
    let ghost s = text@.subrange(start as int, end as int);
    let negative = start < end && text[start] == '-';
    let b: usize = if negative { start + 1 } else { start };
    let ghost body = if negative { s.drop_first() } else { s };
    assert(body =~= text@.subrange(b as int, end as int));
    let mut dot: usize = b;
    while dot < end && text[dot] != '.'
        invariant
            b <= dot <= end <= text@.len(),
            forall|i: int| b <= i < dot ==> text@[i] != '.',
        decreases end - dot,
    {
        dot = dot + 1;
    }
    proof {
        lemma_find_char(body, '.', (dot - b) as nat);
    }
    let frac_start: usize = if dot < end { dot + 1 } else { end };
    let ghost int_part = body.subrange(0, (dot - b) as int);
    let ghost frac_part = if dot < end { body.subrange((dot - b) + 1, body.len() as int) } else { seq![] };
    let ghost all = int_part + frac_part;
    assert(int_part =~= text@.subrange(b as int, dot as int));
    assert(frac_part =~= text@.subrange(frac_start as int, end as int));
    let n_int: usize = dot - b;
    let n_all: usize = n_int + (end - frac_start);
    assert(all.len() == n_all);
    if n_all == 0 {
        return None;
    }
    let mut k: usize = 0;
    while k < n_all
        invariant
            b <= dot <= end <= text@.len(),
            frac_start <= end,
            n_int == dot - b,
            n_all == n_int + (end - frac_start),
            all.len() == n_all,
            all =~= text@.subrange(b as int, dot as int) + text@.subrange(frac_start as int, end as int),
            k <= n_all,
            start <= b <= dot <= end <= text@.len(),
            s == text@.subrange(start as int, end as int),
            negative == (s.len() > 0 && s[0] == '-'),
            body == (if negative { s.drop_first() } else { s }),
            body =~= text@.subrange(b as int, end as int),
            find_char(body, '.') == dot - b,
            int_part == body.subrange(0, (dot - b) as int),
            frac_part == (if dot < end { body.subrange((dot - b) + 1, body.len() as int) } else { seq![] }),
            all == int_part + frac_part,
            all_digits(all.subrange(0, k as int)),
        decreases n_all - k,
    {
        let c = if k < n_int { text[b + k] } else { text[frac_start + (k - n_int)] };
        assert(c == all[k as int]);
        if !('0' <= c && c <= '9') {
            assert(!is_digit(all[k as int]));
            return None;
        }
        k = k + 1;
        assert forall|i: int| 0 <= i < k implies is_digit(#[trigger] all.subrange(0, k as int)[i]) by {
            if i < k - 1 {
                assert(all.subrange(0, k as int)[i] == all.subrange(0, k - 1)[i]);
            }
        }
    }
    assert(all.subrange(0, k as int) =~= all);
    assert(all_digits(all));
    assert forall|i: int| 0 <= i < int_part.len() implies is_digit(#[trigger] int_part[i]) by {
        assert(int_part[i] == all[i]);
    }
    assert forall|i: int| 0 <= i < frac_part.len() implies is_digit(#[trigger] frac_part[i]) by {
        assert(frac_part[i] == all[int_part.len() + i]);
    }
    let mut acc: u64 = 0;
    let mut j: usize = 0;
    assert(int_part.subrange(0, 0) =~= Seq::<char>::empty());
    while j < n_int
        invariant
            b <= dot <= end <= text@.len(),
            n_int == dot - b,
            int_part =~= text@.subrange(b as int, dot as int),
            all_digits(int_part),
            all_digits(all),
            start <= b <= dot <= end <= text@.len(),
            s == text@.subrange(start as int, end as int),
            negative == (s.len() > 0 && s[0] == '-'),
            body == (if negative { s.drop_first() } else { s }),
            body =~= text@.subrange(b as int, end as int),
            find_char(body, '.') == dot - b,
            int_part == body.subrange(0, (dot - b) as int),
            frac_part == (if dot < end { body.subrange((dot - b) + 1, body.len() as int) } else { seq![] }),
            all == int_part + frac_part,
            j <= n_int,
            acc as nat == digits_value(int_part.subrange(0, j as int)),
            acc < MANTISSA_LIMIT,
        decreases n_int - j,
    {
        let c = text[b + j];
        assert(c == int_part[j as int]);
        assert(int_part.subrange(0, j + 1).drop_last() =~= int_part.subrange(0, j as int));
        let d: u64 = ((c as u32) - 48u32) as u64;
        assert(digits_value(int_part.subrange(0, j + 1)) == acc * 10 + d);
        if acc * 10 + d >= MANTISSA_LIMIT {
            proof {
                lemma_digits_value_grows(int_part, j + 1);
            }
            return None;
        }
        acc = acc * 10 + d;
        j = j + 1;
    }
    assert(int_part.subrange(0, j as int) =~= int_part);
    let n_frac: usize = end - frac_start;
    assert(frac_part.len() == n_frac);
    let ghost v_int = acc as nat;
    let mut kept: usize = 0;
    assert(int_part + frac_part.subrange(0, 0) =~= int_part);
    while kept < n_frac && kept < 18 && acc * 10 + (((text[frac_start + kept] as u32) - 48u32) as u64) < MANTISSA_LIMIT
        invariant
            frac_start <= end <= text@.len(),
            n_frac == end - frac_start,
            frac_part =~= text@.subrange(frac_start as int, end as int),
            all_digits(frac_part),
            kept <= n_frac,
            kept <= 18,
            acc as nat == digits_value(int_part + frac_part.subrange(0, kept as int)),
            acc < MANTISSA_LIMIT,
            kept_fraction(v_int, frac_part, 0) == kept_fraction(acc as nat, frac_part, kept as nat),
        decreases n_frac - kept,
    {
        let c = text[frac_start + kept];
        assert(c == frac_part[kept as int]);
        let d: u64 = ((c as u32) - 48u32) as u64;
        assert((int_part + frac_part.subrange(0, kept + 1)).drop_last() =~= int_part + frac_part.subrange(0, kept as int));
        assert((int_part + frac_part.subrange(0, kept + 1)).last() == c);
        acc = acc * 10 + d;
        kept = kept + 1;
    }
    proof {
        if kept < n_frac && kept < 18 {
            assert(frac_part[kept as int] == text@[frac_start + kept]);
        }
    }
    assert(kept_fraction(v_int, frac_part, 0) == kept);
    let mut m: u64 = acc;
    let mut scale: usize = kept;
    while scale > 0 && m % 10 == 0
        invariant
            normalize(negative, m as nat, scale as nat) == normalize(negative, acc as nat, kept as nat),
            m <= acc,
            scale <= kept <= 18,
        decreases scale,
    {
        m = m / 10;
        scale = scale - 1;
    }
    proof {
        lemma_normalize_shape(negative, acc as nat, kept as nat);
    }
    Some(Decimal { negative: negative && m != 0, mantissa: m, scale: scale as u32 })
}


proof fn lemma_digit_char(d: nat)
    requires
        d < 10,
    ensures
        is_digit(digit_char(d)),
        digit_value(digit_char(d)) == d,
{
}

pub(crate) proof fn lemma_digits_of(n: nat)
    ensures
        all_digits(digits_of(n)),
        digits_value(digits_of(n)) == n,
        digits_of(n).len() >= 1,
    decreases n,
{
    let s = digits_of(n);
    if n < 10 {
        lemma_digit_char(n);
        assert(s.drop_last() =~= Seq::<char>::empty());
        assert(digits_value(s.drop_last()) == 0);
        assert(s.last() == digit_char(n));
    } else {
        lemma_digits_of(n / 10);
        lemma_digit_char(n % 10);
        assert(s.drop_last() =~= digits_of(n / 10));
        assert(s.last() == digit_char(n % 10));
        assert(digits_value(s) == digits_value(digits_of(n / 10)) * 10 + digit_value(digit_char(n % 10)));
        assert((n / 10) * 10 + n % 10 == n);
        assert forall|i: int| 0 <= i < s.len() implies is_digit(#[trigger] s[i]) by {
            if i < s.len() - 1 {
                assert(s[i] == digits_of(n / 10)[i]);
            }
        }
    }
}

pub(crate) proof fn lemma_padded_digits(n: nat, k: nat)
    ensures
        all_digits(padded_digits(n, k)),
        padded_digits(n, k).len() == k,
        digits_value(padded_digits(n, k)) == n % pow10(k),
    decreases k,
{
    let s = padded_digits(n, k);
    if k == 0 {
        assert(s.len() == 0);
    } else {
        let p = pow10((k - 1) as nat);
        lemma_padded_digits(n / 10, (k - 1) as nat);
        lemma_digit_char(n % 10);
        lemma_pow10_positive((k - 1) as nat);
        assert(s.drop_last() =~= padded_digits(n / 10, (k - 1) as nat));
        vstd::arithmetic::div_mod::lemma_breakdown(n as int, 10, p as int);
        assert forall|i: int| 0 <= i < s.len() implies is_digit(#[trigger] s[i]) by {
            if i < s.len() - 1 {
                assert(s[i] == padded_digits(n / 10, (k - 1) as nat)[i]);
            }
        }
    }
}

proof fn lemma_digits_value_concat(a: Seq<char>, b: Seq<char>)
    ensures
        digits_value(a + b) == digits_value(a) * pow10(b.len()) + digits_value(b),
    decreases b.len(),
{
    if b.len() == 0 {
        assert(a + b =~= a);
        assert(pow10(0) == 1);
        assert(digits_value(b) == 0);
        assert(digits_value(a) * 1 == digits_value(a));
    } else {
        let b1 = b.drop_last();
        assert((a + b).drop_last() =~= a + b1);
        assert((a + b).last() == b.last());
        lemma_digits_value_concat(a, b1);
        let va = digits_value(a);
        let p = pow10(b1.len());
        let vb1 = digits_value(b1);
        let dl = digit_value(b.last());
        assert(digits_value(a + b) == digits_value(a + b1) * 10 + dl);
        assert(digits_value(b) == vb1 * 10 + dl);
        assert(pow10(b.len()) == 10 * p);
        assert((va * p + vb1) * 10 == va * (10 * p) + vb1 * 10) by (nonlinear_arith);
    }
}

/// Reading back the text of a well-formed decimal gives that decimal.
pub proof fn lemma_parse_render(d: Decimal)
    requires
        d.wf(),
    ensures
        spec_parse_decimal(render(d)) == Some(d),
{
    let p = pow10(d.scale as nat);
    lemma_pow10_positive(d.scale as nat);
    let q = d.mantissa as nat / p;
    let m = d.mantissa as nat;
    let ip = digits_of(q);
    let frac = if d.scale == 0 { seq!['0'] } else { padded_digits(m % p, d.scale as nat) };
    lemma_digits_of(q);
    if d.scale > 0 {
        lemma_padded_digits(m % p, d.scale as nat);
    } else {
        lemma_digit_char(0);
        assert(frac.drop_last() =~= Seq::<char>::empty());
    }
    let sign: Seq<char> = if d.negative { seq!['-'] } else { seq![] };
    let s = render(d);
    let body = ip + seq!['.'] + frac;
    assert(s =~= sign + body);
    assert(ip[0] != '-');
    if d.negative {
        assert(s.drop_first() =~= body);
    }
    lemma_find_char(body, '.', ip.len());
    assert(body.subrange(0, ip.len() as int) =~= ip);
    assert(body.subrange((ip.len() + 1) as int, body.len() as int) =~= frac);
    let all = ip + frac;
    assert forall|i: int| 0 <= i < all.len() implies is_digit(#[trigger] all[i]) by {
        if i < ip.len() {
            assert(all[i] == ip[i]);
        } else {
            assert(all[i] == frac[i - ip.len()]);
        }
    }
    lemma_digits_value_concat(ip, frac);
    vstd::arithmetic::div_mod::lemma_fundamental_div_mod(m as int, p as int);
    assert(digits_value(all) == digits_value(ip) * pow10(frac.len()) + digits_value(frac));
    assert(digits_value(ip) == q);
    if d.scale > 0 {
        assert(frac.len() == d.scale);
        assert(m % p < p);
        vstd::arithmetic::div_mod::lemma_small_mod((m % p) as nat, p as nat);
        assert(digits_value(frac) == m % p);
        assert(digits_value(all) == q * p + m % p);
        assert(digits_value(all) == m);
    } else {
        assert(p == 1);
        assert(q == m) by (nonlinear_arith)
            requires
                p == 1,
                q == m / p,
        ;
        assert(frac.len() == 1);
        assert(pow10(1) == 10) by {
            reveal_with_fuel(pow10, 2);
        }
        assert(frac =~= seq!['0']);
        assert(frac.drop_last() =~= Seq::<char>::empty());
        assert(frac.last() == '0');
        assert(digit_value('0') == 0);
        assert(digits_value(frac) == digits_value(frac.drop_last()) * 10 + digit_value(frac.last()));
        assert(digits_value(frac) == 0);
        assert(digits_value(all) == m * 10);
        assert((m * 10) % 10 == 0);
        assert((m * 10) / 10 == m) by (nonlinear_arith);
        assert(normalize(d.negative, m * 10, 1) == normalize(d.negative, m, 0));
    }
    let negative = s.len() > 0 && s[0] == '-';
    assert(negative == d.negative);
    let body2 = if negative { s.drop_first() } else { s };
    assert(body2 == body);
    assert(find_char(body2, '.') == ip.len());
    assert(ip.len() < body2.len());
    let frac_part = body2.subrange((ip.len() + 1) as int, body2.len() as int);
    assert(frac_part == frac);
    assert(body2.subrange(0, ip.len() as int) =~= ip);
    assert(q <= m) by (nonlinear_arith)
        requires
            q == m / p,
            p >= 1,
    ;
    assert(digits_value(ip) < MANTISSA_LIMIT);
    if d.scale > 0 {
        lemma_kept_all(ip, frac, 0);
        assert(ip + frac.subrange(0, 0) =~= ip);
        assert(frac.subrange(0, frac.len() as int) =~= frac);
        assert(kept_fraction(q, frac, 0) == frac.len());
    } else {
        assert(frac.subrange(0, 1) =~= frac);
        assert(ip + frac.subrange(0, 0) =~= ip);
        if q * 10 + digit_value(frac[0]) < MANTISSA_LIMIT {
            assert(kept_fraction(q * 10 + digit_value(frac[0]), frac, 1) == 1);
            assert(kept_fraction(q, frac, 0) == 1);
        } else {
            assert(kept_fraction(q, frac, 0) == 0);
        }
    }
}

proof fn lemma_kept_all(ip: Seq<char>, frac: Seq<char>, j: nat)
    requires
        all_digits(frac),
        frac.len() <= MAX_SCALE,
        j <= frac.len(),
        digits_value(ip + frac) < MANTISSA_LIMIT,
    ensures
        kept_fraction(digits_value(ip + frac.subrange(0, j as int)), frac, j) == frac.len(),
    decreases frac.len() - j,
{
    if j < frac.len() {
        let all = ip + frac;
        let pre = ip + frac.subrange(0, j as int);
        let pre1 = ip + frac.subrange(0, (j + 1) as int);
        assert(pre1.drop_last() =~= pre);
        assert(pre1.last() == frac[j as int]);
        assert(all.subrange(0, (ip.len() + j + 1) as int) =~= pre1);
        lemma_digits_value_grows(all, (ip.len() + j + 1) as int);
        lemma_kept_all(ip, frac, j + 1);
    }
}

} // verus!
