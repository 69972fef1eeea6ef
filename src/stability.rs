//! Exporting a second time over the exporter's own output changes nothing.
use vstd::prelude::*;
use crate::history::Blob;
use crate::lava_lamp::{
    directive_at, directive_text, export_text, generator_at, generator_text, lemma_blob_lines_no_symbol,
    lemma_run_until_to, rewrite_directives, rewrite_generators,
};
use crate::round_trip::{lemma_export_shape, lemma_rewrite_generators_skip};
use crate::scan::{lit_at, no_char, run_digits, run_until};

verus! {

proof fn lemma_run_digits_suffix(x: Seq<char>, z: Seq<char>, j: int)
    requires
        0 <= j <= z.len(),
    ensures
        run_digits(x + z, x.len() + j) == x.len() + run_digits(z, j),
    decreases z.len() - j,
{
    if j < z.len() {
        assert((x + z)[x.len() + j] == z[j]);
        lemma_run_digits_suffix(x, z, j + 1);
    }
}

proof fn lemma_run_until_suffix(x: Seq<char>, z: Seq<char>, j: int, c: char)
    requires
        0 <= j <= z.len(),
    ensures
        run_until(x + z, x.len() + j, c) == x.len() + run_until(z, j, c),
    decreases z.len() - j,
{
    if j < z.len() {
        assert((x + z)[x.len() + j] == z[j]);
        lemma_run_until_suffix(x, z, j + 1, c);
    }
}

proof fn lemma_run_until_bounds(l: Seq<char>, i: int, c: char)
    requires
        0 <= i <= l.len(),
    ensures
        i <= run_until(l, i, c) <= l.len(),
        run_until(l, i, c) < l.len() ==> l[run_until(l, i, c)] == c,
    decreases l.len() - i,
{
    if i < l.len() {
        lemma_run_until_bounds(l, i + 1, c);
    }
}

proof fn lemma_lit_at_suffix(x: Seq<char>, z: Seq<char>, j: int, lit: Seq<char>)
    requires
        0 <= j <= z.len(),
    ensures
        lit_at(x + z, x.len() + j, lit) == lit_at(z, j, lit),
{
    if j + lit.len() <= z.len() {
        assert((x + z).subrange(x.len() + j, x.len() + j + lit.len()) =~= z.subrange(j, j + lit.len()));
    }
}

proof fn lemma_directive_at_suffix(x: Seq<char>, z: Seq<char>, j: int)
    requires
        0 <= j < z.len(),
    ensures
        directive_at(x + z, x.len() + j) == match directive_at(z, j) {
            Some(e) => Some(x.len() + e),
            None => None,
        },
{
    reveal_strlit("#define numBlobs ");
    lemma_lit_at_suffix(x, z, j, "#define numBlobs "@);
    if j + 17 <= z.len() {
        lemma_run_digits_suffix(x, z, j + 17);
    }
}

proof fn lemma_generator_at_suffix(x: Seq<char>, z: Seq<char>, j: int)
    requires
        0 <= j < z.len(),
    ensures
        generator_at(x + z, x.len() + j) == match generator_at(z, j) {
            Some(e) => Some(x.len() + e),
            None => None,
        },
{
    reveal_strlit("void initializeBlobs() {");
    lemma_lit_at_suffix(x, z, j, "void initializeBlobs() {"@);
    if j + 24 <= z.len() {
        lemma_run_until_suffix(x, z, j + 24, '}');
        lemma_run_until_bounds(z, j + 24, '}');
        let e = run_until(z, j + 24, '}');
        if 0 <= e < z.len() {
            assert((x + z)[x.len() + e] == z[e]);
        }
    }
}

/// Rewriting directives that all already read `rep` changes nothing.
proof fn lemma_rewrite_directives_fixed(w: Seq<char>, i: int, rep: Seq<char>)
    requires
        0 <= i <= w.len(),
        forall|k: int| i <= k < w.len() ==> (#[trigger] directive_at(w, k) matches Some(e) ==> (k < e <= w.len() && w.subrange(k, e) == rep)),
    ensures
        rewrite_directives(w, i, rep) == w.subrange(i, w.len() as int),
    decreases w.len() - i,
{
    if i < w.len() {
        match directive_at(w, i) {
            Some(e) => {
                lemma_rewrite_directives_fixed(w, e, rep);
                assert(w.subrange(i, e) + w.subrange(e, w.len() as int) =~= w.subrange(i, w.len() as int));
            },
            None => {
                lemma_rewrite_directives_fixed(w, i + 1, rep);
                assert(seq![w[i]] + w.subrange(i + 1, w.len() as int) =~= w.subrange(i, w.len() as int));
            },
        }
    } else {
        assert(w.subrange(i, w.len() as int) =~= Seq::<char>::empty());
    }
}


proof fn lemma_run_digits_bounds(l: Seq<char>, i: int)
    requires
        0 <= i <= l.len(),
    ensures
        i <= run_digits(l, i) <= l.len(),
    decreases l.len() - i,
{
    if i < l.len() {
        lemma_run_digits_bounds(l, i + 1);
    }
}

proof fn lemma_run_until_finds(l: Seq<char>, i: int, j: int, c: char)
    requires
        0 <= i <= j < l.len(),
        l[j] == c,
    ensures
        run_until(l, i, c) <= j,
    decreases j - i,
{
    if i < j && l[i] != c {
        lemma_run_until_finds(l, i + 1, j, c);
    }
}

proof fn lemma_run_digits_prefix(a: Seq<char>, r: Seq<char>, j: int)
    requires
        a.len() > 0,
        a.last() == '\n',
        0 <= j < a.len(),
    ensures
        run_digits(a + r, j) == run_digits(a, j),
    decreases a.len() - j,
{
    assert((a + r)[j] == a[j]);
    if '0' <= a[j] && a[j] <= '9' {
        lemma_run_digits_prefix(a, r, j + 1);
    }
}

proof fn lemma_lit_at_prefix(a: Seq<char>, r: Seq<char>, k: int, lit: Seq<char>)
    requires
        a.len() > 0,
        a.last() == '\n',
        no_char(lit, '\n'),
        0 <= k < a.len(),
    ensures
        lit_at(a + r, k, lit) == lit_at(a, k, lit),
        lit_at(a, k, lit) ==> k + lit.len() < a.len(),
{
    let n = lit.len() as int;
    if k + n <= a.len() {
        assert((a + r).subrange(k, k + n) =~= a.subrange(k, k + n));
        if k + n == a.len() && n > 0 && lit_at(a, k, lit) {
            assert(a.subrange(k, k + n)[n - 1] == a[a.len() - 1]);
        }
    } else if k + n <= (a + r).len() {
        assert((a + r).subrange(k, k + n)[a.len() - 1 - k] == '\n');
    }
}

proof fn lemma_directive_at_prefix(a: Seq<char>, r: Seq<char>, k: int)
    requires
        a.len() > 0,
        a.last() == '\n',
        0 <= k < a.len(),
    ensures
        directive_at(a + r, k) == directive_at(a, k),
        directive_at(a, k) matches Some(e) ==> k < e <= a.len(),
{
    reveal_strlit("#define numBlobs ");
    assert(no_char("#define numBlobs "@, '\n'));
    lemma_lit_at_prefix(a, r, k, "#define numBlobs "@);
    if lit_at(a, k, "#define numBlobs "@) {
        lemma_run_digits_prefix(a, r, k + 17);
        lemma_run_digits_bounds(a, k + 17);
    }
}

/// The generator function written for `bs` is found where it stands, and
/// ends where it ends.
proof fn lemma_generator_found(bs: Seq<Blob>, z: Seq<char>)
    ensures
        generator_at(generator_text(bs) + z, 0) == Some(generator_text(bs).len() as int),
{
    reveal_strlit("void initializeBlobs() {");
    reveal_strlit("void initializeBlobs() {\n");
    reveal_strlit("}");
    let g = generator_text(bs);
    let gz = g + z;
    let body = crate::lava_lamp::blob_lines(bs);
    lemma_blob_lines_no_symbol(bs, '}');
    assert(gz.subrange(0, 24) =~= "void initializeBlobs() {"@);
    assert forall|k: int| 24 <= k < g.len() - 1 implies #[trigger] gz[k] != '}' by {
        assert(gz[k] == g[k]);
        if k > 24 {
            assert(g[k] == body[k - 25]);
        }
    }
    assert(gz[g.len() - 1] == '}');
    lemma_run_until_to(gz, 24, g.len() - 1, '}');
}

/// The count directives of the first export's text already read the count.
#[verifier::spinoff_prover]
#[verifier::rlimit(60)]
proof fn lemma_directives_stay(bs: Seq<Blob>, a: Seq<char>, z: Seq<char>)
    requires
        a.len() > 0 && a.last() == '\n',
        forall|k: int| 0 <= k < a.len() ==> (#[trigger] directive_at(a, k) matches Some(e) ==> a.subrange(k, e) == directive_text(bs)),
        forall|k: int| 0 <= k < z.len() ==> (#[trigger] directive_at(z, k) matches Some(e) ==> z.subrange(k, e) == directive_text(bs)),
    ensures
        rewrite_directives(a + generator_text(bs) + z, 0, directive_text(bs)) == a + generator_text(bs) + z,
{
    reveal_strlit("#define numBlobs ");
    reveal_strlit("void initializeBlobs() {\n");
    reveal_strlit("}");
    let d = directive_text(bs);
    let g = generator_text(bs);
    let w = a + g + z;
    let ag = a + g;
    let p = a.len() as int;
    let q = ag.len() as int;
    assert(w =~= a + (g + z));
    lemma_blob_lines_no_symbol(bs, '#');
    let body_g = crate::lava_lamp::blob_lines(bs);
    assert forall|k: int| 0 <= k < w.len() implies (#[trigger] directive_at(w, k) matches Some(e) ==> (k < e <= w.len() && w.subrange(k, e) == d)) by {
        if k < p {
            lemma_directive_at_prefix(a, g + z, k);
            if directive_at(a, k) is Some {
                let e = directive_at(a, k)->Some_0;
                assert(w.subrange(k, e) =~= a.subrange(k, e));
            }
        } else if k < q {
            assert(w[k] == g[k - p]);
            assert(g[k - p] != '#') by {
                if k - p >= 25 && k - p < 25 + body_g.len() {
                    assert(g[k - p] == body_g[k - p - 25]);
                }
            }
            if lit_at(w, k, "#define numBlobs "@) {
                assert(w.subrange(k, k + 17)[0] == w[k]);
            }
        } else {
            lemma_directive_at_suffix(ag, z, k - q);
            assert(w == ag + z);
            if directive_at(z, k - q) is Some {
                let e = directive_at(z, k - q)->Some_0;
                lemma_run_digits_bounds(z, k - q + 17);
                assert(w.subrange(k, q + e) =~= z.subrange(k - q, e));
            }
        }
    }
    lemma_rewrite_directives_fixed(w, 0, d);
    assert(w.subrange(0, w.len() as int) =~= w);
}

/// The generator function of the first export's text is the only one, and
/// is rewritten into itself.
#[verifier::spinoff_prover]
#[verifier::rlimit(60)]
proof fn lemma_generators_stay(bs: Seq<Blob>, u: Seq<char>, a: Seq<char>, body: Seq<char>, z: Seq<char>)
    requires
        u == a + "void initializeBlobs() {"@ + body + "}"@ + z,
        a.len() > 0 && a.last() == '\n',
        forall|k: int| 0 <= k < a.len() ==> #[trigger] generator_at(u, k) is None,
        forall|k: int| 0 <= k < z.len() ==> #[trigger] generator_at(u, a.len() + 25 + body.len() + k) is None,
    ensures
        rewrite_generators(a + generator_text(bs) + z, 0, generator_text(bs)) == a + generator_text(bs) + z,
{
    reveal_strlit("void initializeBlobs() {");
    reveal_strlit("}");
    let hdr = "void initializeBlobs() {"@;
    let g = generator_text(bs);
    let w = a + g + z;
    let ag = a + g;
    let p = a.len() as int;
    let q = ag.len() as int;
    assert(w =~= a + (g + z));
    let tail = hdr + body + "}"@;
    assert(u =~= a + (tail + z));
    assert forall|k: int| 0 <= k < p implies #[trigger] generator_at(w, k) is None by {
        assert(no_char(hdr, '\n'));
        lemma_lit_at_prefix(a, g + z, k, hdr);
        lemma_lit_at_prefix(a, tail + z, k, hdr);
        if lit_at(a, k, hdr) {
            let e = p + 25 + body.len();
            assert(u[e - 1] == '}');
            lemma_run_until_finds(u, k + 24, e - 1, '}');
            lemma_run_until_bounds(u, k + 24, '}');
            assert(generator_at(u, k) is Some);
        }
    }
    lemma_rewrite_generators_skip(w, 0, p, g);
    lemma_generator_found(bs, z);
    lemma_generator_at_suffix(a, g + z, 0);
    assert(generator_at(w, p) == Some(q));
    assert forall|k: int| q <= k < w.len() implies #[trigger] generator_at(w, k) is None by {
        assert(w == ag + z);
        lemma_generator_at_suffix(ag, z, k - q);
        let x = a + tail;
        assert(u =~= x + z);
        lemma_generator_at_suffix(x, z, k - q);
        assert(generator_at(u, a.len() + 25 + body.len() + (k - q)) is None);
    }
    lemma_rewrite_generators_skip(w, q, w.len() as int, g);
    assert(w.subrange(0, p) =~= a);
    assert(w.subrange(q, w.len() as int) =~= z);
    assert(rewrite_generators(w, w.len() as int, g) == Seq::<char>::empty());
    assert(g + rewrite_generators(w, q, g) =~= g + z);
    assert(a + (g + z) =~= w);
}

/// Exporting again over what export wrote changes nothing: for a base text
/// as in the round trip (one generator function between whole lines `a`
/// and `z`), whose count directives outside the generator function read the
/// record count once rewritten, a second export of the same records gives
/// back the first export's text byte for byte.
pub proof fn law_export_is_idempotent(bs: Seq<Blob>, t: Seq<char>, a: Seq<char>, body: Seq<char>, z: Seq<char>)
    requires
        rewrite_directives(t, 0, directive_text(bs)) == a + "void initializeBlobs() {"@ + body + "}"@ + z,
        no_char(body, '}'),
        a.len() > 0 && a.last() == '\n',
        forall|k: int| 0 <= k < a.len() ==> #[trigger] generator_at(rewrite_directives(t, 0, directive_text(bs)), k) is None,
        forall|k: int| 0 <= k < z.len() ==> #[trigger] generator_at(
            rewrite_directives(t, 0, directive_text(bs)),
            a.len() + 25 + body.len() + k,
        ) is None,
        forall|k: int| 0 <= k < a.len() ==> (#[trigger] directive_at(a, k) matches Some(e) ==> a.subrange(k, e) == directive_text(bs)),
        forall|k: int| 0 <= k < z.len() ==> (#[trigger] directive_at(z, k) matches Some(e) ==> z.subrange(k, e) == directive_text(bs)),
    ensures
        export_text(bs, export_text(bs, t)) == export_text(bs, t),
{
    lemma_export_shape(bs, t, a, body, z);
    lemma_directives_stay(bs, a, z);
    lemma_generators_stay(bs, rewrite_directives(t, 0, directive_text(bs)), a, body, z);
}

} // verus!
