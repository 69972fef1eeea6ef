//! The lava-lamp parameter parser: records read from shader text, edited
//! through a reversible history, and written back into the text.
use vstd::prelude::*;
use rand::Rng;
use crate::decimal::{
    digits_of, is_digit, lemma_digits_of, lemma_padded_digits, padded_digits, pow10, push_decimal, render, Decimal,
};
use crate::grammar::{parse_blob_definition, spec_parse_line};
use crate::history::{
    all_wf, can_apply, cmd_wf, history_redo_spec, history_undo_spec, record_spec, zero_blob, zero_blob_spec,
    Blob, BlobsEdit, EditHistory,
};
use crate::scan::{
    char_at, char_at_exec, lemma_no_char_concat, lemma_no_char_extend, lit_at, lit_at_exec, no_char, push_str,
    run_digits, run_digits_exec, run_until, run_until_exec,
};
use crate::text::{chars_of, string_from_chars};
use vstd::seq_lib::lemma_concat_associative;

verus! {

/// Lines of `s` cut at line feeds, with what follows the last line feed as a
/// last line when it is not empty: the completed lines and the open one.
pub open spec fn split_lines(s: Seq<char>) -> (Seq<Seq<char>>, Seq<char>)
    decreases s.len(),
{
    if s.len() == 0 {
        (seq![], seq![])
    } else {
        let (ls, cur) = split_lines(s.drop_last());
        if s.last() == '\n' {
            (ls.push(cur), seq![])
        } else {
            (ls, cur.push(s.last()))
        }
    }
}

pub open spec fn text_lines(s: Seq<char>) -> Seq<Seq<char>> {
    let (ls, cur) = split_lines(s);
    if cur.len() > 0 {
        ls.push(cur)
    } else {
        ls
    }
}

/// The records that `lines` define, in line order.
pub open spec fn blobs_of_lines(lines: Seq<Seq<char>>) -> Seq<Blob>
    decreases lines.len(),
{
    if lines.len() == 0 {
        seq![]
    } else {
        blobs_of_lines(lines.drop_last()) + match spec_parse_line(lines.last()) {
            Some(b) => seq![b],
            None => seq![],
        }
    }
}

/// The records that shader text `s` defines. A carriage return before a line
/// feed never belongs to a record call, so lines are cut at line feeds alone.
pub open spec fn blobs_of_text(s: Seq<char>) -> Seq<Blob> {
    blobs_of_lines(text_lines(s))
}

/// End of the count directive `#define numBlobs <digits>` that starts at `i`.
pub open spec fn directive_at(t: Seq<char>, i: int) -> Option<int> {
    let d = run_digits(t, i + 17);
    if lit_at(t, i, "#define numBlobs "@) && d > i + 17 {
        Some(d)
    } else {
        None
    }
}

/// End of the generator function `void initializeBlobs() {...}` that starts at `i`.
pub open spec fn generator_at(t: Seq<char>, i: int) -> Option<int> {
    let e = run_until(t, i + 24, '}');
    if lit_at(t, i, "void initializeBlobs() {"@) && char_at(t, e, '}') {
        Some(e + 1)
    } else {
        None
    }
}

/// `t[i..]` with each count directive, left to right, replaced by `rep`.
pub open spec fn rewrite_directives(t: Seq<char>, i: int, rep: Seq<char>) -> Seq<char>
    decreases t.len() - i,
{
    if i < 0 || i >= t.len() {
        seq![]
    } else {
        match directive_at(t, i) {
            Some(e) => if i < e <= t.len() {
                rep + rewrite_directives(t, e, rep)
            } else {
                seq![t[i]] + rewrite_directives(t, i + 1, rep)
            },
            None => seq![t[i]] + rewrite_directives(t, i + 1, rep),
        }
    }
}

/// `t[i..]` with each generator function, left to right, replaced by `rep`.
pub open spec fn rewrite_generators(t: Seq<char>, i: int, rep: Seq<char>) -> Seq<char>
    decreases t.len() - i,
{
    if i < 0 || i >= t.len() {
        seq![]
    } else {
        match generator_at(t, i) {
            Some(e) => if i < e <= t.len() {
                rep + rewrite_generators(t, e, rep)
            } else {
                seq![t[i]] + rewrite_generators(t, i + 1, rep)
            },
            None => seq![t[i]] + rewrite_generators(t, i + 1, rep),
        }
    }
}

/// The generated line that sets up record `i`.
pub open spec fn blob_line(i: nat, b: Blob) -> Seq<char> {
    "    blobs["@ + digits_of(i) + "] = Blob(vec2(0), vec3("@ + render(b.color[0]) + ", "@ + render(
        b.color[1],
    ) + ", "@ + render(b.color[2]) + "), "@ + render(b.size) + ", "@ + render(b.speed) + ", "@
        + render(b.smoothness) + ");\n"@
}

/// The generated lines for all of `bs`, in order.
pub open spec fn blob_lines(bs: Seq<Blob>) -> Seq<char>
    decreases bs.len(),
{
    if bs.len() == 0 {
        seq![]
    } else {
        blob_lines(bs.drop_last()) + blob_line((bs.len() - 1) as nat, bs.last())
    }
}

pub open spec fn directive_text(bs: Seq<Blob>) -> Seq<char> {
    "#define numBlobs "@ + digits_of(bs.len())
}

pub open spec fn generator_text(bs: Seq<Blob>) -> Seq<char> {
    "void initializeBlobs() {\n"@ + blob_lines(bs) + "}"@
}

/// Shader text `t` regenerated from records `bs`: the count directive and the
/// generator body are rewritten, everything else is kept.
pub open spec fn export_text(bs: Seq<Blob>, t: Seq<char>) -> Seq<char> {
    rewrite_generators(rewrite_directives(t, 0, directive_text(bs)), 0, generator_text(bs))
}

fn directive_at_exec(t: &Vec<char>, i: usize) -> (r: Option<usize>)
    requires
        i <= t@.len(),
    ensures
        r matches Some(e) ==> directive_at(t@, i as int) == Some(e as int),
        r is None ==> directive_at(t@, i as int) is None,
        r matches Some(e) ==> i < e <= t@.len(),
{
    proof {
        reveal_strlit("#define numBlobs ");
    }
    assert(t@.len() == t.len());
    if !lit_at_exec(t, i, "#define numBlobs ") {
        return None;
    }
    let d = run_digits_exec(t, i + 17);
    if d > i + 17 {
        Some(d)
    } else {
        None
    }
}

fn generator_at_exec(t: &Vec<char>, i: usize) -> (r: Option<usize>)
    requires
        i <= t@.len(),
    ensures
        r matches Some(e) ==> generator_at(t@, i as int) == Some(e as int),
        r is None ==> generator_at(t@, i as int) is None,
        r matches Some(e) ==> i < e <= t@.len(),
{
    proof {
        reveal_strlit("void initializeBlobs() {");
    }
    assert(t@.len() == t.len());
    if !lit_at_exec(t, i, "void initializeBlobs() {") {
        return None;
    }
    let e = run_until_exec(t, i + 24, '}');
    if char_at_exec(t, e, '}') {
        Some(e + 1)
    } else {
        None
    }
}

fn rewrite_directives_exec(t: &Vec<char>, rep: &Vec<char>) -> (r: Vec<char>)
    ensures
        r@ == rewrite_directives(t@, 0, rep@),
{
    let mut out: Vec<char> = Vec::new();
    let mut i: usize = 0;
    while i < t.len()
        invariant
            i <= t@.len(),
            rewrite_directives(t@, 0, rep@) == out@ + rewrite_directives(t@, i as int, rep@),
        decreases t@.len() - i,
    {
        match directive_at_exec(t, i) {
            Some(e) => {
                let mut k: usize = 0;
                let ghost o = out@;
                while k < rep.len()
                    invariant
                        k <= rep@.len(),
                        out@ == o + rep@.subrange(0, k as int),
                    decreases rep@.len() - k,
                {
                    out.push(rep[k]);
                    k = k + 1;
                    assert(out@ =~= o + rep@.subrange(0, k as int));
                }
                assert(rep@.subrange(0, k as int) =~= rep@);
                assert(o + (rep@ + rewrite_directives(t@, e as int, rep@)) =~= out@ + rewrite_directives(t@, e as int, rep@));
                i = e;
            },
            None => {
                let ghost o = out@;
                out.push(t[i]);
                assert(o + (seq![t@[i as int]] + rewrite_directives(t@, i + 1, rep@)) =~= out@ + rewrite_directives(t@, i + 1, rep@));
                i = i + 1;
            },
        }
    }
    assert(out@ + rewrite_directives(t@, i as int, rep@) =~= out@);
    out
}

fn rewrite_generators_exec(t: &Vec<char>, rep: &Vec<char>) -> (r: Vec<char>)
    ensures
        r@ == rewrite_generators(t@, 0, rep@),
{
    let mut out: Vec<char> = Vec::new();
    let mut i: usize = 0;
    while i < t.len()
        invariant
            i <= t@.len(),
            rewrite_generators(t@, 0, rep@) == out@ + rewrite_generators(t@, i as int, rep@),
        decreases t@.len() - i,
    {
        match generator_at_exec(t, i) {
            Some(e) => {
                let mut k: usize = 0;
                let ghost o = out@;
                while k < rep.len()
                    invariant
                        k <= rep@.len(),
                        out@ == o + rep@.subrange(0, k as int),
                    decreases rep@.len() - k,
                {
                    out.push(rep[k]);
                    k = k + 1;
                    assert(out@ =~= o + rep@.subrange(0, k as int));
                }
                assert(rep@.subrange(0, k as int) =~= rep@);
                assert(o + (rep@ + rewrite_generators(t@, e as int, rep@)) =~= out@ + rewrite_generators(t@, e as int, rep@));
                i = e;
            },
            None => {
                let ghost o = out@;
                out.push(t[i]);
                assert(o + (seq![t@[i as int]] + rewrite_generators(t@, i + 1, rep@)) =~= out@ + rewrite_generators(t@, i + 1, rep@));
                i = i + 1;
            },
        }
    }
    assert(out@ + rewrite_generators(t@, i as int, rep@) =~= out@);
    out
}

/// Appends `lit` after `acc`, the part written so far after `o`.
fn push_str_piece(out: &mut Vec<char>, lit: &str, Ghost(o): Ghost<Seq<char>>, Ghost(acc): Ghost<Seq<char>>)
    -> (r: Ghost<Seq<char>>)
    requires
        old(out)@ == o + acc,
    ensures
        r@ == acc + lit@,
        final(out)@ == o + r@,
{
    push_str(out, lit);
    proof {
        lemma_concat_associative(o, acc, lit@);
    }
    Ghost(acc + lit@)
}

/// Appends the text of `d` after `acc`, the part written so far after `o`.
fn push_decimal_piece(out: &mut Vec<char>, d: Decimal, Ghost(o): Ghost<Seq<char>>, Ghost(acc): Ghost<Seq<char>>)
    -> (r: Ghost<Seq<char>>)
    requires
        d.wf(),
        old(out)@ == o + acc,
    ensures
        r@ == acc + render(d),
        final(out)@ == o + r@,
{
    push_decimal(d, out);
    proof {
        lemma_concat_associative(o, acc, render(d));
    }
    Ghost(acc + render(d))
}

/// Appends the generated line for record `i`.
fn push_blob_line(i: usize, b: Blob, out: &mut Vec<char>)
    requires
        b.wf(),
    ensures
        final(out)@ == old(out)@ + blob_line(i as nat, b),
{
    let ghost o = out@;
    push_str(out, "    blobs[");
    let mut digits: Vec<char> = Vec::new();
    push_digits_usize(i, &mut digits);
    let mut k: usize = 0;
    let ghost o2 = out@;
    while k < digits.len()
        invariant
            k <= digits@.len(),
            out@ == o2 + digits@.subrange(0, k as int),
        decreases digits@.len() - k,
    {
        out.push(digits[k]);
        k = k + 1;
        assert(out@ =~= o2 + digits@.subrange(0, k as int));
    }
    assert(digits@.subrange(0, k as int) =~= digits@);
    let ghost acc = "    blobs["@ + digits_of(i as nat);
    assert(out@ =~= o + acc);
    let Ghost(acc) = push_str_piece(out, "] = Blob(vec2(0), vec3(", Ghost(o), Ghost(acc));
    let Ghost(acc) = push_decimal_piece(out, b.color[0], Ghost(o), Ghost(acc));
    let Ghost(acc) = push_str_piece(out, ", ", Ghost(o), Ghost(acc));
    let Ghost(acc) = push_decimal_piece(out, b.color[1], Ghost(o), Ghost(acc));
    let Ghost(acc) = push_str_piece(out, ", ", Ghost(o), Ghost(acc));
    let Ghost(acc) = push_decimal_piece(out, b.color[2], Ghost(o), Ghost(acc));
    let Ghost(acc) = push_str_piece(out, "), ", Ghost(o), Ghost(acc));
    let Ghost(acc) = push_decimal_piece(out, b.size, Ghost(o), Ghost(acc));
    let Ghost(acc) = push_str_piece(out, ", ", Ghost(o), Ghost(acc));
    let Ghost(acc) = push_decimal_piece(out, b.speed, Ghost(o), Ghost(acc));
    let Ghost(acc) = push_str_piece(out, ", ", Ghost(o), Ghost(acc));
    let Ghost(acc) = push_decimal_piece(out, b.smoothness, Ghost(o), Ghost(acc));
    let Ghost(acc) = push_str_piece(out, ");\n", Ghost(o), Ghost(acc));
    assert(out@ =~= o + blob_line(i as nat, b));
}

/// Appends the shortest decimal digits of `n`.
fn push_digits_usize(n: usize, out: &mut Vec<char>)
    ensures
        final(out)@ == old(out)@ + digits_of(n as nat),
    decreases n,
{
    if n < 10 {
        out.push(((n as u8) + 48u8) as char);
        assert(final(out)@ =~= old(out)@ + digits_of(n as nat));
    } else {
        push_digits_usize(n / 10, out);
        out.push((((n % 10) as u8) + 48u8) as char);
        assert(final(out)@ =~= old(out)@ + digits_of(n as nat));
    }
}

/// Relies on `rand::Rng::gen_range` over `rand::thread_rng`: a value in `0..n`.
#[verifier::external_body]
fn random_index(n: usize) -> (r: usize)
    requires
        n > 0,
    ensures
        r < n,
{
    rand::thread_rng().gen_range(0..n)
}

/// A record whose color, size, speed and smoothness are taken from the
/// records at `picks[0]`, `picks[1]`, `picks[2]` and `picks[3]`.
pub fn blob_from_picks(blobs: &Vec<Blob>, picks: [usize; 4]) -> (r: Blob)
    requires
        picks[0] < blobs@.len(),
        picks[1] < blobs@.len(),
        picks[2] < blobs@.len(),
        picks[3] < blobs@.len(),
    ensures
        r.color == blobs@[picks[0] as int].color,
        r.size == blobs@[picks[1] as int].size,
        r.speed == blobs@[picks[2] as int].speed,
        r.smoothness == blobs@[picks[3] as int].smoothness,
{
    Blob {
        color: blobs[picks[0]].color,
        size: blobs[picks[1]].size,
        speed: blobs[picks[2]].speed,
        smoothness: blobs[picks[3]].smoothness,
    }
}


/// The generator function for `bs`.
fn generator_exec(blobs: &Vec<Blob>) -> (r: Vec<char>)
    requires
        all_wf(blobs@),
    ensures
        r@ == generator_text(blobs@),
{
    let mut out: Vec<char> = Vec::new();
    push_str(&mut out, "void initializeBlobs() {\n");
    let ghost head = out@;
    let mut i: usize = 0;
    assert(blobs@.subrange(0, 0) =~= Seq::<Blob>::empty());
    assert(out@ =~= head + blob_lines(blobs@.subrange(0, 0)));
    while i < blobs.len()
        invariant
            i <= blobs@.len(),
            all_wf(blobs@),
            out@ == head + blob_lines(blobs@.subrange(0, i as int)),
        decreases blobs@.len() - i,
    {
        let ghost prev = blob_lines(blobs@.subrange(0, i as int));
        push_blob_line(i, blobs[i], &mut out);
        proof {
            assert(blobs@.subrange(0, i + 1).drop_last() =~= blobs@.subrange(0, i as int));
            lemma_concat_associative(head, prev, blob_line(i as nat, blobs@[i as int]));
        }
        i = i + 1;
    }
    assert(blobs@.subrange(0, i as int) =~= blobs@);
    push_str(&mut out, "}");
    proof {
        lemma_concat_associative(head, blob_lines(blobs@), "}"@);
    }
    out
}

/// Parses shader text into records, and regenerates shader text from them.
pub struct LavaLampParser {
    blobs: Vec<Blob>,
    history: EditHistory,
}

impl Default for LavaLampParser {
    fn default() -> (r: Self)
        ensures
            r.wf(),
            r.blobs_view() == Seq::<Blob>::empty(),
            r.applied() == Seq::<BlobsEdit>::empty(),
            r.undone() == Seq::<BlobsEdit>::empty(),
    {
        LavaLampParser::new()
    }
}

impl LavaLampParser {
    /// The records, in order.
    pub closed spec fn blobs_view(&self) -> Seq<Blob> {
        self.blobs@
    }

    /// Commands that can be undone, oldest first.
    pub closed spec fn applied(&self) -> Seq<BlobsEdit> {
        self.history.applied()
    }

    /// Commands that can be redone, the next one last.
    pub closed spec fn undone(&self) -> Seq<BlobsEdit> {
        self.history.undone()
    }

    pub closed spec fn wf(&self) -> bool {
        self.history.wf(self.blobs@)
    }

    /// A parser with no records and an empty history.
    pub fn new() -> (r: Self)
        ensures
            r.wf(),
            r.blobs_view() == Seq::<Blob>::empty(),
            r.applied() == Seq::<BlobsEdit>::empty(),
            r.undone() == Seq::<BlobsEdit>::empty(),
    {
        LavaLampParser { blobs: Vec::new(), history: EditHistory::new() }
    }

    /// The records, in order.
    pub fn blobs(&self) -> (r: &Vec<Blob>)
        ensures
            r@ == self.blobs_view(),
    {
        &self.blobs
    }

    /// Replaces the records by those that `shader_string` defines, one per
    /// matching line in line order, and starts a new history.
    pub fn parse(&mut self, shader_string: &str)
        ensures
            final(self).wf(),
            final(self).blobs_view() == blobs_of_text(shader_string@),
            final(self).applied() == Seq::<BlobsEdit>::empty(),
            final(self).undone() == Seq::<BlobsEdit>::empty(),
    {
        let t = chars_of(shader_string);
        let mut blobs: Vec<Blob> = Vec::new();
        let mut line: Vec<char> = Vec::new();
        let ghost mut ls: Seq<Seq<char>> = seq![];
        let mut k: usize = 0;
        assert(t@.subrange(0, 0) =~= Seq::<char>::empty());
        while k < t.len()
            invariant
                k <= t@.len(),
                split_lines(t@.subrange(0, k as int)) == (ls, line@),
                blobs@ == blobs_of_lines(ls),
                all_wf(blobs@),
            decreases t@.len() - k,
        {
            assert(t@.subrange(0, k + 1).drop_last() =~= t@.subrange(0, k as int));
            if t[k] == '\n' {
                let b = parse_blob_definition(&line);
                proof {
                    assert(ls.push(line@).drop_last() =~= ls);
                }
                match b {
                    Some(b) => {
                        blobs.push(b);
                    },
                    None => {},
                }
                proof {
                    ls = ls.push(line@);
                }
                assert(blobs@ =~= blobs_of_lines(ls));
                line = Vec::new();
            } else {
                line.push(t[k]);
            }
            k = k + 1;
        }
        assert(t@.subrange(0, k as int) =~= t@);
        if line.len() > 0 {
            let b = parse_blob_definition(&line);
            proof {
                assert(ls.push(line@).drop_last() =~= ls);
            }
            match b {
                Some(b) => {
                    blobs.push(b);
                },
                None => {},
            }
            assert(blobs@ =~= blobs_of_lines(ls.push(line@)));
        }
        self.blobs = blobs;
        self.history = EditHistory::new();
    }

    /// `shader_string` with the count directive and the generator function
    /// regenerated from the records; all other text is kept as it is.
    pub fn export(&self, shader_string: &str) -> (r: String)
        requires
            self.wf(),
        ensures
            r@ == export_text(self.blobs_view(), shader_string@),
    {
        let t = chars_of(shader_string);
        let mut directive: Vec<char> = Vec::new();
        push_str(&mut directive, "#define numBlobs ");
        push_digits_usize(self.blobs.len(), &mut directive);
        let generator = generator_exec(&self.blobs);
        let t1 = rewrite_directives_exec(&t, &directive);
        let t2 = rewrite_generators_exec(&t1, &generator);
        string_from_chars(&t2)
    }

    /// Records a command through the history.
    fn record(&mut self, c: BlobsEdit)
        requires
            old(self).wf(),
            can_apply(c, old(self).blobs_view()),
            cmd_wf(c),
        ensures
            final(self).wf(),
            (final(self).applied(), final(self).undone(), final(self).blobs_view()) == record_spec(
                old(self).applied(),
                old(self).undone(),
                old(self).blobs_view(),
                c,
            ),
    {
        self.history.edit(&mut self.blobs, c);
    }

    /// Appends `blob` as a new record, through the history.
    pub fn add(&mut self, blob: Blob)
        requires
            old(self).wf(),
            blob.wf(),
            old(self).blobs_view().len() < usize::MAX,
        ensures
            final(self).wf(),
            final(self).blobs_view() == old(self).blobs_view().push(blob),
            (final(self).applied(), final(self).undone(), final(self).blobs_view()) == record_spec(
                old(self).applied(),
                old(self).undone(),
                old(self).blobs_view(),
                BlobsEdit::AddBlob(blob),
            ),
    {
        self.record(BlobsEdit::AddBlob(blob));
    }

    /// A record to add: all zero when there is none yet, else each field
    /// drawn from a record picked at random, independently per field.
    pub fn new_blob(&self) -> (r: Blob)
        requires
            self.wf(),
        ensures
            r.wf(),
            self.blobs_view().len() == 0 ==> r == zero_blob_spec(),
            self.blobs_view().len() > 0 ==> {
                &&& exists|i: int| 0 <= i < self.blobs_view().len() && r.color == #[trigger] self.blobs_view()[i].color
                &&& exists|i: int| 0 <= i < self.blobs_view().len() && r.size == #[trigger] self.blobs_view()[i].size
                &&& exists|i: int| 0 <= i < self.blobs_view().len() && r.speed == #[trigger] self.blobs_view()[i].speed
                &&& exists|i: int| 0 <= i < self.blobs_view().len() && r.smoothness == #[trigger] self.blobs_view()[i].smoothness
            },
    {
        let n = self.blobs.len();
        if n == 0 {
            return zero_blob();
        }
        let picks = [random_index(n), random_index(n), random_index(n), random_index(n)];
        let r = blob_from_picks(&self.blobs, picks);
        proof {
            assert(self.blobs@[picks[0] as int].wf());
            assert(self.blobs@[picks[1] as int].wf());
            assert(self.blobs@[picks[2] as int].wf());
            assert(self.blobs@[picks[3] as int].wf());
        }
        r
    }

    /// Adds a record made by `new_blob`, through the history.
    pub fn add_blob(&mut self)
        requires
            old(self).wf(),
            old(self).blobs_view().len() < usize::MAX,
        ensures
            final(self).wf(),
            final(self).blobs_view().len() == old(self).blobs_view().len() + 1,
            final(self).blobs_view().drop_last() == old(self).blobs_view(),
            old(self).blobs_view().len() == 0 ==> final(self).blobs_view().last() == zero_blob_spec(),
            old(self).blobs_view().len() > 0 ==> {
                let nb = final(self).blobs_view().last();
                let bs = old(self).blobs_view();
                &&& exists|i: int| 0 <= i < bs.len() && nb.color == #[trigger] bs[i].color
                &&& exists|i: int| 0 <= i < bs.len() && nb.size == #[trigger] bs[i].size
                &&& exists|i: int| 0 <= i < bs.len() && nb.speed == #[trigger] bs[i].speed
                &&& exists|i: int| 0 <= i < bs.len() && nb.smoothness == #[trigger] bs[i].smoothness
            },
            final(self).applied() == old(self).applied().push(BlobsEdit::AddBlob(final(self).blobs_view().last())),
            final(self).undone().len() == 0,
    {
        let b = self.new_blob();
        self.add(b);
        assert(self.blobs_view().drop_last() =~= old(self).blobs_view());
    }

    /// Removes the record at `index`, through the history.
    pub fn delete_blob(&mut self, index: usize)
        requires
            old(self).wf(),
            index < old(self).blobs_view().len(),
        ensures
            final(self).wf(),
            final(self).blobs_view() == old(self).blobs_view().remove(index as int),
            (final(self).applied(), final(self).undone(), final(self).blobs_view()) == record_spec(
                old(self).applied(),
                old(self).undone(),
                old(self).blobs_view(),
                BlobsEdit::DeleteBlob(index, old(self).blobs_view()[index as int]),
            ),
    {
        let b = self.blobs[index];
        assert(self.blobs@.len() == self.blobs.len());
        self.record(BlobsEdit::DeleteBlob(index, b));
    }

    /// Replaces the record at `index` by `new`, through the history.
    pub fn mutate_blob(&mut self, index: usize, new: Blob)
        requires
            old(self).wf(),
            index < old(self).blobs_view().len(),
            new.wf(),
        ensures
            final(self).wf(),
            final(self).blobs_view() == old(self).blobs_view().update(index as int, new),
            (final(self).applied(), final(self).undone(), final(self).blobs_view()) == record_spec(
                old(self).applied(),
                old(self).undone(),
                old(self).blobs_view(),
                BlobsEdit::MutateBlob { index, old: old(self).blobs_view()[index as int], new },
            ),
    {
        let b = self.blobs[index];
        self.record(BlobsEdit::MutateBlob { index, old: b, new });
    }

    /// Takes back the last edit, if any.
    pub fn undo(&mut self)
        requires
            old(self).wf(),
        ensures
            final(self).wf(),
            (final(self).applied(), final(self).undone(), final(self).blobs_view()) == history_undo_spec(
                old(self).applied(),
                old(self).undone(),
                old(self).blobs_view(),
            ),
    {
        self.history.undo(&mut self.blobs);
    }

    /// Applies again the last undone edit, if any.
    pub fn redo(&mut self)
        requires
            old(self).wf(),
        ensures
            final(self).wf(),
            (final(self).applied(), final(self).undone(), final(self).blobs_view()) == history_redo_spec(
                old(self).applied(),
                old(self).undone(),
                old(self).blobs_view(),
            ),
    {
        self.history.redo(&mut self.blobs);
    }
}


proof fn lemma_run_digits_to_end(l: Seq<char>, i: int)
    requires
        0 <= i <= l.len(),
        forall|k: int| i <= k < l.len() ==> '0' <= #[trigger] l[k] && l[k] <= '9',
    ensures
        run_digits(l, i) == l.len(),
    decreases l.len() - i,
{
    if i < l.len() {
        lemma_run_digits_to_end(l, i + 1);
    }
}

pub(crate) proof fn lemma_run_until_to(l: Seq<char>, i: int, j: int, c: char)
    requires
        0 <= i <= j < l.len(),
        forall|k: int| i <= k < j ==> #[trigger] l[k] != c,
        l[j] == c,
    ensures
        run_until(l, i, c) == j,
    decreases j - i,
{
    if i < j {
        lemma_run_until_to(l, i + 1, j, c);
    }
}

/// The characters that the text of a decimal is made of.
pub open spec fn is_number_text_char(c: char) -> bool {
    ('0' <= c && c <= '9') || c == '.' || c == '-'
}

pub(crate) proof fn lemma_render_chars(d: Decimal)
    ensures
        forall|k: int| 0 <= k < render(d).len() ==> is_number_text_char(#[trigger] render(d)[k]),
{
    let p = pow10(d.scale as nat);
    let sign: Seq<char> = if d.negative { seq!['-'] } else { seq![] };
    let ip = digits_of(d.mantissa as nat / p);
    let frac = if d.scale == 0 { seq!['0'] } else { padded_digits(d.mantissa as nat % p, d.scale as nat) };
    lemma_digits_of(d.mantissa as nat / p);
    lemma_padded_digits(d.mantissa as nat % p, d.scale as nat);
    let r = render(d);
    assert(r == sign + ip + seq!['.'] + frac);
    assert forall|k: int| 0 <= k < r.len() implies is_number_text_char(#[trigger] r[k]) by {
        if k < sign.len() {
            assert(r[k] == sign[k]);
        } else if k < sign.len() + ip.len() {
            assert(r[k] == ip[k - sign.len()]);
        } else if k == sign.len() + ip.len() {
            assert(r[k] == '.');
        } else {
            assert(r[k] == frac[k - sign.len() - ip.len() - 1]);
        }
    }
}

proof fn lemma_render_no_symbol(d: Decimal, c: char)
    requires
        c == '}' || c == '#',
    ensures
        no_char(render(d), c),
{
    lemma_render_chars(d);
    assert forall|k: int| 0 <= k < render(d).len() implies #[trigger] render(d)[k] != c by {
        assert(is_number_text_char(render(d)[k]));
    }
}

proof fn lemma_blob_line_no_symbol(i: nat, b: Blob, c: char)
    requires
        c == '}' || c == '#',
    ensures
        no_char(blob_line(i, b), c),
{
    reveal_strlit("    blobs[");
    reveal_strlit("] = Blob(vec2(0), vec3(");
    reveal_strlit(", ");
    reveal_strlit("), ");
    reveal_strlit(");\n");
    lemma_digits_of(i);
    let d = digits_of(i);
    assert(no_char(d, c)) by {
        assert forall|k: int| 0 <= k < d.len() implies #[trigger] d[k] != c by {
            assert(is_digit(d[k]));
        }
    }
    lemma_render_no_symbol(b.color[0], c);
    lemma_render_no_symbol(b.color[1], c);
    lemma_render_no_symbol(b.color[2], c);
    lemma_render_no_symbol(b.size, c);
    lemma_render_no_symbol(b.speed, c);
    lemma_render_no_symbol(b.smoothness, c);
    let acc = "    blobs["@;
    assert(no_char(acc, c));
    let acc = lemma_no_char_extend(acc, d, c);
    let acc = lemma_no_char_extend(acc, "] = Blob(vec2(0), vec3("@, c);
    let acc = lemma_no_char_extend(acc, render(b.color[0]), c);
    let acc = lemma_no_char_extend(acc, ", "@, c);
    let acc = lemma_no_char_extend(acc, render(b.color[1]), c);
    let acc = lemma_no_char_extend(acc, ", "@, c);
    let acc = lemma_no_char_extend(acc, render(b.color[2]), c);
    let acc = lemma_no_char_extend(acc, "), "@, c);
    let acc = lemma_no_char_extend(acc, render(b.size), c);
    let acc = lemma_no_char_extend(acc, ", "@, c);
    let acc = lemma_no_char_extend(acc, render(b.speed), c);
    let acc = lemma_no_char_extend(acc, ", "@, c);
    let acc = lemma_no_char_extend(acc, render(b.smoothness), c);
    let acc = lemma_no_char_extend(acc, ");\n"@, c);
    assert(acc == blob_line(i, b));
}

/// Neither a closing brace nor a `#` occurs in the generated lines.
pub(crate) proof fn lemma_blob_lines_no_symbol(bs: Seq<Blob>, c: char)
    requires
        c == '}' || c == '#',
    ensures
        no_char(blob_lines(bs), c),
    decreases bs.len(),
{
    if bs.len() > 0 {
        lemma_blob_lines_no_symbol(bs.drop_last(), c);
        lemma_blob_line_no_symbol((bs.len() - 1) as nat, bs.last(), c);
        lemma_no_char_concat(blob_lines(bs.drop_last()), blob_line((bs.len() - 1) as nat, bs.last()), c);
    }
}

/// Exporting is stable on what it generates: the count directive and the
/// generator function written for `bs` are each rewritten, by an export of
/// the same records, into exactly themselves.
pub proof fn law_generated_text_is_stable(bs: Seq<Blob>)
    ensures
        rewrite_directives(directive_text(bs), 0, directive_text(bs)) == directive_text(bs),
        rewrite_generators(generator_text(bs), 0, generator_text(bs)) == generator_text(bs),
{
    reveal_strlit("#define numBlobs ");
    reveal_strlit("void initializeBlobs() {");
    reveal_strlit("void initializeBlobs() {\n");
    reveal_strlit("}");
    let d = directive_text(bs);
    lemma_digits_of(bs.len());
    assert(d.subrange(0, 17) =~= "#define numBlobs "@);
    assert forall|k: int| 17 <= k < d.len() implies '0' <= #[trigger] d[k] && d[k] <= '9' by {
        assert(d[k] == digits_of(bs.len())[k - 17]);
    }
    lemma_run_digits_to_end(d, 17);
    assert(directive_at(d, 0) == Some(d.len() as int));
    assert(d + rewrite_directives(d, d.len() as int, d) =~= d);

    let g = generator_text(bs);
    let body = blob_lines(bs);
    lemma_blob_lines_no_symbol(bs, '}');
    assert(g.subrange(0, 24) =~= "void initializeBlobs() {"@);
    assert forall|k: int| 24 <= k < g.len() - 1 implies #[trigger] g[k] != '}' by {
        if k == 24 {
            assert(g[k] == '\n');
        } else {
            assert(g[k] == body[k - 25]);
        }
    }
    assert(g[g.len() - 1] == '}');
    lemma_run_until_to(g, 24, g.len() - 1, '}');
    assert(generator_at(g, 0) == Some(g.len() as int));
    assert(g + rewrite_generators(g, g.len() as int, g) =~= g);
}

} // verus!
