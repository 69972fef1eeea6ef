//! Reading back what the exporter writes.
use vstd::prelude::*;
use crate::decimal::{digits_of, lemma_digits_of, lemma_parse_render, render, spec_parse_decimal, Decimal};
use crate::grammar::{
    comma_pieces, find_match, match_at, numbers_of, skip_spaces_back, spec_parse_line, trim, Captures,
};
use crate::history::Blob;
use crate::lava_lamp::{
    blob_line, blob_lines, blobs_of_lines, blobs_of_text, directive_text, export_text, generator_at, generator_text,
    is_number_text_char, lemma_render_chars, lemma_run_until_to, rewrite_directives,
    rewrite_generators, split_lines, text_lines,
};
use crate::scan::{is_num_char, is_space, lemma_no_char_concat, lemma_no_char_extend, lit_at, no_char, run_number, skip_spaces};

verus! {

/// The color triple as the exporter writes it.
pub open spec fn color_text(b: Blob) -> Seq<char> {
    render(b.color[0]) + ", "@ + render(b.color[1]) + ", "@ + render(b.color[2])
}

/// The record call as the exporter writes it.
pub open spec fn record_call(b: Blob) -> Seq<char> {
    "Blob(vec2(0), vec3("@ + color_text(b) + "), "@ + render(b.size) + ", "@ + render(b.speed) + ", "@
        + render(b.smoothness) + ")"@
}

/// The scalar fields hold no sign, as the record grammar asks.
pub open spec fn unsigned_scalars(b: Blob) -> bool {
    !b.size.negative && !b.speed.negative && !b.smoothness.negative
}

proof fn lemma_run_number_over(l: Seq<char>, i: int, j: int)
    requires
        0 <= i <= j < l.len(),
        forall|k: int| i <= k < j ==> is_num_char(#[trigger] l[k]),
        !is_num_char(l[j]),
    ensures
        run_number(l, i) == j,
    decreases j - i,
{
    if i < j {
        lemma_run_number_over(l, i + 1, j);
    }
}

/// The text of an unsigned decimal is made of digits and dots, and starts with a digit.
proof fn lemma_unsigned_render(d: Decimal)
    requires
        !d.negative,
    ensures
        forall|k: int| 0 <= k < render(d).len() ==> is_num_char(#[trigger] render(d)[k]),
        render(d).len() > 0,
{
    let p = crate::decimal::pow10(d.scale as nat);
    let ip = crate::decimal::digits_of(d.mantissa as nat / p);
    let frac = if d.scale == 0 { seq!['0'] } else { crate::decimal::padded_digits(d.mantissa as nat % p, d.scale as nat) };
    crate::decimal::lemma_digits_of(d.mantissa as nat / p);
    crate::decimal::lemma_padded_digits(d.mantissa as nat % p, d.scale as nat);
    let r = render(d);
    assert(r =~= ip + seq!['.'] + frac);
    assert forall|k: int| 0 <= k < r.len() implies is_num_char(#[trigger] r[k]) by {
        if k < ip.len() {
            assert(r[k] == ip[k]);
        } else if k == ip.len() {
            assert(r[k] == '.');
        } else {
            assert(r[k] == frac[k - ip.len() - 1]);
        }
    }
}

proof fn lemma_render_shape(d: Decimal)
    ensures
        render(d).len() > 0,
        !is_space(render(d)[0]),
        !is_space(render(d).last()),
        forall|k: int| 0 <= k < render(d).len() ==> (#[trigger] render(d)[k]) != ',' && render(d)[k] != ')' && !is_space(render(d)[k]),
{
    lemma_render_chars(d);
    assert(render(d).len() > 0);
    assert(is_number_text_char(render(d)[0]));
    assert(is_number_text_char(render(d)[render(d).len() - 1]));
}

proof fn lemma_trim_plain(x: Seq<char>)
    requires
        x.len() > 0,
        !is_space(x[0]),
        !is_space(x.last()),
    ensures
        trim(x) == x,
{
    assert(x.subrange(0, x.len() as int) =~= x);
}

proof fn lemma_trim_space(x: Seq<char>)
    requires
        x.len() > 0,
        !is_space(x[0]),
        !is_space(x.last()),
    ensures
        trim(seq![' '] + x) == x,
{
    let y = seq![' '] + x;
    assert(y[0] == ' ');
    assert(y[1] == x[0]);
    assert(skip_spaces(y, 1) == 1);
    assert(skip_spaces(y, 0) == 1);
    assert(y[y.len() - 1] == x.last());
    assert(skip_spaces_back(y, y.len() as int) == y.len());
    assert(y.subrange(1, y.len() as int) =~= x);
}

proof fn lemma_comma_pieces_plain(x: Seq<char>)
    requires
        forall|k: int| 0 <= k < x.len() ==> #[trigger] x[k] != ',',
    ensures
        comma_pieces(x) == seq![x],
    decreases x.len(),
{
    if x.len() > 0 {
        lemma_comma_pieces_plain(x.drop_last());
        assert(x.drop_last().push(x.last()) =~= x);
        assert(seq![x.drop_last()].update(0, x.drop_last().push(x.last())) =~= seq![x]);
    } else {
        assert(x =~= Seq::<char>::empty());
    }
}

proof fn lemma_comma_pieces_extend(a: Seq<char>, x: Seq<char>)
    requires
        forall|k: int| 0 <= k < x.len() ==> #[trigger] x[k] != ',',
        comma_pieces(a).len() > 0,
    ensures
        comma_pieces(a + x) == comma_pieces(a).update(comma_pieces(a).len() - 1, comma_pieces(a).last() + x),
    decreases x.len(),
{
    let ps = comma_pieces(a);
    if x.len() == 0 {
        assert(a + x =~= a);
        assert(ps.last() + x =~= ps.last());
        assert(ps.update(ps.len() - 1, ps.last()) =~= ps);
    } else {
        let x1 = x.drop_last();
        lemma_comma_pieces_extend(a, x1);
        assert((a + x).drop_last() =~= a + x1);
        assert((a + x).last() == x.last());
        let q = ps.update(ps.len() - 1, ps.last() + x1);
        assert(q.last() == ps.last() + x1);
        assert((ps.last() + x1).push(x.last()) =~= ps.last() + x);
        assert(q.update(q.len() - 1, q.last().push(x.last())) =~= ps.update(ps.len() - 1, ps.last() + x));
    }
}

/// The pieces between the commas of a color triple as the exporter writes it.
#[verifier::rlimit(60)]
proof fn lemma_color_pieces(b: Blob)
    ensures
        comma_pieces(color_text(b)) == seq![
            render(b.color[0]),
            seq![' '] + render(b.color[1]),
            seq![' '] + render(b.color[2]),
        ],
{
    reveal_strlit(", ");
    let r0 = render(b.color[0]);
    let r1 = render(b.color[1]);
    let r2 = render(b.color[2]);
    lemma_render_shape(b.color[0]);
    lemma_render_shape(b.color[1]);
    lemma_render_shape(b.color[2]);
    let sr1 = seq![' '] + r1;
    let sr2 = seq![' '] + r2;
    assert forall|k: int| 0 <= k < sr1.len() implies #[trigger] sr1[k] != ',' by {
        if k > 0 {
            assert(sr1[k] == r1[k - 1]);
        }
    }
    assert forall|k: int| 0 <= k < sr2.len() implies #[trigger] sr2[k] != ',' by {
        if k > 0 {
            assert(sr2[k] == r2[k - 1]);
        }
    }
    lemma_comma_pieces_plain(r0);
    let a1 = r0.push(',');
    assert(a1.drop_last() =~= r0);
    assert(comma_pieces(a1) == seq![r0].push(seq![]));
    lemma_comma_pieces_extend(a1, sr1);
    assert(seq![r0].push(seq![]).update(1, Seq::<char>::empty() + sr1) =~= seq![r0, sr1]);
    let a2 = (a1 + sr1).push(',');
    assert(a2.drop_last() =~= a1 + sr1);
    lemma_comma_pieces_extend(a2, sr2);
    assert(seq![r0, sr1].push(seq![]).update(2, Seq::<char>::empty() + sr2) =~= seq![r0, sr1, sr2]);
    assert(color_text(b) =~= a2 + sr2);
}

/// The color triple as the exporter writes it reads back as the record's color.
proof fn lemma_color_numbers(b: Blob)
    requires
        b.wf(),
    ensures
        numbers_of(comma_pieces(color_text(b))) == seq![b.color[0], b.color[1], b.color[2]],
{
    lemma_color_pieces(b);
    let r0 = render(b.color[0]);
    let r1 = render(b.color[1]);
    let r2 = render(b.color[2]);
    lemma_render_shape(b.color[0]);
    lemma_render_shape(b.color[1]);
    lemma_render_shape(b.color[2]);
    lemma_trim_plain(r0);
    lemma_trim_space(r1);
    lemma_trim_space(r2);
    lemma_parse_render(b.color[0]);
    lemma_parse_render(b.color[1]);
    lemma_parse_render(b.color[2]);
    let ps = seq![r0, seq![' '] + r1, seq![' '] + r2];
    assert(ps.drop_last() =~= seq![r0, seq![' '] + r1]);
    assert(ps.drop_last().drop_last() =~= seq![r0]);
    assert(ps.drop_last().drop_last().drop_last() =~= Seq::<Seq<char>>::empty());
    assert(seq![r0].drop_last() =~= Seq::<Seq<char>>::empty());
    assert(seq![r0].last() == r0);
    assert(numbers_of(Seq::<Seq<char>>::empty()) == Seq::<Decimal>::empty());
    assert(spec_parse_decimal(trim(r0)) == Some(b.color[0]));
    assert(numbers_of(seq![r0]) == numbers_of(seq![r0].drop_last()) + seq![b.color[0]]);
    assert(numbers_of(seq![r0]) =~= seq![b.color[0]]);
    assert(seq![r0, seq![' '] + r1].last() == seq![' '] + r1);
    assert(numbers_of(seq![r0, seq![' '] + r1]) =~= seq![b.color[0], b.color[1]]);
    assert(ps.last() == seq![' '] + r2);
    assert(numbers_of(ps) =~= seq![b.color[0], b.color[1], b.color[2]]);
}


proof fn lemma_color_text_no_paren(b: Blob)
    ensures
        no_char(color_text(b), ')'),
{
    reveal_strlit(", ");
    lemma_render_shape(b.color[0]);
    lemma_render_shape(b.color[1]);
    lemma_render_shape(b.color[2]);
    assert(no_char(", "@, ')'));
    assert(no_char(render(b.color[0]), ')'));
    assert(no_char(render(b.color[1]), ')'));
    assert(no_char(render(b.color[2]), ')'));
    lemma_no_char_concat(render(b.color[0]), ", "@, ')');
    lemma_no_char_concat(render(b.color[0]) + ", "@, render(b.color[1]), ')');
    lemma_no_char_concat(render(b.color[0]) + ", "@ + render(b.color[1]), ", "@, ')');
    lemma_no_char_concat(render(b.color[0]) + ", "@ + render(b.color[1]) + ", "@, render(b.color[2]), ')');
}

/// Where the parts of a record call lie in it.
proof fn lemma_record_call_layout(b: Blob)
    ensures
        ({
            let cc = record_call(b);
            let c1: int = 19 + color_text(b).len() as int;
            let s1: int = c1 + 3 + render(b.size).len();
            let v1: int = s1 + 2 + render(b.speed).len();
            let m1: int = v1 + 2 + render(b.smoothness).len();
            &&& cc.len() == m1 + 1
            &&& cc.subrange(0, 19) == "Blob(vec2(0), vec3("@
            &&& cc.subrange(19, c1) == color_text(b)
            &&& cc.subrange(c1, c1 + 3) == "), "@
            &&& cc.subrange(c1 + 3, s1) == render(b.size)
            &&& cc.subrange(s1, s1 + 2) == ", "@
            &&& cc.subrange(s1 + 2, v1) == render(b.speed)
            &&& cc.subrange(v1, v1 + 2) == ", "@
            &&& cc.subrange(v1 + 2, m1) == render(b.smoothness)
            &&& cc[m1] == ')'
        }),
{
    reveal_strlit("Blob(vec2(0), vec3(");
    reveal_strlit("), ");
    reveal_strlit(", ");
    reveal_strlit(")");
    let h = "Blob(vec2(0), vec3("@;
    let x = color_text(b);
    let sz = render(b.size);
    let sp = render(b.speed);
    let sm = render(b.smoothness);
    let a1 = h + x;
    let a2 = a1 + "), "@;
    let a3 = a2 + sz;
    let a4 = a3 + ", "@;
    let a5 = a4 + sp;
    let a6 = a5 + ", "@;
    let a7 = a6 + sm;
    let cc = a7 + ")"@;
    assert(cc == record_call(b));
    assert(cc.subrange(0, a7.len() as int) =~= a7);
    assert(a7.subrange(0, a6.len() as int) =~= a6);
    assert(a7.subrange(a6.len() as int, a7.len() as int) =~= sm);
    assert(a6.subrange(0, a5.len() as int) =~= a5);
    assert(a6.subrange(a5.len() as int, a6.len() as int) =~= ", "@);
    assert(a5.subrange(0, a4.len() as int) =~= a4);
    assert(a5.subrange(a4.len() as int, a5.len() as int) =~= sp);
    assert(a4.subrange(0, a3.len() as int) =~= a3);
    assert(a4.subrange(a3.len() as int, a4.len() as int) =~= ", "@);
    assert(a3.subrange(0, a2.len() as int) =~= a2);
    assert(a3.subrange(a2.len() as int, a3.len() as int) =~= sz);
    assert(a2.subrange(0, a1.len() as int) =~= a1);
    assert(a2.subrange(a1.len() as int, a2.len() as int) =~= "), "@);
    assert(a1.subrange(0, 19) =~= h);
    assert(a1.subrange(19, a1.len() as int) =~= x);
    assert(cc.subrange(0, 19) =~= h);
    assert(cc.subrange(19, a1.len() as int) =~= x);
    assert(cc.subrange(a1.len() as int, a2.len() as int) =~= "), "@);
    assert(cc.subrange(a2.len() as int, a3.len() as int) =~= sz);
    assert(cc.subrange(a3.len() as int, a4.len() as int) =~= ", "@);
    assert(cc.subrange(a4.len() as int, a5.len() as int) =~= sp);
    assert(cc.subrange(a5.len() as int, a6.len() as int) =~= ", "@);
    assert(cc.subrange(a6.len() as int, a7.len() as int) =~= sm);
    assert(cc[a7.len() as int] == ')');
}

/// The record call as the exporter writes it matches where it starts, and
/// its fields are captured exactly.
#[verifier::rlimit(100)]
#[verifier::spinoff_prover]
proof fn lemma_match_record(pre: Seq<char>, b: Blob, post: Seq<char>)
    requires
        b.wf(),
        unsigned_scalars(b),
        pre.len() + record_call(b).len() + post.len() <= usize::MAX,
    ensures
        match_at(pre + record_call(b) + post, pre.len() as int) matches Some(c) && {
            let l = pre + record_call(b) + post;
            &&& l.subrange(c.color.0 as int, c.color.1 as int) == color_text(b)
            &&& l.subrange(c.size.0 as int, c.size.1 as int) == render(b.size)
            &&& l.subrange(c.speed.0 as int, c.speed.1 as int) == render(b.speed)
            &&& l.subrange(c.smoothness.0 as int, c.smoothness.1 as int) == render(b.smoothness)
        },
{
    reveal_strlit("Blob(vec2(0), vec3(");
    reveal_strlit("), ");
    reveal_strlit(", ");
    reveal_strlit("Blob");
    reveal_strlit("vec2(");
    reveal_strlit("vec3(");
    let h = "Blob(vec2(0), vec3("@;
    let x = color_text(b);
    let sz = render(b.size);
    let sp = render(b.speed);
    let sm = render(b.smoothness);
    lemma_unsigned_render(b.size);
    lemma_unsigned_render(b.speed);
    lemma_unsigned_render(b.smoothness);
    lemma_render_shape(b.size);
    lemma_render_shape(b.speed);
    lemma_render_shape(b.smoothness);
    lemma_color_text_no_paren(b);
    lemma_record_call_layout(b);
    let cc = record_call(b);
    let l = pre + cc + post;
    let p = pre.len() as int;
    let c0 = p + 19;
    let c1 = c0 + x.len();
    let s0 = c1 + 3;
    let s1 = s0 + sz.len();
    let v0 = s1 + 2;
    let v1 = v0 + sp.len();
    let m0 = v1 + 2;
    let m1 = m0 + sm.len();
    assert forall|k: int| 0 <= k < cc.len() implies #[trigger] l[p + k] == cc[k] by {
        assert(l[p + k] == (pre + cc)[p + k]);
    }
    assert forall|a: int, z: int| 0 <= a <= z <= cc.len() implies #[trigger] l.subrange(p + a, p + z) == cc.subrange(a, z) by {
        assert(l.subrange(p + a, p + z) =~= cc.subrange(a, z));
    }
    assert(l.subrange(p + 0, p + 19) == cc.subrange(0, 19));
    assert(l.subrange(c0, c1) == cc.subrange(19, c1 - p));
    assert(l.subrange(c1, c1 + 3) == cc.subrange(c1 - p, c1 - p + 3));
    assert(l.subrange(s0, s1) == cc.subrange(s0 - p, s1 - p));
    assert(l.subrange(s1, s1 + 2) == cc.subrange(s1 - p, s1 - p + 2));
    assert(l.subrange(v0, v1) == cc.subrange(v0 - p, v1 - p));
    assert(l.subrange(v1, v1 + 2) == cc.subrange(v1 - p, v1 - p + 2));
    assert(l.subrange(m0, m1) == cc.subrange(m0 - p, m1 - p));
    assert(l[m1] == cc[m1 - p]);
    assert forall|k: int| 0 <= k < 19 implies #[trigger] l[p + k] == h[k] by {
        assert(l.subrange(p + 0, p + 19)[k] == l[p + k]);
    }
    assert(l.subrange(p, p + 4) =~= "Blob"@);
    assert(l.subrange(p + 5, p + 10) =~= "vec2("@);
    assert(l.subrange(p + 14, p + 19) =~= "vec3("@);
    assert(skip_spaces(l, p + 4) == p + 4);
    assert(skip_spaces(l, p + 5) == p + 5);
    lemma_run_until_to(l, p + 10, p + 11, ')');
    assert(skip_spaces(l, p + 14) == p + 14);
    assert(skip_spaces(l, p + 13) == p + 14);
    assert forall|k: int| c0 <= k < c1 implies #[trigger] l[k] != ')' by {
        assert(l.subrange(c0, c1)[k - c0] == l[k]);
    }
    assert(l[c1] == l.subrange(c1, c1 + 3)[0]);
    assert(l[c1 + 1] == l.subrange(c1, c1 + 3)[1]);
    assert(l[c1 + 2] == l.subrange(c1, c1 + 3)[2]);
    lemma_run_until_to(l, c0, c1, ')');
    assert(l[s0] == l.subrange(s0, s1)[0]);
    assert(skip_spaces(l, s0) == s0);
    assert(skip_spaces(l, c1 + 2) == s0);
    assert forall|k: int| s0 <= k < s1 implies is_num_char(#[trigger] l[k]) by {
        assert(l.subrange(s0, s1)[k - s0] == l[k]);
    }
    assert(l[s1] == l.subrange(s1, s1 + 2)[0]);
    assert(l[s1 + 1] == l.subrange(s1, s1 + 2)[1]);
    lemma_run_number_over(l, s0, s1);
    assert(l[v0] == l.subrange(v0, v1)[0]);
    assert(skip_spaces(l, v0) == v0);
    assert(skip_spaces(l, s1 + 1) == v0);
    assert forall|k: int| v0 <= k < v1 implies is_num_char(#[trigger] l[k]) by {
        assert(l.subrange(v0, v1)[k - v0] == l[k]);
    }
    assert(l[v1] == l.subrange(v1, v1 + 2)[0]);
    assert(l[v1 + 1] == l.subrange(v1, v1 + 2)[1]);
    lemma_run_number_over(l, v0, v1);
    assert(l[m0] == l.subrange(m0, m1)[0]);
    assert(skip_spaces(l, m0) == m0);
    assert(skip_spaces(l, v1 + 1) == m0);
    assert forall|k: int| m0 <= k < m1 implies is_num_char(#[trigger] l[k]) by {
        assert(l.subrange(m0, m1)[k - m0] == l[k]);
    }
    lemma_run_number_over(l, m0, m1);
    assert(skip_spaces(l, m1) == m1);
    assert(match_at(l, p) == Some(
        Captures {
            color: (c0 as usize, c1 as usize),
            size: (s0 as usize, s1 as usize),
            speed: (v0 as usize, v1 as usize),
            smoothness: (m0 as usize, m1 as usize),
        },
    ));
}

proof fn lemma_find_match_skip(l: Seq<char>, j: int, p: int)
    requires
        0 <= j <= p <= l.len(),
        forall|k: int| j <= k < p ==> #[trigger] l[k] != 'B',
    ensures
        find_match(l, j) == find_match(l, p),
    decreases p - j,
{
    reveal_strlit("Blob");
    if j < p {
        assert(!lit_at(l, j, "Blob"@)) by {
            if lit_at(l, j, "Blob"@) {
                assert(l.subrange(j, j + 4)[0] == l[j]);
            }
        }
        lemma_find_match_skip(l, j + 1, p);
    }
}

/// The line the exporter writes for record `i`, without its line feed.
proof fn lemma_blob_line_shape(i: nat, b: Blob)
    ensures
        blob_line(i, b).drop_last() == "    blobs["@ + digits_of(i) + "] = "@ + record_call(b) + ";"@,
        blob_line(i, b).last() == '\n',
{
    reveal_strlit("] = Blob(vec2(0), vec3(");
    reveal_strlit("] = ");
    reveal_strlit("Blob(vec2(0), vec3(");
    reveal_strlit(");\n");
    reveal_strlit(")");
    reveal_strlit(";");
    assert(blob_line(i, b).drop_last() =~= "    blobs["@ + digits_of(i) + "] = "@ + record_call(b) + ";"@);
}

proof fn lemma_prefix_has_no_b(i: nat)
    ensures
        no_char("    blobs["@ + digits_of(i) + "] = "@, 'B'),
{
    reveal_strlit("    blobs[");
    reveal_strlit("] = ");
    lemma_digits_of(i);
    let d = digits_of(i);
    assert(no_char(d, 'B')) by {
        assert forall|k: int| 0 <= k < d.len() implies #[trigger] d[k] != 'B' by {
            assert(crate::decimal::is_digit(d[k]));
        }
    }
    assert(no_char("    blobs["@, 'B'));
    assert(no_char("] = "@, 'B'));
    lemma_no_char_concat("    blobs["@, d, 'B');
    lemma_no_char_concat("    blobs["@ + d, "] = "@, 'B');
}

/// Each line the exporter writes reads back as the record it was written from.
#[verifier::rlimit(100)]
pub proof fn law_record_line_round_trip(i: nat, b: Blob)
    requires
        b.wf(),
        unsigned_scalars(b),
        blob_line(i, b).len() <= usize::MAX,
    ensures
        spec_parse_line(blob_line(i, b).drop_last()) == Some(b),
{
    reveal_strlit("    blobs[");
    reveal_strlit("] = ");
    reveal_strlit(";");
    lemma_blob_line_shape(i, b);
    lemma_digits_of(i);
    let pre = "    blobs["@ + digits_of(i) + "] = "@;
    let post = ";"@;
    let l = pre + record_call(b) + post;
    lemma_prefix_has_no_b(i);
    assert forall|k: int| 0 <= k < pre.len() implies #[trigger] l[k] != 'B' by {
        assert(l[k] == pre[k]);
    }
    lemma_find_match_skip(l, 0, pre.len() as int);
    lemma_match_record(pre, b, post);
    assert(find_match(l, pre.len() as int) == match_at(l, pre.len() as int));
    lemma_color_numbers(b);
    lemma_parse_render(b.size);
    lemma_parse_render(b.speed);
    lemma_parse_render(b.smoothness);
    let c = match_at(l, pre.len() as int)->Some_0;
    let color = numbers_of(comma_pieces(l.subrange(c.color.0 as int, c.color.1 as int)));
    assert(color == seq![b.color[0], b.color[1], b.color[2]]);
    assert([color[0], color[1], color[2]] =~= b.color);
}

proof fn lemma_split_append(a: Seq<char>, x: Seq<char>, ls: Seq<Seq<char>>)
    requires
        split_lines(a) == (ls, Seq::<char>::empty()),
        forall|k: int| 0 <= k < x.len() ==> #[trigger] x[k] != '\n',
    ensures
        split_lines(a + x) == (ls, x),
    decreases x.len(),
{
    if x.len() == 0 {
        assert(a + x =~= a);
        assert(x =~= Seq::<char>::empty());
    } else {
        lemma_split_append(a, x.drop_last(), ls);
        assert((a + x).drop_last() =~= a + x.drop_last());
        assert((a + x).last() == x.last());
        assert(x.drop_last().push(x.last()) =~= x);
    }
}

proof fn lemma_split_line(a: Seq<char>, x: Seq<char>, ls: Seq<Seq<char>>)
    requires
        split_lines(a) == (ls, Seq::<char>::empty()),
        forall|k: int| 0 <= k < x.len() ==> #[trigger] x[k] != '\n',
    ensures
        split_lines(a + x.push('\n')) == (ls.push(x), Seq::<char>::empty()),
{
    lemma_split_append(a, x, ls);
    assert((a + x.push('\n')).drop_last() =~= a + x);
    assert((a + x.push('\n')).last() == '\n');
}

proof fn lemma_render_no_newline(d: Decimal)
    ensures
        no_char(render(d), '\n'),
{
    lemma_render_shape(d);
}

proof fn lemma_record_call_no_newline(b: Blob)
    ensures
        no_char(record_call(b), '\n'),
{
    reveal_strlit("Blob(vec2(0), vec3(");
    reveal_strlit("), ");
    reveal_strlit(", ");
    reveal_strlit(")");
    lemma_render_no_newline(b.color[0]);
    lemma_render_no_newline(b.color[1]);
    lemma_render_no_newline(b.color[2]);
    lemma_render_no_newline(b.size);
    lemma_render_no_newline(b.speed);
    lemma_render_no_newline(b.smoothness);
    assert(no_char(", "@, '\n'));
    lemma_no_char_concat(render(b.color[0]), ", "@, '\n');
    lemma_no_char_concat(render(b.color[0]) + ", "@, render(b.color[1]), '\n');
    lemma_no_char_concat(render(b.color[0]) + ", "@ + render(b.color[1]), ", "@, '\n');
    lemma_no_char_concat(render(b.color[0]) + ", "@ + render(b.color[1]) + ", "@, render(b.color[2]), '\n');
    let acc = "Blob(vec2(0), vec3("@;
    assert(no_char(acc, '\n'));
    assert(no_char("), "@, '\n'));
    assert(no_char(")"@, '\n'));
    let acc = lemma_no_char_extend(acc, color_text(b), '\n');
    let acc = lemma_no_char_extend(acc, "), "@, '\n');
    let acc = lemma_no_char_extend(acc, render(b.size), '\n');
    let acc = lemma_no_char_extend(acc, ", "@, '\n');
    let acc = lemma_no_char_extend(acc, render(b.speed), '\n');
    let acc = lemma_no_char_extend(acc, ", "@, '\n');
    let acc = lemma_no_char_extend(acc, render(b.smoothness), '\n');
    let acc = lemma_no_char_extend(acc, ")"@, '\n');
    assert(acc == record_call(b));
}

proof fn lemma_blob_line_no_newline(i: nat, b: Blob)
    ensures
        no_char(blob_line(i, b).drop_last(), '\n'),
{
    reveal_strlit("    blobs[");
    reveal_strlit("] = ");
    reveal_strlit(";");
    lemma_blob_line_shape(i, b);
    lemma_digits_of(i);
    lemma_record_call_no_newline(b);
    let d = digits_of(i);
    assert(no_char(d, '\n')) by {
        assert forall|k: int| 0 <= k < d.len() implies #[trigger] d[k] != '\n' by {
            assert(crate::decimal::is_digit(d[k]));
        }
    }
    assert(no_char("    blobs["@, '\n'));
    assert(no_char("] = "@, '\n'));
    assert(no_char(";"@, '\n'));
    lemma_no_char_concat("    blobs["@, d, '\n');
    lemma_no_char_concat("    blobs["@ + d, "] = "@, '\n');
    lemma_no_char_concat("    blobs["@ + d + "] = "@, record_call(b), '\n');
    lemma_no_char_concat("    blobs["@ + d + "] = "@ + record_call(b), ";"@, '\n');
}

pub open spec fn all_writable(bs: Seq<Blob>) -> bool {
    forall|i: int| 0 <= i < bs.len() ==> (#[trigger] bs[i]).wf() && unsigned_scalars(bs[i])
}

proof fn lemma_blob_lines_split(a: Seq<char>, ls: Seq<Seq<char>>, bs: Seq<Blob>)
    requires
        split_lines(a) == (ls, Seq::<char>::empty()),
    ensures
        split_lines(a + blob_lines(bs)) == (
            ls + Seq::new(bs.len(), |i: int| blob_line(i as nat, bs[i]).drop_last()),
            Seq::<char>::empty(),
        ),
    decreases bs.len(),
{
    let lines = Seq::new(bs.len(), |i: int| blob_line(i as nat, bs[i]).drop_last());
    if bs.len() == 0 {
        assert(a + blob_lines(bs) =~= a);
        assert(ls + lines =~= ls);
    } else {
        let b0 = bs.drop_last();
        lemma_blob_lines_split(a, ls, b0);
        let lines0 = Seq::new(b0.len(), |i: int| blob_line(i as nat, b0[i]).drop_last());
        let n = (bs.len() - 1) as nat;
        let x = blob_line(n, bs.last());
        lemma_blob_line_no_newline(n, bs.last());
        lemma_blob_line_shape(n, bs.last());
        lemma_split_line(a + blob_lines(b0), x.drop_last(), ls + lines0);
        assert(x.drop_last().push('\n') =~= x);
        assert(a + blob_lines(bs) =~= (a + blob_lines(b0)) + x);
        assert((ls + lines0).push(x.drop_last()) =~= ls + lines);
    }
}

proof fn lemma_blobs_of_lines_append(ls: Seq<Seq<char>>, ms: Seq<Seq<char>>)
    ensures
        blobs_of_lines(ls + ms) == blobs_of_lines(ls) + blobs_of_lines(ms),
    decreases ms.len(),
{
    if ms.len() == 0 {
        assert(ls + ms =~= ls);
        assert(blobs_of_lines(ls) + blobs_of_lines(ms) =~= blobs_of_lines(ls));
    } else {
        lemma_blobs_of_lines_append(ls, ms.drop_last());
        assert((ls + ms).drop_last() =~= ls + ms.drop_last());
        assert((ls + ms).last() == ms.last());
        let tail = blobs_of_lines(ms) ;
        assert(blobs_of_lines(ls) + blobs_of_lines(ms) =~= blobs_of_lines(ls + ms));
    }
}

proof fn lemma_generated_lines(bs: Seq<Blob>)
    requires
        all_writable(bs),
        forall|i: int| 0 <= i < bs.len() ==> (#[trigger] blob_line(i as nat, bs[i])).len() <= usize::MAX,
    ensures
        blobs_of_lines(Seq::new(bs.len(), |i: int| blob_line(i as nat, bs[i]).drop_last())) == bs,
    decreases bs.len(),
{
    let lines = Seq::new(bs.len(), |i: int| blob_line(i as nat, bs[i]).drop_last());
    if bs.len() > 0 {
        let b0 = bs.drop_last();
        assert forall|i: int| 0 <= i < b0.len() implies (#[trigger] b0[i]).wf() && unsigned_scalars(b0[i]) by {
            assert(b0[i] == bs[i]);
        }
        assert forall|i: int| 0 <= i < b0.len() implies (#[trigger] blob_line(i as nat, b0[i])).len() <= usize::MAX by {
            assert(b0[i] == bs[i]);
        }
        lemma_generated_lines(b0);
        assert(lines.drop_last() =~= Seq::new(b0.len(), |i: int| blob_line(i as nat, b0[i]).drop_last()));
        let n = bs.len() - 1;
        law_record_line_round_trip(n as nat, bs[n]);
        assert(bs.drop_last().push(bs.last()) =~= bs);
    } else {
        assert(bs =~= Seq::<Blob>::empty());
    }
}

/// The lines the exporter writes for `bs` read back as `bs`, in order.
pub proof fn law_generated_lines_round_trip(bs: Seq<Blob>)
    requires
        all_writable(bs),
        forall|i: int| 0 <= i < bs.len() ==> (#[trigger] blob_line(i as nat, bs[i])).len() <= usize::MAX,
    ensures
        blobs_of_text(blob_lines(bs)) == bs,
{
    let e = Seq::<char>::empty();
    assert(split_lines(e) == (Seq::<Seq<char>>::empty(), e));
    lemma_blob_lines_split(e, Seq::<Seq<char>>::empty(), bs);
    assert(e + blob_lines(bs) =~= blob_lines(bs));
    let lines = Seq::new(bs.len(), |i: int| blob_line(i as nat, bs[i]).drop_last());
    assert(Seq::<Seq<char>>::empty() + lines =~= lines);
    assert(text_lines(blob_lines(bs)) == lines);
    lemma_generated_lines(bs);
}


proof fn lemma_no_match_at_end(l: Seq<char>)
    ensures
        find_match(l, l.len() as int) is None,
{
    reveal_strlit("Blob");
    assert(!lit_at(l, l.len() as int, "Blob"@));
    assert(find_match(l, (l.len() + 1) as int) is None);
}

proof fn lemma_header_is_no_record()
    ensures
        spec_parse_line("void initializeBlobs() {"@) is None,
{
    reveal_strlit("void initializeBlobs() {");
    reveal_strlit("Blob");
    let h = "void initializeBlobs() {"@;
    assert(h.len() == 24);
    assert forall|k: int| 0 <= k < 15 implies #[trigger] h[k] != 'B' by {}
    assert forall|k: int| 16 <= k < 24 implies #[trigger] h[k] != 'B' by {}
    lemma_find_match_skip(h, 0, 15);
    assert(skip_spaces(h, 19) == 19);
    assert(match_at(h, 15) is None);
    lemma_find_match_skip(h, 16, 24);
    lemma_no_match_at_end(h);
}

proof fn lemma_brace_is_no_record()
    ensures
        spec_parse_line("}"@) is None,
{
    reveal_strlit("}");
    let c = "}"@;
    lemma_find_match_skip(c, 0, 1);
    lemma_no_match_at_end(c);
}

/// The generator function the exporter writes for `bs` reads back as `bs`:
/// its header and closing lines hold no record, and its body holds them all.
pub proof fn law_generator_round_trip(bs: Seq<Blob>)
    requires
        all_writable(bs),
        forall|i: int| 0 <= i < bs.len() ==> (#[trigger] blob_line(i as nat, bs[i])).len() <= usize::MAX,
    ensures
        blobs_of_text(generator_text(bs)) == bs,
{
    reveal_strlit("void initializeBlobs() {\n");
    reveal_strlit("void initializeBlobs() {");
    reveal_strlit("}");
    let hdr = "void initializeBlobs() {"@;
    let e = Seq::<char>::empty();
    let ls0 = Seq::<Seq<char>>::empty();
    assert(split_lines(e) == (ls0, e));
    assert(no_char(hdr, '\n'));
    lemma_split_line(e, hdr, ls0);
    assert(e + hdr.push('\n') =~= "void initializeBlobs() {\n"@);
    let a = "void initializeBlobs() {\n"@;
    lemma_blob_lines_split(a, ls0.push(hdr), bs);
    let lines = Seq::new(bs.len(), |i: int| blob_line(i as nat, bs[i]).drop_last());
    let ls = ls0.push(hdr) + lines;
    assert(no_char("}"@, '\n'));
    lemma_split_append(a + blob_lines(bs), "}"@, ls);
    assert(generator_text(bs) == a + blob_lines(bs) + "}"@);
    assert(text_lines(generator_text(bs)) == ls.push("}"@));
    lemma_blobs_of_lines_append(ls0.push(hdr), lines);
    lemma_blobs_of_lines_append(ls, seq!["}"@]);
    assert(ls.push("}"@) =~= ls + seq!["}"@]);
    lemma_header_is_no_record();
    lemma_brace_is_no_record();
    assert(ls0.push(hdr).drop_last() =~= ls0);
    assert(ls0.push(hdr).last() == hdr);
    assert(blobs_of_lines(ls0) == Seq::<Blob>::empty());
    assert(blobs_of_lines(ls0.push(hdr)) =~= Seq::<Blob>::empty());
    assert(seq!["}"@].drop_last() =~= ls0);
    assert(seq!["}"@].last() == "}"@);
    assert(blobs_of_lines(seq!["}"@]) =~= Seq::<Blob>::empty());
    lemma_generated_lines(bs);
    assert(Seq::<Blob>::empty() + bs + Seq::<Blob>::empty() =~= bs);
}


pub(crate) proof fn lemma_rewrite_generators_skip(t: Seq<char>, i: int, j: int, rep: Seq<char>)
    requires
        0 <= i <= j <= t.len(),
        forall|k: int| i <= k < j ==> #[trigger] generator_at(t, k) is None,
    ensures
        rewrite_generators(t, i, rep) == t.subrange(i, j) + rewrite_generators(t, j, rep),
    decreases j - i,
{
    if i < j {
        lemma_rewrite_generators_skip(t, i + 1, j, rep);
        assert(t.subrange(i, j) =~= seq![t[i]] + t.subrange(i + 1, j));
    } else {
        assert(t.subrange(i, j) =~= Seq::<char>::empty());
    }
}

proof fn lemma_split_concat(a: Seq<char>, b: Seq<char>)
    requires
        split_lines(a).1 == Seq::<char>::empty(),
    ensures
        split_lines(a + b) == (split_lines(a).0 + split_lines(b).0, split_lines(b).1),
    decreases b.len(),
{
    if b.len() == 0 {
        assert(a + b =~= a);
        assert(split_lines(a).0 + Seq::<Seq<char>>::empty() =~= split_lines(a).0);
    } else {
        lemma_split_concat(a, b.drop_last());
        assert((a + b).drop_last() =~= a + b.drop_last());
        assert((a + b).last() == b.last());
        let (ls, cur) = split_lines(b.drop_last());
        assert((split_lines(a).0 + ls).push(cur) =~= split_lines(a).0 + ls.push(cur));
    }
}

proof fn lemma_text_lines_concat(a: Seq<char>, b: Seq<char>)
    requires
        split_lines(a).1 == Seq::<char>::empty(),
    ensures
        text_lines(a + b) == text_lines(a) + text_lines(b),
{
    lemma_split_concat(a, b);
    let (lb, cb) = split_lines(b);
    let la = split_lines(a).0;
    assert(text_lines(a) == la);
    if cb.len() > 0 {
        assert((la + lb).push(cb) =~= la + lb.push(cb));
    }
}

proof fn lemma_closed_lines(a: Seq<char>)
    requires
        a.len() > 0,
        a.last() == '\n',
    ensures
        split_lines(a).1 == Seq::<char>::empty(),
{
}

/// What export writes, for a base text holding one generator function.
#[verifier::spinoff_prover]
pub(crate) proof fn lemma_export_shape(bs: Seq<Blob>, t: Seq<char>, a: Seq<char>, body: Seq<char>, z: Seq<char>)
    requires
        rewrite_directives(t, 0, directive_text(bs)) == a + "void initializeBlobs() {"@ + body + "}"@ + z,
        no_char(body, '}'),
        forall|k: int| 0 <= k < a.len() ==> #[trigger] generator_at(rewrite_directives(t, 0, directive_text(bs)), k) is None,
        forall|k: int| 0 <= k < z.len() ==> #[trigger] generator_at(
            rewrite_directives(t, 0, directive_text(bs)),
            a.len() + 25 + body.len() + k,
        ) is None,
    ensures
        export_text(bs, t) == a + generator_text(bs) + z,
{
    reveal_strlit("void initializeBlobs() {");
    reveal_strlit("}");
    let hdr = "void initializeBlobs() {"@;
    let u = rewrite_directives(t, 0, directive_text(bs));
    let g = generator_text(bs);
    let p = a.len() as int;
    let e = p + 25 + body.len();
    assert(u.len() == e + z.len());
    assert(u.subrange(p, p + 24) =~= hdr);
    assert forall|k: int| p + 24 <= k < e - 1 implies #[trigger] u[k] != '}' by {
        assert(u[k] == body[k - p - 24]);
    }
    assert(u[e - 1] == '}');
    lemma_run_until_to(u, p + 24, e - 1, '}');
    assert(generator_at(u, p) == Some(e));
    lemma_rewrite_generators_skip(u, 0, p, g);
    assert forall|k: int| e <= k < u.len() implies #[trigger] generator_at(u, k) is None by {
        assert(generator_at(u, a.len() + 25 + body.len() + (k - e)) is None);
    }
    lemma_rewrite_generators_skip(u, e, u.len() as int, g);
    assert(u.subrange(0, p) =~= a);
    assert(u.subrange(e, u.len() as int) =~= z);
    assert(rewrite_generators(u, u.len() as int, g) == Seq::<char>::empty());
    assert(export_text(bs, t) =~= a + g + z);
}

/// Reading back a text made of whole lines `a`, the generator function for
/// `bs`, and lines `z` that are empty or start with a line feed.
#[verifier::spinoff_prover]
#[verifier::rlimit(60)]
proof fn lemma_parse_shape(bs: Seq<Blob>, a: Seq<char>, z: Seq<char>)
    requires
        all_writable(bs),
        forall|i: int| 0 <= i < bs.len() ==> (#[trigger] blob_line(i as nat, bs[i])).len() <= usize::MAX,
        a.len() > 0 && a.last() == '\n',
        z.len() == 0 || z[0] == '\n',
        blobs_of_text(a) == Seq::<Blob>::empty(),
        blobs_of_text(z) == Seq::<Blob>::empty(),
    ensures
        blobs_of_text(a + generator_text(bs) + z) == bs,
{
    if z.len() == 0 {
        lemma_closed_lines(a);
        lemma_text_lines_concat(a, generator_text(bs));
        law_generator_round_trip(bs);
        lemma_blobs_of_lines_append(text_lines(a), text_lines(generator_text(bs)));
        assert(a + generator_text(bs) + z =~= a + generator_text(bs));
        assert(Seq::<Blob>::empty() + bs =~= bs);
    } else {
        reveal_strlit("void initializeBlobs() {\n");
        reveal_strlit("}");
        let g = generator_text(bs);
        let z1 = z.drop_first();
        assert(z =~= seq!['\n'] + z1);
        let g1 = g.push('\n');
        assert(a + g + z =~= a + (g1 + z1));
        lemma_closed_lines(a);
        lemma_text_lines_concat(a, g1 + z1);
        lemma_closed_lines(g1);
        lemma_text_lines_concat(g1, z1);
        let (lg, cg) = split_lines(g);
        assert(g1.drop_last() =~= g);
        assert(g.last() == '}');
        assert(split_lines(g1) == (lg.push(cg), Seq::<char>::empty()));
        assert(cg.len() > 0) by {
            assert(g.drop_last().push('}') =~= g);
        }
        assert(text_lines(g1) == text_lines(g));
        law_generator_round_trip(bs);
        lemma_blobs_of_lines_append(text_lines(a), text_lines(g1) + text_lines(z1));
        lemma_blobs_of_lines_append(text_lines(g1), text_lines(z1));
        let e0 = Seq::<char>::empty();
        assert(split_lines(seq!['\n']) == (seq![e0], e0)) by {
            assert(seq!['\n'].drop_last() =~= e0);
            assert(seq!['\n'].last() == '\n');
            assert(split_lines(e0) == (Seq::<Seq<char>>::empty(), e0));
            assert(Seq::<Seq<char>>::empty().push(e0) =~= seq![e0]);
        }
        lemma_text_lines_concat(seq!['\n'], z1);
        assert(text_lines(seq!['\n']) == seq![e0]);
        lemma_blobs_of_lines_append(seq![e0], text_lines(z1));
        assert(seq![e0].drop_last() =~= Seq::<Seq<char>>::empty());
        lemma_no_match_at_end(e0);
        assert(blobs_of_lines(seq![e0]) =~= Seq::<Blob>::empty());
        assert(blobs_of_text(z1) == blobs_of_text(z));
        assert(blobs_of_text(a + g + z) =~= bs);
    }
}

/// Parsing what export writes gives back the records: for a base text whose
/// count directives are rewritten first, and which then holds one generator
/// function after a run of whole lines `a` and before a text `z` that is
/// empty or starts a new line, neither of which defines a record or starts another generator
/// function, the exported text reads back as exactly `bs`.
pub proof fn law_export_parse_round_trip(bs: Seq<Blob>, t: Seq<char>, a: Seq<char>, body: Seq<char>, z: Seq<char>)
    requires
        all_writable(bs),
        forall|i: int| 0 <= i < bs.len() ==> (#[trigger] blob_line(i as nat, bs[i])).len() <= usize::MAX,
        rewrite_directives(t, 0, directive_text(bs)) == a + "void initializeBlobs() {"@ + body + "}"@ + z,
        no_char(body, '}'),
        a.len() > 0 && a.last() == '\n',
        z.len() == 0 || z[0] == '\n',
        blobs_of_text(a) == Seq::<Blob>::empty(),
        blobs_of_text(z) == Seq::<Blob>::empty(),
        forall|k: int| 0 <= k < a.len() ==> #[trigger] generator_at(rewrite_directives(t, 0, directive_text(bs)), k) is None,
        forall|k: int| 0 <= k < z.len() ==> #[trigger] generator_at(
            rewrite_directives(t, 0, directive_text(bs)),
            a.len() + 25 + body.len() + k,
        ) is None,
    ensures
        blobs_of_text(export_text(bs, t)) == bs,
{
    lemma_export_shape(bs, t, a, body, z);
    lemma_parse_shape(bs, a, z);
}

} // verus!
