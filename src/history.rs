//! Parameter records and the reversible edit log over them.
use vstd::prelude::*;
use crate::decimal::Decimal;

verus! {

/// One parameter record of the lava-lamp shader.
#[derive(Clone, Copy, Debug, PartialEq)]
pub struct Blob {
    pub color: [Decimal; 3],
    pub size: Decimal,
    pub speed: Decimal,
    pub smoothness: Decimal,
}

impl Blob {
    pub open spec fn wf(self) -> bool {
        &&& self.color[0].wf()
        &&& self.color[1].wf()
        &&& self.color[2].wf()
        &&& self.size.wf()
        &&& self.speed.wf()
        &&& self.smoothness.wf()
    }
}

/// The record whose every field is zero.
pub fn zero_blob() -> (r: Blob)
    ensures
        r == zero_blob_spec(),
        r.wf(),
{
    let z = Decimal { negative: false, mantissa: 0, scale: 0 };
    Blob { color: [z, z, z], size: z, speed: z, smoothness: z }
}

pub open spec fn zero_decimal() -> Decimal {
    Decimal { negative: false, mantissa: 0, scale: 0 }
}

pub open spec fn zero_blob_spec() -> Blob {
    Blob {
        color: [zero_decimal(), zero_decimal(), zero_decimal()],
        size: zero_decimal(),
        speed: zero_decimal(),
        smoothness: zero_decimal(),
    }
}

/// A reversible change to a sequence of records. `Delete` and `Mutate`
/// capture the value they displace when they are applied.
#[derive(Clone, Copy, Debug, PartialEq)]
pub enum BlobsEdit {
    AddBlob(Blob),
    DeleteBlob(usize, Blob),
    MutateBlob { index: usize, old: Blob, new: Blob },
}

pub open spec fn all_wf(bs: Seq<Blob>) -> bool {
    forall|i: int| 0 <= i < bs.len() ==> (#[trigger] bs[i]).wf()
}

/// Every record that `c` carries is well formed.
pub open spec fn cmd_wf(c: BlobsEdit) -> bool {
    match c {
        BlobsEdit::AddBlob(b) => b.wf(),
        BlobsEdit::DeleteBlob(_, b) => b.wf(),
        BlobsEdit::MutateBlob { old, new, .. } => old.wf() && new.wf(),
    }
}

pub open spec fn all_cmds_wf(cs: Seq<BlobsEdit>) -> bool {
    forall|i: int| 0 <= i < cs.len() ==> cmd_wf(#[trigger] cs[i])
}

proof fn lemma_apply_keeps_wf(c: BlobsEdit, s: Seq<Blob>)
    requires
        can_apply(c, s),
        cmd_wf(c),
        all_wf(s),
    ensures
        cmd_wf(apply_spec(c, s).0),
        all_wf(apply_spec(c, s).1),
{
    match c {
        BlobsEdit::DeleteBlob(i, _) => {
            assert forall|j: int| 0 <= j < s.remove(i as int).len() implies (#[trigger] s.remove(i as int)[j]).wf() by {
                if j < i {
                    assert(s.remove(i as int)[j] == s[j]);
                } else {
                    assert(s.remove(i as int)[j] == s[j + 1]);
                }
            }
        },
        _ => {},
    }
}

proof fn lemma_undo_keeps_wf(c: BlobsEdit, s: Seq<Blob>)
    requires
        can_undo(c, s),
        cmd_wf(c),
        all_wf(s),
    ensures
        cmd_wf(undo_spec(c, s).0),
        all_wf(undo_spec(c, s).1),
{
    match c {
        BlobsEdit::AddBlob(_) => {
            assert(s.last() == s[s.len() - 1]);
        },
        BlobsEdit::DeleteBlob(i, b) => {
            assert forall|j: int| 0 <= j < s.insert(i as int, b).len() implies (#[trigger] s.insert(i as int, b)[j]).wf() by {
                if j < i {
                    assert(s.insert(i as int, b)[j] == s[j]);
                } else if j > i {
                    assert(s.insert(i as int, b)[j] == s[j - 1]);
                }
            }
        },
        _ => {},
    }
}

/// Whether `c` can be applied to `s`.
pub open spec fn can_apply(c: BlobsEdit, s: Seq<Blob>) -> bool {
    match c {
        BlobsEdit::AddBlob(_) => s.len() < usize::MAX,
        BlobsEdit::DeleteBlob(i, _) => i < s.len() <= usize::MAX,
        BlobsEdit::MutateBlob { index, .. } => index < s.len(),
    }
}

/// Applying `c` to `s`: the command as it stands afterwards, and the new records.
pub open spec fn apply_spec(c: BlobsEdit, s: Seq<Blob>) -> (BlobsEdit, Seq<Blob>) {
    match c {
        BlobsEdit::AddBlob(b) => (c, s.push(b)),
        BlobsEdit::DeleteBlob(i, _) => (BlobsEdit::DeleteBlob(i, s[i as int]), s.remove(i as int)),
        BlobsEdit::MutateBlob { index, new, .. } => (
            BlobsEdit::MutateBlob { index, old: s[index as int], new },
            s.update(index as int, new),
        ),
    }
}

/// Whether `c` can be taken back from `s`.
pub open spec fn can_undo(c: BlobsEdit, s: Seq<Blob>) -> bool {
    match c {
        BlobsEdit::AddBlob(_) => s.len() > 0,
        BlobsEdit::DeleteBlob(i, _) => i <= s.len() && s.len() < usize::MAX,
        BlobsEdit::MutateBlob { index, .. } => index < s.len(),
    }
}

/// Taking `c` back from `s`: the command as it stands afterwards, and the new records.
pub open spec fn undo_spec(c: BlobsEdit, s: Seq<Blob>) -> (BlobsEdit, Seq<Blob>) {
    match c {
        BlobsEdit::AddBlob(_) => (BlobsEdit::AddBlob(s.last()), s.drop_last()),
        BlobsEdit::DeleteBlob(i, b) => (c, s.insert(i as int, b)),
        BlobsEdit::MutateBlob { index, old, .. } => (c, s.update(index as int, old)),
    }
}

impl BlobsEdit {
    /// Applies the command, recording in it what it displaced.
    pub fn edit(&mut self, target: &mut Vec<Blob>)
        requires
            can_apply(*old(self), old(target)@),
        ensures
            (*final(self), final(target)@) == apply_spec(*old(self), old(target)@),
    {
        match self {
            BlobsEdit::AddBlob(blob) => {
                target.push(*blob);
            },
            BlobsEdit::MutateBlob { index, old, new } => {
                *old = target[*index];
                target.set(*index, *new);
            },
            BlobsEdit::DeleteBlob(index, blob) => {
                *blob = target.remove(*index);
            },
        }
    }

    /// Takes the command back.
    pub fn undo(&mut self, target: &mut Vec<Blob>)
        requires
            can_undo(*old(self), old(target)@),
        ensures
            (*final(self), final(target)@) == undo_spec(*old(self), old(target)@),
    {
        match self {
            BlobsEdit::AddBlob(blob) => {
                *blob = target.pop().unwrap();
            },
            BlobsEdit::MutateBlob { index, old, .. } => {
                target.set(*index, *old);
            },
            BlobsEdit::DeleteBlob(index, blob) => {
                target.insert(*index, *blob);
            },
        }
    }
}

/// `applied` (oldest first) can be taken back one by one from `s`, each
/// command bringing back exactly the state it was applied to.
pub open spec fn undo_chain(s: Seq<Blob>, applied: Seq<BlobsEdit>) -> bool
    decreases applied.len(),
{
    if applied.len() == 0 {
        true
    } else {
        let c = applied.last();
        let (c1, s1) = undo_spec(c, s);
        &&& can_undo(c, s)
        &&& can_apply(c1, s1)
        &&& apply_spec(c1, s1) == (c, s)
        &&& undo_chain(s1, applied.drop_last())
    }
}

/// `undone` (last to be redone first) can be applied one by one from `s`,
/// each taken back exactly by its own undo.
pub open spec fn redo_chain(s: Seq<Blob>, undone: Seq<BlobsEdit>) -> bool
    decreases undone.len(),
{
    if undone.len() == 0 {
        true
    } else {
        let c = undone.last();
        let (c1, s1) = apply_spec(c, s);
        &&& can_apply(c, s)
        &&& can_undo(c1, s1)
        &&& undo_spec(c1, s1) == (c, s)
        &&& redo_chain(s1, undone.drop_last())
    }
}

/// A linear history of edits: commands that were applied and may be undone,
/// and commands that were undone and may be redone.
pub struct EditHistory {
    applied: Vec<BlobsEdit>,
    undone: Vec<BlobsEdit>,
}

/// What `record` does to (applied, undone, records).
pub open spec fn record_spec(applied: Seq<BlobsEdit>, undone: Seq<BlobsEdit>, s: Seq<Blob>, c: BlobsEdit)
    -> (Seq<BlobsEdit>, Seq<BlobsEdit>, Seq<Blob>)
{
    let (c1, s1) = apply_spec(c, s);
    (applied.push(c1), seq![], s1)
}

/// What `undo` does to (applied, undone, records).
pub open spec fn history_undo_spec(applied: Seq<BlobsEdit>, undone: Seq<BlobsEdit>, s: Seq<Blob>)
    -> (Seq<BlobsEdit>, Seq<BlobsEdit>, Seq<Blob>)
{
    if applied.len() == 0 {
        (applied, undone, s)
    } else {
        let (c1, s1) = undo_spec(applied.last(), s);
        (applied.drop_last(), undone.push(c1), s1)
    }
}

/// What `redo` does to (applied, undone, records).
pub open spec fn history_redo_spec(applied: Seq<BlobsEdit>, undone: Seq<BlobsEdit>, s: Seq<Blob>)
    -> (Seq<BlobsEdit>, Seq<BlobsEdit>, Seq<Blob>)
{
    if undone.len() == 0 {
        (applied, undone, s)
    } else {
        let (c1, s1) = apply_spec(undone.last(), s);
        (applied.push(c1), undone.drop_last(), s1)
    }
}

/// Applying a command and then taking it back restores the records, and
/// the command is then ready to be applied again with the same effect.
pub proof fn lemma_apply_undo(c: BlobsEdit, s: Seq<Blob>)
    requires
        can_apply(c, s),
    ensures
        can_undo(apply_spec(c, s).0, apply_spec(c, s).1),
        undo_spec(apply_spec(c, s).0, apply_spec(c, s).1).1 == s,
        can_apply(undo_spec(apply_spec(c, s).0, apply_spec(c, s).1).0, s),
        apply_spec(undo_spec(apply_spec(c, s).0, apply_spec(c, s).1).0, s) == apply_spec(c, s),
{
    let (c1, s1) = apply_spec(c, s);
    match c {
        BlobsEdit::AddBlob(b) => {
            assert(s1.drop_last() =~= s);
            assert(s1.last() == b);
        },
        BlobsEdit::DeleteBlob(i, _) => {
            assert(s1.insert(i as int, s[i as int]) =~= s);
        },
        BlobsEdit::MutateBlob { index, new, .. } => {
            assert(s1.update(index as int, s[index as int]) =~= s);
            assert(s.update(index as int, new) =~= s1);
        },
    }
}

impl EditHistory {
    pub closed spec fn applied(&self) -> Seq<BlobsEdit> {
        self.applied@
    }

    pub closed spec fn undone(&self) -> Seq<BlobsEdit> {
        self.undone@
    }

    /// The history is consistent with the records `s`.
    pub open spec fn wf(&self, s: Seq<Blob>) -> bool {
        &&& all_wf(s)
        &&& all_cmds_wf(self.applied())
        &&& all_cmds_wf(self.undone())
        &&& undo_chain(s, self.applied())
        &&& redo_chain(s, self.undone())
    }

    /// An empty history.
    pub fn new() -> (r: Self)
        ensures
            r.applied() == Seq::<BlobsEdit>::empty(),
            r.undone() == Seq::<BlobsEdit>::empty(),
    {
        EditHistory { applied: Vec::new(), undone: Vec::new() }
    }

    /// Applies `c` to `target`, records it, and forgets every undone command.
    pub fn edit(&mut self, target: &mut Vec<Blob>, c: BlobsEdit)
        requires
            old(self).wf(old(target)@),
            can_apply(c, old(target)@),
            cmd_wf(c),
        ensures
            final(self).wf(final(target)@),
            (final(self).applied(), final(self).undone(), final(target)@) == record_spec(
                old(self).applied(),
                old(self).undone(),
                old(target)@,
                c,
            ),
    {
        let ghost s = target@;
        let ghost c0 = c;
        let mut c = c;
        c.edit(target);
        proof {
            lemma_apply_undo(c0, s);
            lemma_apply_keeps_wf(c0, s);
        }
        self.applied.push(c);
        self.undone = Vec::new();
        proof {
            assert(self.applied@.drop_last() =~= old(self).applied@);
            assert(redo_chain(target@, self.undone@));
        }
    }

    /// Takes back the last applied command, if any.
    pub fn undo(&mut self, target: &mut Vec<Blob>)
        requires
            old(self).wf(old(target)@),
        ensures
            final(self).wf(final(target)@),
            (final(self).applied(), final(self).undone(), final(target)@) == history_undo_spec(
                old(self).applied(),
                old(self).undone(),
                old(target)@,
            ),
    {
        match self.applied.pop() {
            None => {},
            Some(c) => {
                proof {
                    lemma_undo_keeps_wf(c, target@);
                    assert(cmd_wf(old(self).applied@.last()));
                }
                let mut c = c;
                c.undo(target);
                self.undone.push(c);
                proof {
                    assert(self.undone@.drop_last() =~= old(self).undone@);
                }
            },
        }
    }

    /// Applies again the last undone command, if any.
    pub fn redo(&mut self, target: &mut Vec<Blob>)
        requires
            old(self).wf(old(target)@),
        ensures
            final(self).wf(final(target)@),
            (final(self).applied(), final(self).undone(), final(target)@) == history_redo_spec(
                old(self).applied(),
                old(self).undone(),
                old(target)@,
            ),
    {
        match self.undone.pop() {
            None => {},
            Some(c) => {
                proof {
                    lemma_apply_keeps_wf(c, target@);
                    assert(cmd_wf(old(self).undone@.last()));
                }
                let mut c = c;
                c.edit(target);
                self.applied.push(c);
                proof {
                    assert(self.applied@.drop_last() =~= old(self).applied@);
                }
            },
        }
    }
}

/// Undoing right after an edit restores the records and the applied commands
/// that stood before it; redoing then brings back the edited state; and a
/// new edit after an undo leaves nothing to redo.
pub proof fn law_undo_redo(applied: Seq<BlobsEdit>, undone: Seq<BlobsEdit>, s: Seq<Blob>, c: BlobsEdit)
    requires
        can_apply(c, s),
    ensures
        ({
            let (a1, u1, s1) = record_spec(applied, undone, s, c);
            let (a2, u2, s2) = history_undo_spec(a1, u1, s1);
            let (a3, u3, s3) = history_redo_spec(a2, u2, s2);
            &&& s2 == s
            &&& a2 == applied
            &&& s3 == s1
            &&& a3 == a1
            &&& u3 == u1
        }),
        ({
            let (a1, u1, s1) = history_undo_spec(applied, undone, s);
            let (a2, u2, s2) = record_spec(a1, u1, s1, c);
            u2.len() == 0
        }),
{
    lemma_apply_undo(c, s);
    let (a1, u1, s1) = record_spec(applied, undone, s, c);
    assert(a1.drop_last() =~= applied);
    let (a2, u2, s2) = history_undo_spec(a1, u1, s1);
    assert(u2.drop_last() =~= u1);
}


/// Recording each of `cs`, in order.
pub open spec fn record_all(applied: Seq<BlobsEdit>, undone: Seq<BlobsEdit>, s: Seq<Blob>, cs: Seq<BlobsEdit>)
    -> (Seq<BlobsEdit>, Seq<BlobsEdit>, Seq<Blob>)
    decreases cs.len(),
{
    if cs.len() == 0 {
        (applied, undone, s)
    } else {
        let (a, u, t) = record_all(applied, undone, s, cs.drop_last());
        record_spec(a, u, t, cs.last())
    }
}

/// Each of `cs` can be applied to the records that the ones before it leave.
pub open spec fn all_applicable(s: Seq<Blob>, cs: Seq<BlobsEdit>) -> bool
    decreases cs.len(),
{
    if cs.len() == 0 {
        true
    } else {
        all_applicable(s, cs.drop_last()) && can_apply(
            cs.last(),
            record_all(seq![], seq![], s, cs.drop_last()).2,
        )
    }
}

/// Undoing `n` times.
pub open spec fn undo_times(applied: Seq<BlobsEdit>, undone: Seq<BlobsEdit>, s: Seq<Blob>, n: nat)
    -> (Seq<BlobsEdit>, Seq<BlobsEdit>, Seq<Blob>)
    decreases n,
{
    if n == 0 {
        (applied, undone, s)
    } else {
        let (a, u, t) = history_undo_spec(applied, undone, s);
        undo_times(a, u, t, (n - 1) as nat)
    }
}

proof fn lemma_undo_times_ignores_undone(applied: Seq<BlobsEdit>, u1: Seq<BlobsEdit>, u2: Seq<BlobsEdit>, s: Seq<Blob>, n: nat)
    ensures
        undo_times(applied, u1, s, n).0 == undo_times(applied, u2, s, n).0,
        undo_times(applied, u1, s, n).2 == undo_times(applied, u2, s, n).2,
    decreases n,
{
    if n > 0 {
        let (a1, v1, t1) = history_undo_spec(applied, u1, s);
        let (a2, v2, t2) = history_undo_spec(applied, u2, s);
        lemma_undo_times_ignores_undone(a1, v1, v2, t1, (n - 1) as nat);
    }
}

proof fn lemma_record_all_state(applied: Seq<BlobsEdit>, u1: Seq<BlobsEdit>, s: Seq<Blob>, cs: Seq<BlobsEdit>)
    ensures
        record_all(applied, u1, s, cs).2 == record_all(seq![], seq![], s, cs).2,
        record_all(applied, u1, s, cs).0.len() == applied.len() + cs.len(),
        record_all(applied, u1, s, cs).0.subrange(0, applied.len() as int) == applied,
    decreases cs.len(),
{
    if cs.len() > 0 {
        lemma_record_all_state(applied, u1, s, cs.drop_last());
        lemma_record_all_state(seq![], seq![], s, cs.drop_last());
        let a = record_all(applied, u1, s, cs.drop_last()).0;
        let c1 = apply_spec(cs.last(), record_all(applied, u1, s, cs.drop_last()).2).0;
        assert(a.push(c1).subrange(0, applied.len() as int) =~= a.subrange(0, applied.len() as int));
    }
}

/// After recording commands `cs` one by one, undoing as many times as there
/// are commands brings back the records and the undo stack from before the first.
pub proof fn law_undo_all(applied: Seq<BlobsEdit>, undone: Seq<BlobsEdit>, s: Seq<Blob>, cs: Seq<BlobsEdit>)
    requires
        all_applicable(s, cs),
    ensures
        ({
            let (a, u, t) = record_all(applied, undone, s, cs);
            let (a2, u2, t2) = undo_times(a, u, t, cs.len());
            a2 == applied && t2 == s
        }),
    decreases cs.len(),
{
    if cs.len() > 0 {
        let cs0 = cs.drop_last();
        let (a0, u0, t0) = record_all(applied, undone, s, cs0);
        lemma_record_all_state(applied, undone, s, cs0);
        lemma_apply_undo(cs.last(), t0);
        let (a1, u1, t1) = record_spec(a0, u0, t0, cs.last());
        assert(a1.drop_last() =~= a0);
        let (a2, u2, t2) = history_undo_spec(a1, u1, t1);
        assert(a2 == a0 && t2 == t0);
        law_undo_all(applied, undone, s, cs0);
        lemma_undo_times_ignores_undone(a0, u2, u0, t0, cs0.len());
    }
}

} // verus!
