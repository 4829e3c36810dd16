use crate::model::{
    backward, backward_all, byte_length, document_patch, forward, forward_all, rebase,
    record_contents, undone, Operation, Record,
};
use vstd::prelude::*;

verus! {

/// An operation on another file passes forward unchanged, whatever the two
/// operations are.
pub proof fn lemma_forward_ignores_other_files(a: Operation, b: Operation)
    requires
        a.file() != b.file(),
    ensures
        forward(a, b) == Some(a),
{
}

/// An operation on another file passes backward unchanged, whatever the two
/// operations are.
pub proof fn lemma_backward_ignores_other_files(a: Operation, b: Operation)
    requires
        a.file() != b.file(),
    ensures
        backward(a, b) == a,
{
}

/// An operation carried forward over itself is dropped.
pub proof fn lemma_duplicate_is_dropped(a: Operation)
    ensures
        forward(a, a) is None,
{
}

/// `a` takes up no room, starts exactly where `b` starts, and the rule for
/// the pair moves or cancels it all the same.
pub open spec fn displaced_at_shared_start(a: Operation, b: Operation) -> bool {
    a.location() == b.location() && match (a, b) {
        (Operation::Insert(x), Operation::Insert(y)) => x == y || byte_length(y.text) != 0,
        (Operation::Delete(x), Operation::Insert(y)) => byte_length(y.text) != 0,
        (Operation::Delete(x), Operation::Delete(y)) => x == y,
        _ => false,
    }
}

/// A textual operation that ends at or before the start of another one on
/// the same file passes forward unchanged, unless it is empty and displaced
/// at the start that the two share.
pub proof fn lemma_left_disjoint_is_stable(a: Operation, b: Operation)
    requires
        a.is_textual(),
        b.is_textual(),
        a.well_formed(),
        b.well_formed(),
        a.file() == b.file(),
        a.max_location() <= b.location(),
        !displaced_at_shared_start(a, b),
    ensures
        forward(a, b) == Some(a),
{
}

/// An empty operation displaced at the start that it shares with `b` does
/// not pass forward unchanged.
pub proof fn lemma_displaced_is_not_stable(a: Operation, b: Operation)
    requires
        a.is_textual(),
        b.is_textual(),
        a.well_formed(),
        b.well_formed(),
        a.file() == b.file(),
        a.max_location() <= b.location(),
        displaced_at_shared_start(a, b),
    ensures
        forward(a, b) != Some(a),
{
}

/// A textual operation that starts at or after the end of a deletion on the
/// same file moves left by the deleted length when carried forward over it.
/// The one exception is the deletion itself, which is dropped.
pub proof fn lemma_right_disjoint_moves_left(a: Operation, b: Operation)
    requires
        a.is_textual(),
        b is Delete,
        a.well_formed(),
        b.well_formed(),
        a.file() == b.file(),
        b.max_location() <= a.location(),
        a != b,
    ensures
        forward(a, b) == Some(a.moved(-b->Delete_0.length)),
{
}

/// Carried forward over a deletion to its left and then backward over the
/// same deletion, a textual operation is itself again exactly when twice the
/// deleted length fits between the end of the deletion and its start.
pub proof fn lemma_forward_then_backward(a: Operation, b: Operation)
    requires
        a.is_textual(),
        b is Delete,
        a.well_formed(),
        b.well_formed(),
        a.file() == b.file(),
        b.max_location() <= a.location(),
        a != b,
    ensures
        forward(a, b) matches Some(shifted) && (backward(shifted, b) == a
            <==> b.max_location() + 2 * b->Delete_0.length <= a.location()),
{
}

/// Where the backward rule moves a textual operation right by the length of
/// a deletion to its left, carrying the result forward over the same
/// deletion gives the operation back. The one exception is the deletion
/// itself.
pub proof fn lemma_backward_then_forward(a: Operation, b: Operation)
    requires
        a.is_textual(),
        b is Delete,
        a.well_formed(),
        b.well_formed(),
        a.file() == b.file(),
        b.max_location() <= a.location() - b->Delete_0.length,
        a != b,
    ensures
        backward(a, b) == a.moved(b->Delete_0.length),
        forward(backward(a, b), b) == Some(a),
{
}

/// The document patch is never longer than the remote sequence, and the
/// rewritten local sequence, together with the count of deleted records, is
/// never longer than the local sequence.
pub proof fn lemma_non_expansion(remote: Seq<Operation>, local: Seq<Record>)
    ensures
        document_patch(remote, record_contents(local)).len() <= remote.len(),
        rebase(remote, local).shifted.len() + rebase(remote, local).deleted <= local.len(),
    decreases remote.len() + local.len(),
{
    if remote.len() > 0 {
        lemma_non_expansion(remote.drop_last(), local);
    }
    lemma_rebase_lengths(remote, local);
}

/// The rewritten records and the deleted ones never outnumber the local
/// records.
proof fn lemma_rebase_lengths(remote: Seq<Operation>, local: Seq<Record>)
    ensures
        rebase(remote, local).shifted.len() + rebase(remote, local).deleted <= local.len(),
    decreases local.len(),
{
    if local.len() > 0 {
        lemma_rebase_lengths(remote, local.drop_last());
    }
}

/// The records are numbered 0, 1, 2, ... in their order.
pub open spec fn densely_numbered(records: Seq<Record>) -> bool {
    forall|j: int| 0 <= j < records.len() ==> (#[trigger] records[j]).id == j
}

/// Whether the last record of `local` is still there after `local` has been
/// rewritten to follow `remote`.
pub open spec fn last_survives(remote: Seq<Operation>, local: Seq<Record>) -> bool
    recommends
        local.len() > 0,
{
    forward_all(undone(local), remote) matches Some(v) && forward_all(
        v,
        record_contents(rebase(remote, local.drop_last()).shifted),
    ) is Some
}

/// How many records of `local` pass `remote` and are then dropped by the
/// local records rewritten before them. These leave without being counted as
/// deleted.
pub open spec fn uncounted_drops(remote: Seq<Operation>, local: Seq<Record>) -> nat
    decreases local.len(),
{
    if local.len() == 0 {
        0
    } else if forward_all(undone(local), remote) is Some && !last_survives(remote, local) {
        uncounted_drops(remote, local.drop_last()) + 1
    } else {
        uncounted_drops(remote, local.drop_last())
    }
}

/// No record survives after one that left uncounted.
pub open spec fn gap_free(remote: Seq<Operation>, local: Seq<Record>) -> bool {
    forall|k: int|
        0 <= k < local.len() ==> last_survives(remote, #[trigger] local.take(k + 1))
            ==> uncounted_drops(remote, local.take(k)) == 0
}

/// Of a densely numbered local sequence, every record is rewritten, deleted
/// or dropped uncounted.
proof fn lemma_every_record_accounted(remote: Seq<Operation>, local: Seq<Record>)
    ensures
        rebase(remote, local).shifted.len() + rebase(remote, local).deleted + uncounted_drops(
            remote,
            local,
        ) == local.len(),
    decreases local.len(),
{
    if local.len() > 0 {
        lemma_every_record_accounted(remote, local.drop_last());
    }
}

/// Where the local sequence is densely numbered and no record survives after
/// one that left uncounted, the identifiers of the rewritten sequence run
/// from the length of the remote sequence upwards without a gap, and so
/// rise strictly.
pub proof fn lemma_identifiers_are_dense(remote: Seq<Operation>, local: Seq<Record>)
    requires
        densely_numbered(local),
        gap_free(remote, local),
    ensures
        forall|p: int|
            0 <= p < rebase(remote, local).shifted.len() ==> (#[trigger] rebase(
                remote,
                local,
            ).shifted[p]).id == remote.len() + p,
        forall|p: int, q: int|
            0 <= p < q < rebase(remote, local).shifted.len() ==> (#[trigger] rebase(
                remote,
                local,
            ).shifted[p]).id < (#[trigger] rebase(remote, local).shifted[q]).id,
    decreases local.len(),
{
    if local.len() > 0 {
        let earlier = local.drop_last();
        assert(densely_numbered(earlier));
        assert forall|k: int| 0 <= k < earlier.len() && last_survives(
            remote,
            #[trigger] earlier.take(k + 1),
        ) implies uncounted_drops(remote, earlier.take(k)) == 0 by {
            assert(earlier.take(k + 1) =~= local.take(k + 1));
            assert(earlier.take(k) =~= local.take(k));
        }
        lemma_identifiers_are_dense(remote, earlier);
        lemma_every_record_accounted(remote, earlier);
        assert(local.take(local.len() - 1) =~= earlier);
        assert(local.take(local.len() - 1 + 1) =~= local);
    }
}

/// No operation of `remote` is about a file that an operation of `local` is
/// about.
pub open spec fn on_separate_files(remote: Seq<Operation>, local: Seq<Operation>) -> bool {
    forall|i: int, j: int|
        0 <= i < remote.len() && 0 <= j < local.len() ==> (#[trigger] remote[i]).file() != (
        #[trigger] local[j]).file()
}

/// The same records, each identifier raised by `offset`.
pub open spec fn renumbered(records: Seq<Record>, offset: int) -> Seq<Record> {
    records.map_values(|r: Record| Record { id: r.id + offset, content: r.content })
}

/// An operation passes unchanged over a sequence of operations on other
/// files.
pub proof fn lemma_forward_all_ignores_other_files(a: Operation, bs: Seq<Operation>)
    requires
        forall|i: int| 0 <= i < bs.len() ==> (#[trigger] bs[i]).file() != a.file(),
    ensures
        forward_all(a, bs) == Some(a),
    decreases bs.len(),
{
    if bs.len() > 0 {
        lemma_forward_all_ignores_other_files(a, bs.drop_last());
        assert(bs.last() == bs[bs.len() - 1]);
    }
}

/// The backward rules leave an operation on its file.
pub proof fn lemma_backward_all_keeps_file(a: Operation, bs: Seq<Operation>)
    ensures
        backward_all(a, bs).file() == a.file(),
        backward_all(a, bs) is Insert <==> a is Insert,
    decreases bs.len(),
{
    if bs.len() > 0 {
        lemma_backward_all_keeps_file(a, bs.drop_first());
    }
}

/// A remote sequence on other files than the local one comes through as the
/// document patch unchanged, and the local sequence is rewritten as it would
/// be with no remote sequence at all, apart from the identifiers, which are
/// raised by the length of the remote sequence.
pub proof fn lemma_separate_files_do_not_interact(remote: Seq<Operation>, local: Seq<Record>)
    requires
        on_separate_files(remote, record_contents(local)),
    ensures
        document_patch(remote, record_contents(local)) == remote,
        rebase(remote, local).deleted == 0,
        rebase(remote, local).shifted == renumbered(
            rebase(Seq::empty(), local).shifted,
            remote.len() as int,
        ),
{
    lemma_patch_of_separate_files(remote, record_contents(local));
    lemma_rebase_of_separate_files(remote, local);
}

proof fn lemma_patch_of_separate_files(remote: Seq<Operation>, local: Seq<Operation>)
    requires
        on_separate_files(remote, local),
    ensures
        document_patch(remote, local) == remote,
    decreases remote.len(),
{
    if remote.len() > 0 {
        let earlier = remote.drop_last();
        assert forall|i: int, j: int| 0 <= i < earlier.len() && 0 <= j < local.len() implies (
        #[trigger] earlier[i]).file() != (#[trigger] local[j]).file() by {
            assert(earlier[i] == remote[i]);
        }
        lemma_patch_of_separate_files(earlier, local);
        assert(remote.last() == remote[remote.len() - 1]);
        lemma_forward_all_ignores_other_files(remote.last(), local);
        assert(earlier.push(remote.last()) =~= remote);
    } else {
        assert(remote =~= Seq::<Operation>::empty());
    }
}

proof fn lemma_rebase_of_separate_files(remote: Seq<Operation>, local: Seq<Record>)
    requires
        on_separate_files(remote, record_contents(local)),
    ensures
        rebase(remote, local).deleted == 0,
        rebase(Seq::empty(), local).deleted == 0,
        rebase(remote, local).shifted == renumbered(
            rebase(Seq::empty(), local).shifted,
            remote.len() as int,
        ),
    decreases local.len(),
{
    let nothing = Seq::<Operation>::empty();
    if local.len() > 0 {
        let earlier = local.drop_last();
        assert forall|i: int, j: int| 0 <= i < remote.len() && 0 <= j < earlier.len() implies (
        #[trigger] remote[i]).file() != (#[trigger] record_contents(earlier)[j]).file() by {
            assert(record_contents(earlier)[j] == record_contents(local)[j]);
        }
        lemma_rebase_of_separate_files(remote, earlier);
        let u = undone(local);
        lemma_backward_all_keeps_file(local.last().content, record_contents(earlier));
        assert(local.last().content == record_contents(local)[local.len() - 1]);
        lemma_forward_all_ignores_other_files(u, remote);
        assert(record_contents(rebase(remote, earlier).shifted) =~= record_contents(
            rebase(nothing, earlier).shifted,
        ));
        assert(rebase(remote, local).shifted =~= renumbered(
            rebase(nothing, local).shifted,
            remote.len() as int,
        ));
    } else {
        assert(rebase(remote, local).shifted =~= renumbered(
            rebase(nothing, local).shifted,
            remote.len() as int,
        ));
    }
}

/// An operation passes backward unchanged over a sequence of operations on
/// other files.
pub proof fn lemma_backward_all_ignores_other_files(a: Operation, bs: Seq<Operation>)
    requires
        forall|i: int| 0 <= i < bs.len() ==> (#[trigger] bs[i]).file() != a.file(),
    ensures
        backward_all(a, bs) == a,
    decreases bs.len(),
{
    if bs.len() > 0 {
        let rest = bs.drop_first();
        assert forall|i: int| 0 <= i < rest.len() implies (#[trigger] rest[i]).file()
            != a.file() by {
            assert(rest[i] == bs[i + 1]);
        }
        lemma_backward_all_ignores_other_files(a, rest);
        assert(bs.first() == bs[0]);
    }
}

/// A local sequence whose records are each about a file of their own is
/// rewritten to itself where there is no remote sequence.
proof fn lemma_distinct_files_alone(local: Seq<Record>)
    requires
        forall|i: int, j: int|
            0 <= i < j < local.len() ==> (#[trigger] record_contents(local)[i]).file() != (
            #[trigger] record_contents(local)[j]).file(),
    ensures
        rebase(Seq::empty(), local).shifted == local,
        rebase(Seq::empty(), local).deleted == 0,
    decreases local.len(),
{
    let nothing = Seq::<Operation>::empty();
    if local.len() > 0 {
        let all = record_contents(local);
        let earlier = local.drop_last();
        let before = record_contents(earlier);
        let last = local.last();
        assert forall|i: int, j: int| 0 <= i < j < earlier.len() implies (#[trigger] before[i]).file()
            != (#[trigger] before[j]).file() by {
            assert(before[i] == all[i]);
            assert(before[j] == all[j]);
        }
        lemma_distinct_files_alone(earlier);
        assert(last.content == all[local.len() - 1]);
        assert forall|i: int| 0 <= i < before.len() implies (#[trigger] before[i]).file()
            != last.content.file() by {
            assert(before[i] == all[i]);
        }
        lemma_backward_all_ignores_other_files(last.content, before);
        lemma_forward_all_ignores_other_files(last.content, before);
        assert(rebase(nothing, local).shifted =~= local);
    } else {
        assert(rebase(nothing, local).shifted =~= local);
    }
}

/// Where every operation, remote or local, is about a file of its own,
/// reconciling gives the remote sequence back as the document patch and the
/// local sequence with its identifiers raised by the length of the remote
/// sequence.
pub proof fn lemma_distinct_files_commute(remote: Seq<Operation>, local: Seq<Record>)
    requires
        forall|i: int, j: int|
            0 <= i < j < (remote + record_contents(local)).len() ==> (#[trigger] (remote
                + record_contents(local))[i]).file() != (#[trigger] (remote + record_contents(
                local,
            ))[j]).file(),
    ensures
        document_patch(remote, record_contents(local)) == remote,
        rebase(remote, local).shifted == renumbered(local, remote.len() as int),
{
    let mine = record_contents(local);
    let all = remote + mine;
    assert forall|i: int, j: int| 0 <= i < remote.len() && 0 <= j < mine.len() implies (
    #[trigger] remote[i]).file() != (#[trigger] mine[j]).file() by {
        assert(all[i] == remote[i]);
        assert(all[remote.len() + j] == mine[j]);
    }
    assert forall|i: int, j: int| 0 <= i < j < local.len() implies (#[trigger] mine[i]).file() != (
    #[trigger] mine[j]).file() by {
        assert(all[remote.len() + i] == mine[i]);
        assert(all[remote.len() + j] == mine[j]);
    }
    lemma_separate_files_do_not_interact(remote, local);
    lemma_distinct_files_alone(local);
}

} // verus!
