use crate::laws::lemma_non_expansion;
use crate::model::{
    backward, backward_all, backward_all_representable, byte_length, fits_i64, forward,
    forward_all, forward_all_representable, last_step_representable, rebase, reconcilable,
    record_contents, undone, Operation, Record,
};
use vstd::prelude::*;

verus! {

/// How far an operation can push another one: the bytes that it inserts, or
/// the size of the length that it deletes.
pub open spec fn reach(op: Operation) -> nat {
    match op {
        Operation::Insert(a) => byte_length(a.text),
        Operation::Delete(a) => if a.length >= 0 {
            a.length as nat
        } else {
            (-a.length) as nat
        },
        _ => 0,
    }
}

/// The reaches of `ops`, added up.
pub open spec fn total_reach(ops: Seq<Operation>) -> nat
    decreases ops.len(),
{
    if ops.len() == 0 {
        0
    } else {
        total_reach(ops.drop_last()) + reach(ops.last())
    }
}

/// A textual operation lies at most `bound` away from position 0, and a
/// deletion has a length that an `i64` can hold.
pub open spec fn within(op: Operation, bound: int) -> bool {
    match op {
        Operation::Insert(a) => -bound <= a.location <= bound,
        Operation::Delete(a) => -bound <= a.location <= bound && fits_i64(a.length),
        _ => true,
    }
}

/// The larger of two integers.
pub open spec fn larger(x: int, y: int) -> int {
    if x >= y {
        x
    } else {
        y
    }
}

proof fn lemma_forward_step(a: Operation, b: Operation, ca: int, cb: int)
    requires
        within(a, ca),
        within(b, cb),
    ensures
        forward(a, b) matches Some(c) ==> within(c, larger(ca + reach(b), cb)) && reach(c)
            == reach(a),
{
}

proof fn lemma_backward_step(a: Operation, b: Operation, ca: int, cb: int)
    requires
        within(a, ca),
        within(b, cb),
    ensures
        within(backward(a, b), larger(ca + reach(b), cb)),
        reach(backward(a, b)) == reach(a),
{
}

proof fn lemma_total_reach_of_prefix(ops: Seq<Operation>, k: int)
    requires
        0 <= k <= ops.len(),
    ensures
        total_reach(ops.take(k)) <= total_reach(ops),
        k < ops.len() ==> total_reach(ops.take(k + 1)) == total_reach(ops.take(k)) + reach(ops[k]),
    decreases ops.len() - k,
{
    if k == ops.len() {
        assert(ops.take(k) =~= ops);
    } else {
        assert(ops.take(k + 1).drop_last() =~= ops.take(k));
        lemma_total_reach_of_prefix(ops, k + 1);
    }
}

/// On its way forward over `bs`, an operation that starts within `c` stays
/// within `c` plus the reach of what it has passed, provided each of `bs`
/// lies within `c` plus the reach of those before it.
proof fn lemma_forward_all_within(a: Operation, bs: Seq<Operation>, c: int, k: int)
    requires
        within(a, c),
        0 <= k <= bs.len(),
        forall|i: int| 0 <= i < bs.len() ==> within(#[trigger] bs[i], c + total_reach(bs.take(i))),
    ensures
        forward_all(a, bs.take(k)) matches Some(x) ==> within(x, c + total_reach(bs.take(k)))
            && reach(x) == reach(a),
    decreases k,
{
    if k > 0 {
        lemma_forward_all_within(a, bs, c, k - 1);
        lemma_total_reach_of_prefix(bs, k - 1);
        assert(bs.take(k).drop_last() =~= bs.take(k - 1));
        assert(bs.take(k).last() == bs[k - 1]);
        match forward_all(a, bs.take(k - 1)) {
            Some(p) => {
                let before = c + total_reach(bs.take(k - 1));
                lemma_forward_step(p, bs[k - 1], before, before);
            },
            None => {},
        }
    } else {
        assert(bs.take(0) =~= Seq::<Operation>::empty());
    }
}

/// On its way backward over `bs`, an operation that starts within `c` stays
/// within `c` plus the reach of what it has passed, provided each of `bs`
/// lies within `c`.
proof fn lemma_backward_all_within(a: Operation, bs: Seq<Operation>, c: int, k: int)
    requires
        within(a, c),
        0 <= k <= bs.len(),
        forall|i: int| 0 <= i < bs.len() ==> within(#[trigger] bs[i], c),
    ensures
        within(backward_all(a, bs.skip(k)), c + total_reach(bs) - total_reach(bs.take(k))),
        reach(backward_all(a, bs.skip(k))) == reach(a),
    decreases bs.len() - k,
{
    lemma_total_reach_of_prefix(bs, k);
    if k < bs.len() {
        lemma_backward_all_within(a, bs, c, k + 1);
        assert(bs.skip(k).drop_first() =~= bs.skip(k + 1));
        assert(bs.skip(k).first() == bs[k]);
        let after = c + total_reach(bs) - total_reach(bs.take(k + 1));
        lemma_total_reach_of_prefix(bs, k + 1);
        lemma_backward_step(backward_all(a, bs.skip(k + 1)), bs[k], after, c);
    } else {
        assert(bs.skip(k) =~= Seq::<Operation>::empty());
        assert(bs.take(k) =~= bs);
    }
}

/// Every operation of `ops` lies within `bound`.
pub open spec fn all_within(ops: Seq<Operation>, bound: int) -> bool {
    forall|i: int| 0 <= i < ops.len() ==> within(#[trigger] ops[i], bound)
}

/// Each rewritten record lies within `cap` plus the reach of the rewritten
/// records before it.
spec fn stacked_within(shifted: Seq<Operation>, cap: int) -> bool {
    forall|i: int|
        0 <= i < shifted.len() ==> within(#[trigger] shifted[i], cap + total_reach(shifted.take(i)))
}

/// What the bounds give for the last record of `local`: the values that it
/// takes on its three ways stay within `cap` plus the reach of the records
/// rewritten before it.
proof fn lemma_last_step_within(
    remote: Seq<Operation>,
    local: Seq<Record>,
    bound: int,
    cap: int,
)
    requires
        local.len() > 0,
        all_within(remote, bound),
        all_within(record_contents(local), bound),
        bound + total_reach(remote) + total_reach(record_contents(local)) <= cap,
        cap + total_reach(record_contents(local)) <= i64::MAX,
        stacked_within(record_contents(rebase(remote, local.drop_last()).shifted), cap),
        total_reach(record_contents(rebase(remote, local.drop_last()).shifted)) <= total_reach(
            record_contents(local.drop_last()),
        ),
    ensures
        backward_all_representable(local.last().content, record_contents(local.drop_last())),
        forward_all_representable(undone(local), remote),
        forward_all(undone(local), remote) matches Some(v) ==> {
            &&& forward_all_representable(
                v,
                record_contents(rebase(remote, local.drop_last()).shifted),
            )
            &&& forward_all(v, record_contents(rebase(remote, local.drop_last()).shifted))
                matches Some(w) ==> {
                &&& within(
                    w,
                    cap + total_reach(record_contents(rebase(remote, local.drop_last()).shifted)),
                )
                &&& reach(w) == reach(local.last().content)
            }
        },
{
    let all = record_contents(local);
    let earlier = record_contents(local.drop_last());
    let last = local.last().content;
    let kept = record_contents(rebase(remote, local.drop_last()).shifted);
    assert(all.drop_last() =~= earlier);
    assert(all.last() == last);
    assert(last == all[all.len() - 1]);
    assert forall|i: int| 0 <= i < earlier.len() implies within(#[trigger] earlier[i], bound) by {
        assert(earlier[i] == all[i]);
    }
    assert forall|k: int| 0 <= k <= earlier.len() implies (#[trigger] backward_all(
        last,
        earlier.skip(k),
    )).representable() by {
        lemma_backward_all_within(last, earlier, bound, k);
        lemma_total_reach_of_prefix(earlier, k);
    }
    lemma_backward_all_within(last, earlier, bound, 0);
    assert(earlier.skip(0) =~= earlier);
    assert(earlier.take(0) =~= Seq::<Operation>::empty());
    let u = undone(local);
    let start = bound + total_reach(earlier);
    assert(within(u, start));
    assert forall|i: int| 0 <= i < remote.len() implies within(
        #[trigger] remote[i],
        start + total_reach(remote.take(i)),
    ) by {}
    assert forall|k: int| 0 <= k <= remote.len() implies match #[trigger] forward_all(
        u,
        remote.take(k),
    ) {
        Some(c) => c.representable(),
        None => true,
    } by {
        lemma_forward_all_within(u, remote, start, k);
        lemma_total_reach_of_prefix(remote, k);
    }
    lemma_forward_all_within(u, remote, start, remote.len() as int);
    assert(remote.take(remote.len() as int) =~= remote);
    match forward_all(u, remote) {
        Some(v) => {
            assert(within(v, cap));
            assert forall|k: int| 0 <= k <= kept.len() implies match #[trigger] forward_all(
                v,
                kept.take(k),
            ) {
                Some(c) => c.representable(),
                None => true,
            } by {
                lemma_forward_all_within(v, kept, cap, k);
                lemma_total_reach_of_prefix(kept, k);
            }
            lemma_forward_all_within(v, kept, cap, kept.len() as int);
            assert(kept.take(kept.len() as int) =~= kept);
        },
        None => {},
    }
}

/// The rewritten records stay stacked within `cap`, and reach no further in
/// all than the local records that they come from.
proof fn lemma_rebase_within(remote: Seq<Operation>, local: Seq<Record>, bound: int, cap: int)
    requires
        all_within(remote, bound),
        all_within(record_contents(local), bound),
        bound + total_reach(remote) + total_reach(record_contents(local)) <= cap,
        cap + total_reach(record_contents(local)) <= i64::MAX,
    ensures
        stacked_within(record_contents(rebase(remote, local).shifted), cap),
        total_reach(record_contents(rebase(remote, local).shifted)) <= total_reach(
            record_contents(local),
        ),
    decreases local.len(),
{
    let now = record_contents(rebase(remote, local).shifted);
    if local.len() > 0 {
        let all = record_contents(local);
        let earlier = record_contents(local.drop_last());
        let kept = record_contents(rebase(remote, local.drop_last()).shifted);
        assert(all.drop_last() =~= earlier);
        assert forall|i: int| 0 <= i < earlier.len() implies within(#[trigger] earlier[i], bound) by {
            assert(earlier[i] == all[i]);
        }
        lemma_rebase_within(remote, local.drop_last(), bound, cap);
        lemma_last_step_within(remote, local, bound, cap);
        match forward_all(undone(local), remote) {
            Some(v) => match forward_all(v, kept) {
                Some(w) => {
                    assert(now =~= kept.push(w));
                    assert(now.drop_last() =~= kept);
                    assert forall|i: int| 0 <= i < now.len() implies within(
                        #[trigger] now[i],
                        cap + total_reach(now.take(i)),
                    ) by {
                        if i < kept.len() {
                            assert(now.take(i) =~= kept.take(i));
                            assert(now[i] == kept[i]);
                        } else {
                            assert(now.take(i) =~= kept);
                        }
                    }
                },
                None => {
                    assert(now == kept);
                },
            },
            None => {
                assert(now == kept);
            },
        }
    } else {
        assert(now =~= Seq::<Operation>::empty());
    }
}

/// A sufficient condition for reconciling that speaks of the inputs alone.
/// If every operation lies within `bound` of position 0, if `bound` plus the
/// reach of the remote operations plus twice the reach of the local ones is
/// a value of `i64`, and if each local identifier plus the length of the
/// remote sequence is at least the record's index and a value of `u32`, then
/// no position or identifier met on the way leaves its machine type.
pub proof fn lemma_bounded_is_reconcilable(remote: Seq<Operation>, local: Seq<Record>, bound: int)
    requires
        all_within(remote, bound),
        all_within(record_contents(local), bound),
        bound + total_reach(remote) + 2 * total_reach(record_contents(local)) <= i64::MAX,
        forall|j: int|
            0 <= j < local.len() ==> j <= (#[trigger] local[j]).id + remote.len() <= u32::MAX,
    ensures
        reconcilable(remote, local),
{
    let all = record_contents(local);
    let cap = bound + total_reach(remote) + total_reach(all);
    assert forall|i: int| 0 <= i < remote.len() implies forward_all_representable(
        #[trigger] remote[i],
        all,
    ) by {
        assert forall|k: int| 0 <= k <= all.len() implies match #[trigger] forward_all(
            remote[i],
            all.take(k),
        ) {
            Some(c) => c.representable(),
            None => true,
        } by {
            lemma_forward_all_within(remote[i], all, bound, k);
            lemma_total_reach_of_prefix(all, k);
        }
    }
    assert forall|k: int| 0 < k <= local.len() implies last_step_representable(
        remote,
        #[trigger] local.take(k),
    ) by {
        let upto = local.take(k);
        let part = record_contents(upto);
        assert(part =~= all.take(k));
        lemma_total_reach_of_prefix(all, k);
        assert(upto.drop_last() =~= local.take(k - 1));
        assert(record_contents(upto.drop_last()) =~= all.take(k - 1));
        lemma_total_reach_of_prefix(all, k - 1);
        assert forall|i: int| 0 <= i < part.len() implies within(#[trigger] part[i], bound) by {
            assert(part[i] == all[i]);
        }
        assert forall|i: int| 0 <= i < k - 1 implies within(
            #[trigger] record_contents(upto.drop_last())[i],
            bound,
        ) by {
            assert(record_contents(upto.drop_last())[i] == all[i]);
        }
        lemma_rebase_within(remote, upto.drop_last(), bound, cap);
        lemma_last_step_within(remote, upto, bound, cap);
        lemma_non_expansion(remote, upto.drop_last());
        assert(upto.last() == local[k - 1]);
    }
}

} // verus!
