//! The invariants of backpatching: what the true and false chains of a
//! boolean expression hold, and that translated statements leave no jump
//! waiting for a target.
use vstd::prelude::*;
use crate::codegen::{
    BoolAttrView, JumpTarget, QuadView, all_jumps, in_chain, is_jump, is_pending_jump, jump_target,
    patch_quad, patched,
};

verus! {

/// Every jump that has a target points at most one past the last quadruple.
pub open spec fn targets_bounded(qs: Seq<QuadView>) -> bool {
    forall|k: int|
        #![trigger qs[k]]
        0 <= k < qs.len() && is_jump(qs[k]) ==> match jump_target(qs[k]) {
            JumpTarget::Target(t) => t <= qs.len(),
            JumpTarget::Pending => true,
        }
}

/// `new` extends `old`: the quadruples of `old` are unchanged.
pub open spec fn keeps_prefix(old: Seq<QuadView>, new: Seq<QuadView>) -> bool {
    &&& old.len() <= new.len()
    &&& forall|k: int| 0 <= k < old.len() ==> #[trigger] new[k] == old[k]
}

/// No quadruple from index `lo` on is a jump.
pub open spec fn no_jumps_from(qs: Seq<QuadView>, lo: int) -> bool {
    forall|k: int| lo <= k < qs.len() ==> !is_jump(#[trigger] qs[k])
}

/// No quadruple from index `lo` on is a jump waiting for a target.
pub open spec fn no_pending_from(qs: Seq<QuadView>, lo: int) -> bool {
    forall|k: int| lo <= k < qs.len() ==> !is_pending_jump(#[trigger] qs[k])
}

/// No index occurs twice in the chain.
pub open spec fn distinct(c: Seq<usize>) -> bool {
    forall|a: int, b: int| 0 <= a < b < c.len() ==> #[trigger] c[a] != #[trigger] c[b]
}

/// Every entry of the chain names a pending jump at index `lo` or later.
pub open spec fn chain_ok(qs: Seq<QuadView>, lo: int, c: Seq<usize>) -> bool {
    forall|k: int|
        #![trigger c[k]]
        0 <= k < c.len() ==> lo <= c[k] < qs.len() && is_pending_jump(qs[c[k] as int])
}

/// The true and false chains hold exactly the pending jumps from index `lo`
/// on, each once, and no jump is in both.
pub open spec fn chains_exact(qs: Seq<QuadView>, lo: int, a: BoolAttrView) -> bool {
    &&& chain_ok(qs, lo, a.tc)
    &&& chain_ok(qs, lo, a.fc)
    &&& distinct(a.tc)
    &&& distinct(a.fc)
    &&& forall|x: int, y: int|
        0 <= x < a.tc.len() && 0 <= y < a.fc.len() ==> #[trigger] a.tc[x] != #[trigger] a.fc[y]
    &&& forall|k: int|
        lo <= k < qs.len() && is_pending_jump(#[trigger] qs[k]) ==> in_chain(a.tc, k) || in_chain(
            a.fc,
            k,
        )
}

/// After a backpatch, a quadruple waits for a target exactly when it did
/// before and is not in the chain; the others are unchanged.
pub proof fn lemma_patched_pending(qs: Seq<QuadView>, list: Seq<usize>, t: usize)
    ensures
        patched(qs, list, t).len() == qs.len(),
        forall|k: int|
            0 <= k < qs.len() ==> (is_pending_jump(#[trigger] patched(qs, list, t)[k]) <==> (
            is_pending_jump(qs[k]) && !in_chain(list, k))),
        forall|k: int|
            0 <= k < qs.len() && !in_chain(list, k) ==> #[trigger] patched(qs, list, t)[k] == qs[k],
        forall|k: int|
            0 <= k < qs.len() ==> is_jump(#[trigger] patched(qs, list, t)[k]) == is_jump(qs[k]),
        targets_bounded(qs) && t <= qs.len() ==> targets_bounded(patched(qs, list, t)),
{
    let p = patched(qs, list, t);
    assert forall|k: int| 0 <= k < qs.len() implies is_jump(#[trigger] p[k]) == is_jump(
        qs[k],
    ) by {
        let q = qs[k];
        assert(is_jump(patch_quad(q, t)) == is_jump(q));
    }
    if targets_bounded(qs) && t <= qs.len() {
        assert forall|k: int| 0 <= k < p.len() && is_jump(p[k]) implies match jump_target(p[k]) {
            JumpTarget::Target(x) => x <= p.len(),
            JumpTarget::Pending => true,
        } by {
            assert(is_jump(qs[k]));
        }
    }
}

/// A chain of entries below `mid` followed by a chain of entries from `mid`
/// on has no duplicates if neither has.
pub proof fn lemma_distinct_concat(a: Seq<usize>, b: Seq<usize>, mid: int)
    requires
        distinct(a),
        distinct(b),
        forall|k: int| 0 <= k < a.len() ==> #[trigger] a[k] < mid,
        forall|k: int| 0 <= k < b.len() ==> mid <= #[trigger] b[k],
    ensures
        distinct(a + b),
        forall|k: int| 0 <= k < (a + b).len() ==> in_chain(a, (a + b)[k] as int) || in_chain(
            b,
            (a + b)[k] as int,
        ),
{
    let c = a + b;
    assert forall|x: int, y: int| 0 <= x < y < c.len() implies #[trigger] c[x] != #[trigger] c[y] by {
        if y < a.len() {
            assert(c[x] == a[x] && c[y] == a[y]);
        } else if x >= a.len() {
            assert(c[x] == b[x - a.len()] && c[y] == b[y - a.len()]);
        } else {
            assert(c[x] == a[x] && c[y] == b[y - a.len()]);
        }
    }
    assert forall|k: int| 0 <= k < c.len() implies in_chain(a, c[k] as int) || in_chain(
        b,
        c[k] as int,
    ) by {
        if k < a.len() {
            assert(c[k] == a[k]);
        } else {
            assert(c[k] == b[k - a.len()]);
        }
    }
}

/// Membership in a concatenated chain.
pub proof fn lemma_in_chain_concat(a: Seq<usize>, b: Seq<usize>, i: int)
    ensures
        in_chain(a + b, i) <==> (in_chain(a, i) || in_chain(b, i)),
{
    let c = a + b;
    if in_chain(c, i) {
        let k = choose|k: int| 0 <= k < c.len() && c[k] as int == i;
        if k < a.len() {
            assert(c[k] == a[k]);
        } else {
            assert(c[k] == b[k - a.len()]);
        }
    }
    if in_chain(a, i) {
        let k = choose|k: int| 0 <= k < a.len() && a[k] as int == i;
        assert(c[k] == a[k]);
    }
    if in_chain(b, i) {
        let k = choose|k: int| 0 <= k < b.len() && b[k] as int == i;
        assert(c[k + a.len()] == b[k]);
    }
}

/// The chains with true and false exchanged.
pub open spec fn swapped(a: BoolAttrView) -> BoolAttrView {
    BoolAttrView { tc: a.fc, fc: a.tc }
}

/// Exchanging the chains keeps them exact.
pub proof fn lemma_swap(qs: Seq<QuadView>, lo: int, a: BoolAttrView)
    ensures
        chains_exact(qs, lo, swapped(a)) == chains_exact(qs, lo, a),
{
    let s = swapped(a);
    if chains_exact(qs, lo, a) {
        assert forall|x: int, y: int| 0 <= x < s.tc.len() && 0 <= y < s.fc.len() implies #[trigger] s.tc[x]
            != #[trigger] s.fc[y] by {
            assert(a.tc[y] != a.fc[x]);
        }
    }
    if chains_exact(qs, lo, s) {
        assert forall|x: int, y: int| 0 <= x < a.tc.len() && 0 <= y < a.fc.len() implies #[trigger] a.tc[x]
            != #[trigger] a.fc[y] by {
            assert(s.tc[y] != s.fc[x]);
        }
    }
}

/// `B1 and B2`: with B1's chains exact from `lo` in `q0`, B1's true chain
/// patched to the start of B2 (`q1`), and B2's chains exact from there in
/// `q2`, the combined chains (B2's true chain, both false chains) are exact
/// from `lo` in `q2`.
pub proof fn lemma_and_step(
    q0: Seq<QuadView>,
    lo: int,
    left: BoolAttrView,
    q1: Seq<QuadView>,
    q2: Seq<QuadView>,
    right: BoolAttrView,
)
    requires
        0 <= lo <= q0.len(),
        chains_exact(q0, lo, left),
        q1 == patched(q0, left.tc, q0.len() as usize),
        keeps_prefix(q1, q2),
        chains_exact(q2, q0.len() as int, right),
    ensures
        chains_exact(q2, lo, BoolAttrView { tc: right.tc, fc: left.fc + right.fc }),
{
    let mid = q0.len() as int;
    let res = BoolAttrView { tc: right.tc, fc: left.fc + right.fc };
    lemma_patched_pending(q0, left.tc, q0.len() as usize);
    // left's false chain survives the patch of its true chain
    assert forall|k: int| 0 <= k < left.fc.len() implies lo <= #[trigger] left.fc[k] < q2.len()
        && is_pending_jump(q2[left.fc[k] as int]) by {
        let e = left.fc[k] as int;
        assert(lo <= e < mid && is_pending_jump(q0[e]));
        if in_chain(left.tc, e) {
            let x = choose|x: int| 0 <= x < left.tc.len() && left.tc[x] as int == e;
            assert(left.tc[x] != left.fc[k]);
        }
        assert(q1[e] == q0[e]);
        assert(q2[e] == q1[e]);
    }
    assert forall|k: int| 0 <= k < right.tc.len() implies lo <= #[trigger] right.tc[k] < q2.len()
        && is_pending_jump(q2[right.tc[k] as int]) by {
    }
    assert forall|k: int| 0 <= k < right.fc.len() implies mid <= #[trigger] right.fc[k] by {
    }
    lemma_distinct_concat(left.fc, right.fc, mid);
    assert forall|k: int| 0 <= k < res.fc.len() implies lo <= #[trigger] res.fc[k] < q2.len()
        && is_pending_jump(q2[res.fc[k] as int]) by {
        if k < left.fc.len() {
            assert(res.fc[k] == left.fc[k]);
        } else {
            assert(res.fc[k] == right.fc[k - left.fc.len()]);
        }
    }
    assert forall|x: int, y: int| 0 <= x < res.tc.len() && 0 <= y < res.fc.len() implies #[trigger] res.tc[x]
        != #[trigger] res.fc[y] by {
        if y < left.fc.len() {
            assert(res.fc[y] == left.fc[y]);
            assert(mid <= right.tc[x]);
        } else {
            assert(res.fc[y] == right.fc[y - left.fc.len()]);
        }
    }
    assert forall|k: int| lo <= k < q2.len() && is_pending_jump(#[trigger] q2[k]) implies in_chain(
        res.tc,
        k,
    ) || in_chain(res.fc, k) by {
        lemma_in_chain_concat(left.fc, right.fc, k);
        if k < mid {
            assert(q2[k] == q1[k]);
            assert(is_pending_jump(q0[k]) && !in_chain(left.tc, k));
        }
    }
}

/// `B1 or B2`: as `lemma_and_step` with the roles of the chains exchanged.
pub proof fn lemma_or_step(
    q0: Seq<QuadView>,
    lo: int,
    left: BoolAttrView,
    q1: Seq<QuadView>,
    q2: Seq<QuadView>,
    right: BoolAttrView,
)
    requires
        0 <= lo <= q0.len(),
        chains_exact(q0, lo, left),
        q1 == patched(q0, left.fc, q0.len() as usize),
        keeps_prefix(q1, q2),
        chains_exact(q2, q0.len() as int, right),
    ensures
        chains_exact(q2, lo, BoolAttrView { tc: left.tc + right.tc, fc: right.fc }),
{
    lemma_swap(q0, lo, left);
    lemma_swap(q2, q0.len() as int, right);
    lemma_and_step(q0, lo, swapped(left), q1, q2, swapped(right));
    lemma_swap(q2, lo, BoolAttrView { tc: left.tc + right.tc, fc: right.fc });
}

/// A relation: after quadruples with no jump from `lo` on, a conditional
/// jump and an unconditional jump, both pending, make the two chains.
pub proof fn lemma_relation_chains(q: Seq<QuadView>, lo: int, cond: QuadView, other: QuadView)
    requires
        0 <= lo <= q.len(),
        q.len() + 1 <= usize::MAX,
        no_jumps_from(q, lo),
        is_pending_jump(cond),
        is_pending_jump(other),
    ensures
        chains_exact(
            q.push(cond).push(other),
            lo,
            BoolAttrView { tc: seq![q.len() as usize], fc: seq![(q.len() + 1) as usize] },
        ),
{
    let r = q.push(cond).push(other);
    let a = BoolAttrView { tc: seq![q.len() as usize], fc: seq![(q.len() + 1) as usize] };
    assert(r[q.len() as int] == cond);
    assert(r[q.len() as int + 1] == other);
    assert forall|k: int| lo <= k < r.len() && is_pending_jump(#[trigger] r[k]) implies in_chain(
        a.tc,
        k,
    ) || in_chain(a.fc, k) by {
        if k < q.len() {
            assert(r[k] == q[k]);
        } else if k == q.len() {
            assert(a.tc[0] as int == k);
        } else {
            assert(a.fc[0] as int == k);
        }
    }
}

/// A boolean literal: one pending jump makes one chain, the other is empty.
pub proof fn lemma_literal_chains(q: Seq<QuadView>, j: QuadView, into_true: bool)
    requires
        is_pending_jump(j),
        q.len() <= usize::MAX,
    ensures
        chains_exact(
            q.push(j),
            q.len() as int,
            if into_true {
                BoolAttrView { tc: seq![q.len() as usize], fc: Seq::empty() }
            } else {
                BoolAttrView { tc: Seq::empty(), fc: seq![q.len() as usize] }
            },
        ),
{
    let r = q.push(j);
    assert(r[q.len() as int] == j);
    let a = if into_true {
        BoolAttrView { tc: seq![q.len() as usize], fc: Seq::empty() }
    } else {
        BoolAttrView { tc: Seq::empty(), fc: seq![q.len() as usize] }
    };
    assert forall|k: int| q.len() <= k < r.len() && is_pending_jump(#[trigger] r[k]) implies in_chain(
        a.tc,
        k,
    ) || in_chain(a.fc, k) by {
        if into_true {
            assert(a.tc[0] as int == k);
        } else {
            assert(a.fc[0] as int == k);
        }
    }
}

/// Extending is transitive.
pub proof fn lemma_prefix_trans(a: Seq<QuadView>, b: Seq<QuadView>, c: Seq<QuadView>)
    requires
        keeps_prefix(a, b),
        keeps_prefix(b, c),
    ensures
        keeps_prefix(a, c),
{
    assert forall|k: int| 0 <= k < a.len() implies #[trigger] c[k] == a[k] by {
        assert(c[k] == b[k]);
    }
}

/// Patching a chain whose entries lie at or after the end of `old` keeps `old`.
pub proof fn lemma_patch_keeps_prefix(
    old: Seq<QuadView>,
    q: Seq<QuadView>,
    c: Seq<usize>,
    t: usize,
)
    requires
        keeps_prefix(old, q),
        chain_ok(q, old.len() as int, c),
    ensures
        keeps_prefix(old, patched(q, c, t)),
        all_jumps(q, c),
{
    lemma_patched_pending(q, c, t);
    assert forall|k: int| 0 <= k < old.len() implies #[trigger] patched(q, c, t)[k] == old[k] by {
        if in_chain(c, k) {
            let x = choose|x: int| 0 <= x < c.len() && c[x] as int == k;
            assert(old.len() <= c[x]);
        }
    }
    assert forall|k: int| #![trigger c[k]] 0 <= k < c.len() implies c[k] < q.len() && is_jump(
        q[c[k] as int],
    ) by {
    }
}

/// No jump from `lo` on, over two steps.
pub proof fn lemma_no_jumps_trans(q1: Seq<QuadView>, q2: Seq<QuadView>, lo: int)
    requires
        0 <= lo <= q1.len(),
        no_jumps_from(q1, lo),
        keeps_prefix(q1, q2),
        no_jumps_from(q2, q1.len() as int),
    ensures
        no_jumps_from(q2, lo),
{
    assert forall|k: int| lo <= k < q2.len() implies !is_jump(#[trigger] q2[k]) by {
        if k < q1.len() {
            assert(q2[k] == q1[k]);
        }
    }
}

/// No pending jump from `lo` on, over two steps.
pub proof fn lemma_no_pending_trans(q1: Seq<QuadView>, q2: Seq<QuadView>, lo: int)
    requires
        0 <= lo <= q1.len(),
        no_pending_from(q1, lo),
        keeps_prefix(q1, q2),
        no_pending_from(q2, q1.len() as int),
    ensures
        no_pending_from(q2, lo),
{
    assert forall|k: int| lo <= k < q2.len() implies !is_pending_jump(#[trigger] q2[k]) by {
        if k < q1.len() {
            assert(q2[k] == q1[k]);
        }
    }
}

/// Every entry is smaller than the next.
pub open spec fn increasing(c: Seq<usize>) -> bool {
    forall|a: int, b: int| 0 <= a < b < c.len() ==> #[trigger] c[a] < #[trigger] c[b]
}

/// Every jump from index `lo` on that has a target jumps forward, to a
/// quadruple that exists.
pub open spec fn forward_from(qs: Seq<QuadView>, lo: int) -> bool {
    forall|k: int|
        lo <= k < qs.len() && is_jump(#[trigger] qs[k]) ==> (jump_target(qs[k]) matches JumpTarget::Target(
            t,
        ) ==> k < t < qs.len())
}

/// The code of a boolean expression from `lo` is not empty, leaves at least
/// one jump pending, its chains are increasing, and its jumps with a target
/// go forward.
pub open spec fn ordered(qs: Seq<QuadView>, lo: int, a: BoolAttrView) -> bool {
    &&& lo < qs.len()
    &&& a.tc.len() + a.fc.len() > 0
    &&& increasing(a.tc)
    &&& increasing(a.fc)
    &&& forward_from(qs, lo)
}

/// Two increasing chains, the first below `mid` and the second from `mid`
/// on, make an increasing chain.
pub proof fn lemma_increasing_concat(a: Seq<usize>, b: Seq<usize>, mid: int)
    requires
        increasing(a),
        increasing(b),
        forall|k: int| 0 <= k < a.len() ==> #[trigger] a[k] < mid,
        forall|k: int| 0 <= k < b.len() ==> mid <= #[trigger] b[k],
    ensures
        increasing(a + b),
{
    let c = a + b;
    assert forall|x: int, y: int| 0 <= x < y < c.len() implies #[trigger] c[x] < #[trigger] c[y] by {
        if y < a.len() {
            assert(c[x] == a[x] && c[y] == a[y]);
        } else if x >= a.len() {
            assert(c[x] == b[x - a.len()] && c[y] == b[y - a.len()]);
        } else {
            assert(c[x] == a[x] && c[y] == b[y - a.len()]);
        }
    }
}

/// After the jumps of `list` (pending jumps of `q0`) get the target `mid`
/// (the end of `q0`) and code whose jumps go forward is added, every jump
/// from `lo` on goes forward.
pub proof fn lemma_forward_patch(q0: Seq<QuadView>, lo: int, list: Seq<usize>, q2: Seq<QuadView>)
    requires
        0 <= lo,
        forward_from(q0, lo),
        forall|k: int| 0 <= k < list.len() ==> lo <= #[trigger] list[k] < q0.len() && is_pending_jump(q0[list[k] as int]),
        keeps_prefix(patched(q0, list, q0.len() as usize), q2),
        forward_from(q2, q0.len() as int),
        q0.len() < q2.len(),
        q0.len() <= usize::MAX,
    ensures
        forward_from(q2, lo),
{
    let m = q0.len() as int;
    let q1 = patched(q0, list, q0.len() as usize);
    lemma_patched_pending(q0, list, q0.len() as usize);
    assert forall|k: int| lo <= k < q2.len() && is_jump(#[trigger] q2[k]) implies (jump_target(q2[k]) matches JumpTarget::Target(
        t,
    ) ==> k < t < q2.len()) by {
        if k < m {
            assert(q2[k] == q1[k]);
            assert(q1[k] == if in_chain(list, k) { patch_quad(q0[k], q0.len() as usize) } else { q0[k] });
            if in_chain(list, k) {
                let x = choose|x: int| 0 <= x < list.len() && list[x] as int == k;
                assert(is_pending_jump(q0[k]));
            }
        }
    }
}

/// `B1 and B2`: the combined code keeps its order.
pub proof fn lemma_and_order(
    q0: Seq<QuadView>,
    lo: int,
    left: BoolAttrView,
    q1: Seq<QuadView>,
    q2: Seq<QuadView>,
    right: BoolAttrView,
)
    requires
        0 <= lo,
        q0.len() <= usize::MAX,
        chains_exact(q0, lo, left),
        ordered(q0, lo, left),
        q1 == patched(q0, left.tc, q0.len() as usize),
        keeps_prefix(q1, q2),
        chains_exact(q2, q0.len() as int, right),
        ordered(q2, q0.len() as int, right),
    ensures
        ordered(q2, lo, BoolAttrView { tc: right.tc, fc: left.fc + right.fc }),
{
    let mid = q0.len() as int;
    lemma_forward_patch(q0, lo, left.tc, q2);
    assert forall|k: int| 0 <= k < left.fc.len() implies #[trigger] left.fc[k] < mid by {}
    assert forall|k: int| 0 <= k < right.fc.len() implies mid <= #[trigger] right.fc[k] by {}
    lemma_increasing_concat(left.fc, right.fc, mid);
}

/// `B1 or B2`: the combined code keeps its order.
pub proof fn lemma_or_order(
    q0: Seq<QuadView>,
    lo: int,
    left: BoolAttrView,
    q1: Seq<QuadView>,
    q2: Seq<QuadView>,
    right: BoolAttrView,
)
    requires
        0 <= lo,
        q0.len() <= usize::MAX,
        chains_exact(q0, lo, left),
        ordered(q0, lo, left),
        q1 == patched(q0, left.fc, q0.len() as usize),
        keeps_prefix(q1, q2),
        chains_exact(q2, q0.len() as int, right),
        ordered(q2, q0.len() as int, right),
    ensures
        ordered(q2, lo, BoolAttrView { tc: left.tc + right.tc, fc: right.fc }),
{
    let mid = q0.len() as int;
    lemma_forward_patch(q0, lo, left.fc, q2);
    assert forall|k: int| 0 <= k < left.tc.len() implies #[trigger] left.tc[k] < mid by {}
    assert forall|k: int| 0 <= k < right.tc.len() implies mid <= #[trigger] right.tc[k] by {}
    lemma_increasing_concat(left.tc, right.tc, mid);
}

/// The code of a relation is ordered.
pub proof fn lemma_relation_order(q: Seq<QuadView>, lo: int, cond: QuadView, other: QuadView)
    requires
        0 <= lo <= q.len(),
        q.len() + 1 <= usize::MAX,
        no_jumps_from(q, lo),
        is_pending_jump(cond),
        is_pending_jump(other),
    ensures
        ordered(
            q.push(cond).push(other),
            lo,
            BoolAttrView { tc: seq![q.len() as usize], fc: seq![(q.len() + 1) as usize] },
        ),
{
    let r = q.push(cond).push(other);
    assert forall|k: int| lo <= k < r.len() && is_jump(#[trigger] r[k]) implies (jump_target(r[k]) matches JumpTarget::Target(
        t,
    ) ==> k < t < r.len()) by {
        if k < q.len() {
            assert(r[k] == q[k]);
        } else if k == q.len() {
            assert(r[k] == cond);
        } else {
            assert(r[k] == other);
        }
    }
}

/// The code of a boolean literal is ordered.
pub proof fn lemma_literal_order(q: Seq<QuadView>, j: QuadView, into_true: bool)
    requires
        is_pending_jump(j),
        q.len() <= usize::MAX,
    ensures
        ordered(
            q.push(j),
            q.len() as int,
            if into_true {
                BoolAttrView { tc: seq![q.len() as usize], fc: Seq::empty() }
            } else {
                BoolAttrView { tc: Seq::empty(), fc: seq![q.len() as usize] }
            },
        ),
{
    let r = q.push(j);
    assert(r[q.len() as int] == j);
}

} // verus!
