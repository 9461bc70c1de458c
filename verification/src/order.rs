//! The order of arrival does not matter: whatever the order in which the
//! compressed row groups reach the reassembler, it joins them in the
//! order of their indices.

use vstd::prelude::*;
use crate::encoder::is_group_result;
use crate::group::CompressedGroup;
use crate::plan::Plan;
use crate::reassemble::{blocks_of, lemma_place_found, lemma_place_of, place_of, Assembly};

verus! {

impl Assembly {
    /// The state after the groups have been taken strictly in order: the
    /// first `n` of `groups`, one after another.
    pub open spec fn after_in_order(self, groups: Seq<CompressedGroup>, n: nat) -> Assembly
        decreases n,
    {
        if n == 0 {
            self
        } else {
            let group = groups[n - 1];
            self.after_in_order(groups, (n - 1) as nat).step(
                group.adler,
                group.filtered_len as nat,
                blocks_of(group),
            )
        }
    }

    /// What goes to the sink while the first `n` of `groups` are taken
    /// strictly in order.
    pub open spec fn in_order_output(self, groups: Seq<CompressedGroup>, n: nat) -> Seq<u8>
        decreases n,
    {
        if n == 0 {
            Seq::<u8>::empty()
        } else {
            self.in_order_output(groups, (n - 1) as nat) + self.after_in_order(
                groups,
                (n - 1) as nat,
            ).step_output(blocks_of(groups[n - 1]))
        }
    }

    /// The state after the groups of `arrivals` have been submitted one
    /// after another.
    pub open spec fn after_arrivals(self, arrivals: Seq<CompressedGroup>) -> Assembly
        decreases arrivals.len(),
    {
        if arrivals.len() == 0 {
            self
        } else {
            self.after_arrivals(arrivals.drop_last()).held(arrivals.last()).settled()
        }
    }

    /// What goes to the sink while the groups of `arrivals` are submitted
    /// one after another.
    pub open spec fn arrivals_output(self, arrivals: Seq<CompressedGroup>) -> Seq<u8>
        decreases arrivals.len(),
    {
        if arrivals.len() == 0 {
            Seq::<u8>::empty()
        } else {
            self.arrivals_output(arrivals.drop_last()) + self.after_arrivals(
                arrivals.drop_last(),
            ).held(arrivals.last()).settled_output()
        }
    }
}

/// Whether `groups` are the groups of an image, each at the place of its
/// index, each with data.
pub open spec fn is_family(groups: Seq<CompressedGroup>) -> bool {
    &&& groups.len() < u32::MAX
    &&& forall|i: int|
        0 <= i < groups.len() ==> (#[trigger] groups[i]).index == i && groups[i].data is Some
}

/// Whether one of the groups has the given index.
pub open spec fn has_index(arrivals: Seq<CompressedGroup>, index: int) -> bool {
    exists|j: int| 0 <= j < arrivals.len() && (#[trigger] arrivals[j]).index == index
}

/// Whether `arrivals` are the groups of the family in some order: each of
/// them is of the family, no two have the same index, and every group of
/// the family is among them.
pub open spec fn is_arrangement(
    arrivals: Seq<CompressedGroup>,
    groups: Seq<CompressedGroup>,
) -> bool {
    &&& forall|j: int|
        0 <= j < arrivals.len() ==> 0 <= (#[trigger] arrivals[j]).index < groups.len()
            && arrivals[j] == groups[arrivals[j].index as int]
    &&& forall|j: int, k: int|
        0 <= j < k < arrivals.len() ==> (#[trigger] arrivals[j]).index != (
        #[trigger] arrivals[k]).index
    &&& forall|i: int| 0 <= i < groups.len() ==> #[trigger] has_index(arrivals, i)
}

/// Whether a state is what taking the first `state.next` groups of the
/// family in order leads to from `base`, with groups of the family
/// waiting that are all yet to come and all differ.
spec fn on_course(state: Assembly, base: Assembly, groups: Seq<CompressedGroup>) -> bool {
    &&& 0 <= state.next <= groups.len()
    &&& state == (Assembly {
        waiting: state.waiting,
        ..base.after_in_order(groups, state.next as nat)
    })
    &&& forall|j: int|
        0 <= j < state.waiting.len() ==> state.next <= (#[trigger] state.waiting[j]).index
            < groups.len() && state.waiting[j] == groups[state.waiting[j].index as int]
    &&& forall|j: int, k: int|
        0 <= j < k < state.waiting.len() ==> (#[trigger] state.waiting[j]).index != (
        #[trigger] state.waiting[k]).index
}

/// Whether a group is among those waiting.
spec fn waits(state: Assembly, group: CompressedGroup) -> bool {
    exists|j: int| 0 <= j < state.waiting.len() && #[trigger] state.waiting[j] == group
}

/// Whether a group is among those waiting, at a place other than `k`.
spec fn waits_beside(state: Assembly, k: int, group: CompressedGroup) -> bool {
    exists|i: int|
        0 <= i < state.waiting.len() && i != k && #[trigger] state.waiting[i] == group
}

/// A group that waits at a place other than `k` waits still when the
/// group at place `k` is gone, and no other waits then.
proof fn lemma_others_wait(state: Assembly, k: int)
    requires
        0 <= k < state.waiting.len(),
    ensures
        forall|j: int|
            0 <= j < state.waiting.len() && j != k ==> waits(
                state.after_turn(k),
                #[trigger] state.waiting[j],
            ),
        forall|j: int|
            0 <= j < state.after_turn(k).waiting.len() ==> waits_beside(
                state,
                k,
                #[trigger] state.after_turn(k).waiting[j],
            ),
{
    let next = state.after_turn(k);
    assert forall|j: int| 0 <= j < state.waiting.len() && j != k implies waits(
        next,
        #[trigger] state.waiting[j],
    ) by {
        let to = if j < k {
            j
        } else {
            j - 1
        };
        assert(next.waiting[to] == state.waiting[j]);
    }
    assert forall|j: int| 0 <= j < next.waiting.len() implies waits_beside(
        state,
        k,
        #[trigger] next.waiting[j],
    ) by {
        let from = if j < k {
            j
        } else {
            j + 1
        };
        assert(state.waiting[from] == next.waiting[j]);
    }
}

/// When the group whose turn it is has had it, a state that was on course
/// is on course still, one group further.
proof fn lemma_turn(state: Assembly, base: Assembly, groups: Seq<CompressedGroup>, k: int)
    requires
        is_family(groups),
        on_course(state, base, groups),
        place_of(state.waiting, state.next) == Some(k),
    ensures
        0 <= k < state.waiting.len(),
        state.waiting[k] == groups[state.next],
        state.after_turn(k).next == state.next + 1,
        on_course(state.after_turn(k), base, groups),
        base.in_order_output(groups, (state.next + 1) as nat) == base.in_order_output(
            groups,
            state.next as nat,
        ) + state.step_output(blocks_of(state.waiting[k])),
{
    lemma_place_of(state.waiting, state.next);
    let group = state.waiting[k];
    let next = state.after_turn(k);
    assert(group == groups[state.next]);
    assert(base.after_in_order(groups, (state.next + 1) as nat) == base.after_in_order(
        groups,
        state.next as nat,
    ).step(group.adler, group.filtered_len as nat, blocks_of(group)));
    assert forall|j: int| 0 <= j < next.waiting.len() implies next.next <= (
    #[trigger] next.waiting[j]).index < groups.len() && next.waiting[j]
        == groups[next.waiting[j].index as int] by {
        let from = if j < k {
            j
        } else {
            j + 1
        };
        assert(next.waiting[j] == state.waiting[from]);
        if from < k {
            assert(state.waiting[from].index != state.waiting[k].index);
        } else {
            assert(state.waiting[k].index != state.waiting[from].index);
        }
    }
    assert forall|i: int, j: int| 0 <= i < j < next.waiting.len() implies (
    #[trigger] next.waiting[i]).index != (#[trigger] next.waiting[j]).index by {
        let a = if i < k {
            i
        } else {
            i + 1
        };
        let b = if j < k {
            j
        } else {
            j + 1
        };
        assert(next.waiting[i] == state.waiting[a]);
        assert(next.waiting[j] == state.waiting[b]);
        assert(state.waiting[a].index != state.waiting[b].index);
    }
}

/// What settling a state that is on course comes to.
spec fn settles(state: Assembly, base: Assembly, groups: Seq<CompressedGroup>) -> bool {
    let after = state.settled();
    &&& on_course(after, base, groups)
    &&& state.next <= after.next
    &&& place_of(after.waiting, after.next) is None
    &&& forall|j: int|
        0 <= j < state.waiting.len() ==> (#[trigger] state.waiting[j]).index < after.next
            || waits(after, state.waiting[j])
    &&& forall|j: int| 0 <= j < after.waiting.len() ==> waits(state, #[trigger] after.waiting[j])
    &&& forall|i: int| state.next <= i < after.next ==> #[trigger] has_index(state.waiting, i)
    &&& base.in_order_output(groups, state.next as nat) + state.settled_output()
        == base.in_order_output(groups, after.next as nat)
}

/// If settling comes out right after the group at place `k` has had its
/// turn, it comes out right before.
proof fn lemma_settles_after_turn(
    state: Assembly,
    base: Assembly,
    groups: Seq<CompressedGroup>,
    k: int,
)
    requires
        is_family(groups),
        on_course(state, base, groups),
        place_of(state.waiting, state.next) == Some(k),
        0 <= k < state.waiting.len(),
        state.waiting[k].index == state.next,
        state.after_turn(k).next == state.next + 1,
        settles(state.after_turn(k), base, groups),
        base.in_order_output(groups, (state.next + 1) as nat) == base.in_order_output(
            groups,
            state.next as nat,
        ) + state.step_output(blocks_of(state.waiting[k])),
    ensures
        settles(state, base, groups),
{
    let next = state.after_turn(k);
    let after = state.settled();
    assert(after == next.settled());
    lemma_others_wait(state, k);
    let so_far = base.in_order_output(groups, state.next as nat);
    let step = state.step_output(blocks_of(state.waiting[k]));
    assert(state.settled_output() == step + next.settled_output());
    lemma_grouping(so_far, step, next.settled_output());
    assert forall|j: int| 0 <= j < state.waiting.len() implies (
    #[trigger] state.waiting[j]).index < after.next || waits(after, state.waiting[j]) by {
        if j != k {
            assert(waits(next, state.waiting[j]));
            let to = choose|to: int|
                0 <= to < next.waiting.len() && #[trigger] next.waiting[to] == state.waiting[j];
            assert(next.waiting[to].index < after.next || waits(after, next.waiting[to]));
        }
    }
    assert forall|j: int| 0 <= j < after.waiting.len() implies waits(
        state,
        #[trigger] after.waiting[j],
    ) by {
        let w = after.waiting[j];
        assert(waits(next, w));
        let at = choose|at: int| 0 <= at < next.waiting.len() && #[trigger] next.waiting[at] == w;
        assert(waits_beside(state, k, next.waiting[at]));
        let from = choose|from: int|
            0 <= from < state.waiting.len() && from != k && #[trigger] state.waiting[from]
                == next.waiting[at];
        assert(state.waiting[from] == w);
    }
    assert forall|i: int| state.next <= i < after.next implies #[trigger] has_index(
        state.waiting,
        i,
    ) by {
        if i == state.next {
            assert(state.waiting[k].index == i);
        } else {
            assert(has_index(next.waiting, i));
            let at = choose|at: int|
                0 <= at < next.waiting.len() && (#[trigger] next.waiting[at]).index == i;
            assert(waits_beside(state, k, next.waiting[at]));
            let from = choose|from: int|
                0 <= from < state.waiting.len() && from != k && #[trigger] state.waiting[from]
                    == next.waiting[at];
            assert(state.waiting[from].index == i);
        }
    }
}

/// Joining byte strings does not depend on how they are grouped.
proof fn lemma_grouping(a: Seq<u8>, b: Seq<u8>, c: Seq<u8>)
    ensures
        a + (b + c) == (a + b) + c,
{
    assert(a + (b + c) =~= (a + b) + c);
}

/// Settling a state that is on course leaves it on course, with no
/// waiting group whose turn has come; every group that waited has had
/// its turn or waits still, and no other waits.
proof fn lemma_settle(state: Assembly, base: Assembly, groups: Seq<CompressedGroup>)
    requires
        is_family(groups),
        on_course(state, base, groups),
    ensures
        settles(state, base, groups),
    decreases state.waiting.len(),
{
    lemma_place_of(state.waiting, state.next);
    match place_of(state.waiting, state.next) {
        None => {
            let so_far = base.in_order_output(groups, state.next as nat);
            assert(state.settled() == state);
            assert(so_far + Seq::<u8>::empty() =~= so_far);
            assert forall|j: int| 0 <= j < state.waiting.len() implies waits(
                state,
                #[trigger] state.waiting[j],
            ) by {}
        },
        Some(k) => {
            lemma_turn(state, base, groups, k);
            lemma_settle(state.after_turn(k), base, groups);
            lemma_settles_after_turn(state, base, groups, k);
        },
    }
}

/// Whether a group is among the first `k` to arrive.
spec fn came(arrivals: Seq<CompressedGroup>, k: int, group: CompressedGroup) -> bool {
    exists|j: int| 0 <= j < k && j < arrivals.len() && #[trigger] arrivals[j] == group
}

/// Whether a group with the given index is among the first `k` to arrive.
spec fn index_came(arrivals: Seq<CompressedGroup>, k: int, index: int) -> bool {
    exists|j: int| 0 <= j < k && j < arrivals.len() && (#[trigger] arrivals[j]).index == index
}

/// Where the reassembly stands after the first `k` arrivals.
spec fn arrived(
    base: Assembly,
    groups: Seq<CompressedGroup>,
    arrivals: Seq<CompressedGroup>,
    k: int,
) -> bool {
    let state = base.after_arrivals(arrivals.take(k));
    &&& on_course(state, base, groups)
    &&& place_of(state.waiting, state.next) is None
    &&& forall|j: int|
        0 <= j < k ==> (#[trigger] arrivals[j]).index < state.next || waits(state, arrivals[j])
    &&& forall|j: int|
        0 <= j < state.waiting.len() ==> came(arrivals, k, #[trigger] state.waiting[j])
    &&& forall|i: int| 0 <= i < state.next ==> #[trigger] index_came(arrivals, k, i)
    &&& base.arrivals_output(arrivals.take(k)) == base.in_order_output(groups, state.next as nat)
}

/// Taking groups in order leaves the waiting groups as they were.
proof fn lemma_in_order_waiting(base: Assembly, groups: Seq<CompressedGroup>, n: nat)
    ensures
        base.after_in_order(groups, n).waiting == base.waiting,
        base.after_in_order(groups, n).next == base.next + n,
    decreases n,
{
    if n > 0 {
        lemma_in_order_waiting(base, groups, (n - 1) as nat);
    }
}

proof fn lemma_arrivals_upto(
    base: Assembly,
    groups: Seq<CompressedGroup>,
    arrivals: Seq<CompressedGroup>,
    k: nat,
)
    requires
        base.next == 0,
        base.waiting.len() == 0,
        is_family(groups),
        is_arrangement(arrivals, groups),
        k <= arrivals.len(),
    ensures
        arrived(base, groups, arrivals, k as int),
        k > 0 ==> base.after_arrivals(arrivals.take(k - 1)).admits(arrivals[k - 1]),
    decreases k,
{
    if k == 0 {
        let state = base.after_arrivals(arrivals.take(0));
        assert(arrivals.take(0).len() == 0);
        assert(state == base);
        assert(base == (Assembly { waiting: base.waiting, ..base.after_in_order(groups, 0) }));
        lemma_place_of(base.waiting, base.next);
    } else {
        let j = (k - 1) as nat;
        lemma_arrivals_upto(base, groups, arrivals, j);
        let group = arrivals[j as int];
        let before = base.after_arrivals(arrivals.take(j as int));
        assert(arrivals.take(k as int).drop_last() =~= arrivals.take(j as int));
        assert(arrivals.take(k as int).last() == group);
        let held = before.held(group);
        let state = held.settled();
        assert(state == base.after_arrivals(arrivals.take(k as int)));
        // The group is admitted: its turn has not passed, and it does not
        // wait already.
        assert(before.next <= group.index) by {
            if group.index < before.next {
                assert(index_came(arrivals, j as int, group.index as int));
                let a = choose|a: int|
                    0 <= a < j && a < arrivals.len() && (#[trigger] arrivals[a]).index
                        == group.index;
                assert(arrivals[a].index != arrivals[j as int].index);
            }
        }
        lemma_place_of(before.waiting, group.index as int);
        assert(place_of(before.waiting, group.index as int) is None) by {
            if place_of(before.waiting, group.index as int) is Some {
                let p = place_of(before.waiting, group.index as int)->Some_0;
                assert(came(arrivals, j as int, before.waiting[p]));
                let a = choose|a: int|
                    0 <= a < j && a < arrivals.len() && #[trigger] arrivals[a]
                        == before.waiting[p];
                assert(arrivals[a].index != arrivals[j as int].index);
            }
        }
        assert(before.admits(group));
        // With the group waiting the state is on course still.
        assert(on_course(held, base, groups)) by {
            assert forall|a: int| 0 <= a < held.waiting.len() implies held.next <= (
            #[trigger] held.waiting[a]).index < groups.len() && held.waiting[a]
                == groups[held.waiting[a].index as int] by {
                if a < before.waiting.len() {
                    assert(held.waiting[a] == before.waiting[a]);
                }
            }
            assert forall|a: int, b: int| 0 <= a < b < held.waiting.len() implies (
            #[trigger] held.waiting[a]).index != (#[trigger] held.waiting[b]).index by {
                assert(held.waiting[a] == before.waiting[a]);
                if b < before.waiting.len() {
                    assert(held.waiting[b] == before.waiting[b]);
                } else {
                    assert(before.waiting[a].index != group.index);
                }
            }
        }
        lemma_settle(held, base, groups);
        assert forall|a: int| 0 <= a < k implies (#[trigger] arrivals[a]).index < state.next
            || waits(state, arrivals[a]) by {
            if a < j {
                if arrivals[a].index >= before.next {
                    assert(waits(before, arrivals[a]));
                    let p = choose|p: int|
                        0 <= p < before.waiting.len() && #[trigger] before.waiting[p]
                            == arrivals[a];
                    assert(held.waiting[p] == arrivals[a]);
                }
            } else {
                assert(held.waiting[before.waiting.len() as int] == arrivals[a]);
            }
        }
        assert forall|a: int| 0 <= a < state.waiting.len() implies came(
            arrivals,
            k as int,
            #[trigger] state.waiting[a],
        ) by {
            let w = state.waiting[a];
            assert(waits(held, w));
            let p = choose|p: int| 0 <= p < held.waiting.len() && #[trigger] held.waiting[p] == w;
            if p < before.waiting.len() {
                assert(held.waiting[p] == before.waiting[p]);
                assert(came(arrivals, j as int, before.waiting[p]));
                let c = choose|c: int|
                    0 <= c < j && c < arrivals.len() && #[trigger] arrivals[c]
                        == before.waiting[p];
                assert(arrivals[c] == w);
            } else {
                assert(arrivals[j as int] == w);
            }
        }
        assert forall|i: int| 0 <= i < state.next implies #[trigger] index_came(
            arrivals,
            k as int,
            i,
        ) by {
            if i < before.next {
                assert(index_came(arrivals, j as int, i));
                let c = choose|c: int|
                    0 <= c < j && c < arrivals.len() && (#[trigger] arrivals[c]).index == i;
                assert(arrivals[c].index == i);
            } else {
                assert(has_index(held.waiting, i));
                let p = choose|p: int|
                    0 <= p < held.waiting.len() && (#[trigger] held.waiting[p]).index == i;
                if p < before.waiting.len() {
                    assert(held.waiting[p] == before.waiting[p]);
                    assert(came(arrivals, j as int, before.waiting[p]));
                    let c = choose|c: int|
                        0 <= c < j && c < arrivals.len() && #[trigger] arrivals[c]
                            == before.waiting[p];
                    assert(arrivals[c].index == i);
                } else {
                    assert(arrivals[j as int].index == i);
                }
            }
        }
    }
}

/// Whatever the order in which the groups of an image reach a fresh
/// reassembler, every one of them is taken in, and in the end the state
/// is the one that taking them strictly in order leads to, with no group
/// waiting, and the same bytes have gone to the sink.
pub proof fn lemma_any_order(
    base: Assembly,
    groups: Seq<CompressedGroup>,
    arrivals: Seq<CompressedGroup>,
)
    requires
        base.next == 0,
        base.waiting.len() == 0,
        is_family(groups),
        is_arrangement(arrivals, groups),
    ensures
        forall|k: int|
            0 <= k < arrivals.len() ==> (#[trigger] base.after_arrivals(arrivals.take(k))).admits(
                arrivals[k],
            ),
        base.after_arrivals(arrivals) == base.after_in_order(groups, groups.len()),
        base.arrivals_output(arrivals) == base.in_order_output(groups, groups.len()),
{
    let n = arrivals.len();
    assert forall|k: int| 0 <= k < n implies (#[trigger] base.after_arrivals(
        arrivals.take(k),
    )).admits(arrivals[k]) by {
        lemma_arrivals_upto(base, groups, arrivals, (k + 1) as nat);
    }
    lemma_arrivals_upto(base, groups, arrivals, n);
    assert(arrivals.take(n as int) =~= arrivals);
    let state = base.after_arrivals(arrivals);
    lemma_place_of(state.waiting, state.next);
    // Every group has had its turn.
    if state.next < groups.len() {
        assert(has_index(arrivals, state.next));
        let j = choose|j: int|
            0 <= j < arrivals.len() && (#[trigger] arrivals[j]).index == state.next;
        assert(waits(state, arrivals[j]));
        let p = choose|p: int|
            0 <= p < state.waiting.len() && #[trigger] state.waiting[p] == arrivals[j];
        assert(state.waiting[p].index != state.next);
    }
    // None waits.
    if state.waiting.len() > 0 {
        assert(state.waiting[0].index < groups.len());
    }
    lemma_in_order_waiting(base, groups, groups.len());
    assert(state.waiting =~= base.waiting);
}

/// Taking the results for the groups of an image strictly in order is
/// what the plan of the image says.
proof fn lemma_in_order_of_image(
    plan: Plan,
    pixels: Seq<u8>,
    groups: Seq<CompressedGroup>,
    n: nat,
)
    requires
        is_family(groups),
        n <= groups.len(),
        forall|i: int|
            0 <= i < groups.len() ==> is_group_result(plan, pixels, i, &#[trigger] groups[i]),
    ensures
        Assembly::start(plan.level, plan.chunk_size, plan.streaming).after_in_order(groups, n)
            == plan.assembly(pixels, n),
        Assembly::start(plan.level, plan.chunk_size, plan.streaming).in_order_output(groups, n)
            == plan.emitted_between(pixels, 0, n),
    decreases n,
{
    if n > 0 {
        lemma_in_order_of_image(plan, pixels, groups, (n - 1) as nat);
        assert(is_group_result(plan, pixels, n - 1, &groups[n - 1]));
    }
}

/// Whatever the order in which the workers hand in the row groups of an
/// image, the reassembler ends in the state, and the sink with the
/// bytes, that the plan of the image says.
pub proof fn lemma_any_order_of_image(
    plan: Plan,
    pixels: Seq<u8>,
    groups: Seq<CompressedGroup>,
    arrivals: Seq<CompressedGroup>,
)
    requires
        is_family(groups),
        forall|i: int|
            0 <= i < groups.len() ==> is_group_result(plan, pixels, i, &#[trigger] groups[i]),
        is_arrangement(arrivals, groups),
    ensures
        Assembly::start(plan.level, plan.chunk_size, plan.streaming).after_arrivals(arrivals)
            == plan.assembly(pixels, groups.len()),
        Assembly::start(plan.level, plan.chunk_size, plan.streaming).arrivals_output(arrivals)
            == plan.emitted_between(pixels, 0, groups.len()),
{
    let start = Assembly::start(plan.level, plan.chunk_size, plan.streaming);
    lemma_any_order(start, groups, arrivals);
    lemma_in_order_of_image(plan, pixels, groups, groups.len());
}

} // verus!
