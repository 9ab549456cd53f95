//! The diff pipeline scheduler.
//!
//! Preparation of the changes runs concurrently and may finish in any
//! order, while at most one interactive viewer runs at a time and must see
//! the changes in their original order.  This module holds the decision
//! core as a state machine: the surrounding event loop reports finished or
//! failed preparations and viewer exits, and asks which action to take
//! next.  The machine guarantees that viewer launches happen in strictly
//! increasing index order, that a failed preparation only drops its own
//! index, and that every successfully prepared index is launched exactly
//! once by the time the machine reports completion.

use crate::stage::StagedPair;
use vstd::prelude::*;

verus! {

/// The preparation state of one change.
pub enum SlotState {
    /// Preparation has not finished yet.
    Pending,
    /// Preparation finished; the staged pair waits for the viewer.
    Ready(StagedPair),
    /// Preparation failed; the change is dropped from viewing.
    Failed,
    /// The staged pair was handed to the viewer.
    Consumed,
}

/// What the event loop should do next.
pub enum Action {
    /// Launch the viewer on this staged pair.
    Launch(StagedPair),
    /// Nothing can happen until the next event.
    Wait,
    /// Every change was viewed or dropped and no viewer is running.
    Done,
}

/// The indexes of the consumed slots below `k`, in increasing order.
pub open spec fn consumed_upto(slots: Seq<SlotState>, k: int) -> Seq<int>
    decreases k,
{
    if k <= 0 {
        Seq::empty()
    } else if slots[k - 1] is Consumed {
        consumed_upto(slots, k - 1).push(k - 1)
    } else {
        consumed_upto(slots, k - 1)
    }
}

/// The scheduler state for one run over `slots.len()` changes.
pub struct Pipeline {
    /// One slot per change, in change-set order.
    pub slots: Vec<SlotState>,
    /// Every slot below this index was viewed or dropped.
    pub next_to_view: usize,
    /// Whether a viewer instance is currently running.
    pub viewer_active: bool,
    /// The indexes handed to the viewer, in launch order.
    pub launched: Ghost<Seq<int>>,
}

impl Pipeline {
    /// The machine's invariant: the viewed region is a prefix, nothing
    /// beyond it was consumed, and the launch record holds exactly the
    /// consumed indexes in increasing order.
    pub open spec fn wf(self) -> bool {
        &&& self.next_to_view <= self.slots@.len()
        &&& forall|i: int|
            0 <= i < self.next_to_view ==> !((#[trigger] self.slots@[i]) is Pending) && !(
            self.slots@[i] is Ready)
        &&& forall|i: int|
            self.next_to_view <= i < self.slots@.len() ==> !((#[trigger] self.slots@[i])
                is Consumed)
        &&& self.launched@ == consumed_upto(self.slots@, self.next_to_view as int)
    }

    /// Whether the run is over: every change viewed or dropped, no viewer
    /// running.
    pub open spec fn done(self) -> bool {
        self.next_to_view == self.slots@.len() && !self.viewer_active
    }

    /// A fresh scheduler for `total` changes, all pending.
    pub fn new(total: usize) -> (r: Pipeline)
        ensures
            r.wf(),
            r.slots@.len() == total,
            forall|i: int| 0 <= i < total ==> (#[trigger] r.slots@[i]) is Pending,
            r.next_to_view == 0,
            !r.viewer_active,
            r.launched@ == Seq::<int>::empty(),
    {
        let mut slots: Vec<SlotState> = Vec::new();
        for i in 0..total
            invariant
                slots@.len() == i,
                forall|j: int| 0 <= j < i ==> (#[trigger] slots@[j]) is Pending,
        {
            slots.push(SlotState::Pending);
        }
        Pipeline { slots, next_to_view: 0, viewer_active: false, launched: Ghost(Seq::empty()) }
    }

    /// Records that preparation of change `i` finished with `pair`.
    pub fn prepared(&mut self, i: usize, pair: StagedPair)
        requires
            old(self).wf(),
            i < old(self).slots@.len(),
            old(self).slots@[i as int] is Pending,
        ensures
            final(self).wf(),
            final(self).slots@ == old(self).slots@.update(i as int, SlotState::Ready(pair)),
            final(self).next_to_view == old(self).next_to_view,
            final(self).viewer_active == old(self).viewer_active,
            final(self).launched@ == old(self).launched@,
    {
        self.set_slot(i, SlotState::Ready(pair));
    }

    /// Records that preparation of change `i` failed; the change is dropped
    /// and no other slot is touched.
    pub fn prep_failed(&mut self, i: usize)
        requires
            old(self).wf(),
            i < old(self).slots@.len(),
            old(self).slots@[i as int] is Pending,
        ensures
            final(self).wf(),
            final(self).slots@ == old(self).slots@.update(i as int, SlotState::Failed),
            final(self).next_to_view == old(self).next_to_view,
            final(self).viewer_active == old(self).viewer_active,
            final(self).launched@ == old(self).launched@,
    {
        self.set_slot(i, SlotState::Failed);
    }

    /// Records that the running viewer instance exited.
    pub fn viewer_done(&mut self)
        requires
            old(self).wf(),
            old(self).viewer_active,
        ensures
            final(self).wf(),
            final(self).slots@ == old(self).slots@,
            final(self).next_to_view == old(self).next_to_view,
            !final(self).viewer_active,
            final(self).launched@ == old(self).launched@,
    {
        self.viewer_active = false;
    }

    /// Replaces slot `i`, keeping the launch record intact.
    fn set_slot(&mut self, i: usize, v: SlotState)
        requires
            old(self).wf(),
            i < old(self).slots@.len(),
            old(self).next_to_view <= i,
            !(v is Consumed),
        ensures
            final(self).wf(),
            final(self).slots@ == old(self).slots@.update(i as int, v),
            final(self).next_to_view == old(self).next_to_view,
            final(self).viewer_active == old(self).viewer_active,
            final(self).launched@ == old(self).launched@,
    {
        let _ = self.slots.remove(i);
        self.slots.insert(i, v);
        proof {
            assert(self.slots@ =~= old(self).slots@.update(i as int, v));
            lemma_consumed_upto_unchanged(
                old(self).slots@,
                self.slots@,
                old(self).next_to_view as int,
            );
        }
    }

    /// The next action: launch the first ready change once no viewer runs,
    /// wait while the next change in order is still being prepared or a
    /// viewer is up, and report completion when nothing is left.
    ///
    /// Failed changes are skipped; a launch consumes its slot and records
    /// its index, so launches happen in strictly increasing index order.
    pub fn next_action(&mut self) -> (r: Action)
        requires
            old(self).wf(),
        ensures
            final(self).wf(),
            final(self).slots@.len() == old(self).slots@.len(),
            final(self).viewer_active == (r is Launch) || old(self).viewer_active,
            old(self).viewer_active ==> r is Wait && *final(self) == *old(self),
            r is Wait ==> final(self).launched@ == old(self).launched@ && final(self).slots@ == old(
                self,
            ).slots@,
            r is Done ==> final(self).launched@ == old(self).launched@ && final(self).done()
                && !old(self).viewer_active && final(self).slots@ == old(self).slots@,
            !old(self).viewer_active ==> ((r is Done) <==> forall|m: int|
                old(self).next_to_view <= m < old(self).slots@.len() ==> (#[trigger] old(
                    self,
                ).slots@[m]) is Failed),
            !old(self).viewer_active ==> ((r is Wait) <==> exists|j: int|
                {
                    &&& old(self).next_to_view <= j < old(self).slots@.len()
                    &&& (#[trigger] old(self).slots@[j]) is Pending
                    &&& forall|m: int|
                        old(self).next_to_view <= m < j ==> (#[trigger] old(
                            self,
                        ).slots@[m]) is Failed
                }),
            r matches Action::Launch(p) ==> ({
                &&& !old(self).viewer_active
                &&& final(self).viewer_active
                &&& exists|j: int|
                    {
                        &&& old(self).next_to_view <= j < old(self).slots@.len()
                        &&& (#[trigger] old(self).slots@[j]) matches SlotState::Ready(q)
                            && p.original@ == q.original@ && p.new@ == q.new@
                        &&& forall|m: int|
                            old(self).next_to_view <= m < j ==> (#[trigger] old(
                                self,
                            ).slots@[m]) is Failed
                        &&& final(self).launched@ == old(self).launched@.push(j)
                        &&& final(self).slots@ == old(self).slots@.update(j, SlotState::Consumed)
                        &&& final(self).next_to_view == j + 1
                    }
            }),
    {
        if self.viewer_active {
            return Action::Wait;
        }
        let ghost orig = *self;
        while self.next_to_view < self.slots.len()
            invariant
                orig == *old(self),
                !old(self).viewer_active,
                self.wf(),
                !self.viewer_active,
                orig.slots@ == self.slots@,
                orig.launched@ == self.launched@,
                orig.viewer_active == self.viewer_active,
                orig.next_to_view <= self.next_to_view,
                orig.wf(),
                forall|m: int|
                    orig.next_to_view <= m < self.next_to_view ==> (#[trigger] orig.slots@[m])
                        is Failed,
            decreases self.slots@.len() - self.next_to_view,
        {
            let i = self.next_to_view;
            let is_failed = match &self.slots[i] {
                SlotState::Failed => true,
                _ => false,
            };
            if is_failed {
                self.next_to_view = i + 1;
                proof {
                    assert(self.launched@ =~= consumed_upto(
                        self.slots@,
                        self.next_to_view as int,
                    ));
                }
                continue ;
            }
            let is_pending = match &self.slots[i] {
                SlotState::Pending => true,
                _ => false,
            };
            if is_pending {
                return Action::Wait;
            }
            let slot = self.slots.remove(i);
            self.slots.insert(i, SlotState::Consumed);
            proof {
                assert(self.slots@ =~= orig.slots@.update(i as int, SlotState::Consumed));
            }
            match slot {
                SlotState::Ready(pair) => {
                    self.next_to_view = i + 1;
                    self.viewer_active = true;
                    proof {
                        self.launched@ = self.launched@.push(i as int);
                        lemma_consumed_upto_unchanged(orig.slots@, self.slots@, i as int);
                        assert(consumed_upto(self.slots@, i + 1) =~= consumed_upto(
                            self.slots@,
                            i as int,
                        ).push(i as int));
                    }
                    return Action::Launch(pair);
                },
                _ => {
                    proof {
                        assert(false);
                    }
                    return Action::Wait;
                },
            }
        }
        Action::Done
    }
}

/// Slots at or above `k` do not influence the consumed prefix below `k`.
proof fn lemma_consumed_upto_unchanged(s1: Seq<SlotState>, s2: Seq<SlotState>, k: int)
    requires
        forall|i: int| 0 <= i < k ==> s1[i] == s2[i],
    ensures
        consumed_upto(s1, k) == consumed_upto(s2, k),
    decreases k,
{
    if k > 0 {
        lemma_consumed_upto_unchanged(s1, s2, k - 1);
    }
}

/// The consumed prefix is strictly increasing and holds exactly the
/// consumed indexes below `k`.
proof fn lemma_consumed_upto_facts(s: Seq<SlotState>, k: int)
    ensures
        forall|a: int, b: int|
            0 <= a < b < consumed_upto(s, k).len() ==> #[trigger] consumed_upto(s, k)[a]
                < #[trigger] consumed_upto(s, k)[b],
        forall|a: int|
            0 <= a < consumed_upto(s, k).len() ==> 0 <= #[trigger] consumed_upto(s, k)[a] < k && s[
                consumed_upto(s, k)[a]
            ] is Consumed,
        forall|i: int| 0 <= i < k && (#[trigger] s[i]) is Consumed ==> consumed_upto(s, k).contains(i),
    decreases k,
{
    if k > 0 {
        lemma_consumed_upto_facts(s, k - 1);
        let pre = consumed_upto(s, k - 1);
        let cur = consumed_upto(s, k);
        if s[k - 1] is Consumed {
            assert forall|i: int| 0 <= i < k && (#[trigger] s[i]) is Consumed implies cur.contains(
                i,
            ) by {
                if i == k - 1 {
                    assert(cur[cur.len() - 1] == i);
                } else {
                    assert(pre.contains(i));
                    let a = choose|a: int| 0 <= a < pre.len() && pre[a] == i;
                    assert(cur[a] == i);
                }
            }
        } else {
            assert forall|i: int| 0 <= i < k && (#[trigger] s[i]) is Consumed implies cur.contains(
                i,
            ) by {
                assert(pre.contains(i));
            }
        }
    }
}

/// Law: exposure order equals submission order.  The launch record of a
/// well-formed pipeline is strictly increasing: the viewer never receives a
/// change before one with a larger index, however preparation completions
/// were interleaved.
pub proof fn lemma_launch_order(p: Pipeline)
    requires
        p.wf(),
    ensures
        forall|a: int, b: int|
            0 <= a < b < p.launched@.len() ==> #[trigger] p.launched@[a] < #[trigger] p.launched@[b],
{
    lemma_consumed_upto_facts(p.slots@, p.next_to_view as int);
}

/// Law: completion delivers exactly the prepared changes.  When a
/// well-formed pipeline is done, the launch record holds every index that
/// did not fail, each exactly once, in increasing order; a failed index is
/// absent.
pub proof fn lemma_done_delivery(p: Pipeline)
    requires
        p.wf(),
        p.done(),
    ensures
        forall|a: int, b: int|
            0 <= a < b < p.launched@.len() ==> #[trigger] p.launched@[a] < #[trigger] p.launched@[b],
        forall|i: int|
            0 <= i < p.slots@.len() && !((#[trigger] p.slots@[i]) is Failed) ==> p.launched@.contains(
                i,
            ),
        forall|i: int|
            0 <= i < p.slots@.len() && ((#[trigger] p.slots@[i]) is Failed) ==> !p.launched@.contains(
                i,
            ),
{
    lemma_consumed_upto_facts(p.slots@, p.next_to_view as int);
    assert forall|i: int|
        0 <= i < p.slots@.len() && ((#[trigger] p.slots@[i]) is Failed) implies !p.launched@.contains(
        i,
    ) by {
        if p.launched@.contains(i) {
            let a = choose|a: int| 0 <= a < p.launched@.len() && p.launched@[a] == i;
            assert(p.slots@[i] is Consumed);
        }
    }
}

/// A fully consumed prefix records every index in order.
proof fn lemma_consumed_upto_full(s: Seq<SlotState>, k: int)
    requires
        0 <= k,
        forall|i: int| 0 <= i < k ==> (#[trigger] s[i]) is Consumed,
    ensures
        consumed_upto(s, k) == Seq::new(k as nat, |i: int| i),
    decreases k,
{
    if k == 0 {
        assert(consumed_upto(s, 0) =~= Seq::new(0, |i: int| i));
    } else {
        lemma_consumed_upto_full(s, k - 1);
        assert(consumed_upto(s, k) =~= Seq::new(k as nat, |i: int| i));
    }
}

/// Law: however preparation completions were interleaved, a run without
/// failures delivers every change, in index order zero to the end.
pub proof fn lemma_no_failure_full_order(p: Pipeline)
    requires
        p.wf(),
        p.done(),
        forall|i: int| 0 <= i < p.slots@.len() ==> !((#[trigger] p.slots@[i]) is Failed),
    ensures
        p.launched@ == Seq::new(p.slots@.len(), |i: int| i),
{
    assert forall|i: int| 0 <= i < p.slots@.len() implies (#[trigger] p.slots@[i]) is Consumed by {
        assert(!(p.slots@[i] is Pending) && !(p.slots@[i] is Ready));
    }
    lemma_consumed_upto_full(p.slots@, p.next_to_view as int);
}

/// Law: a failure is isolated.  When a done pipeline dropped index `k`, its
/// neighbours that prepared successfully were still both delivered, and in
/// order: the smaller one strictly before the larger one.
pub proof fn lemma_failure_isolated(p: Pipeline, k: int)
    requires
        p.wf(),
        p.done(),
        0 <= k < p.slots@.len(),
        p.slots@[k] is Failed,
        k > 0 ==> !(p.slots@[k - 1] is Failed),
        k + 1 < p.slots@.len() ==> !(p.slots@[k + 1] is Failed),
    ensures
        !p.launched@.contains(k),
        k > 0 ==> p.launched@.contains(k - 1),
        k + 1 < p.slots@.len() ==> p.launched@.contains(k + 1),
        (k > 0 && k + 1 < p.slots@.len()) ==> exists|a: int, b: int|
            0 <= a < b < p.launched@.len() && #[trigger] p.launched@[a] == k - 1
                && #[trigger] p.launched@[b] == k + 1,
{
    lemma_done_delivery(p);
    if k > 0 && k + 1 < p.slots@.len() {
        let a = choose|a: int| 0 <= a < p.launched@.len() && p.launched@[a] == k - 1;
        let b = choose|b: int| 0 <= b < p.launched@.len() && p.launched@[b] == k + 1;
        lemma_launch_order(p);
        if b <= a {
            if b < a {
                assert(p.launched@[b] < p.launched@[a]);
            }
            assert(false);
        }
        assert(p.launched@[a] == k - 1 && p.launched@[b] == k + 1 && a < b);
    }
}

} // verus!
