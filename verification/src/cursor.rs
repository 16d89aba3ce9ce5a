//! The cursor: one counter that hands each integer of `1..=bound` out once.

use vstd::prelude::*;

verus! {

/// The work counter. It holds the number of requests served so far, which is
/// also the last integer it moved to.
pub struct Cursor {
    current: u128,
}

impl View for Cursor {
    type V = nat;

    /// The number of requests served so far.
    closed spec fn view(&self) -> nat {
        self.current as nat
    }
}

/// What a request hands out when `served` requests came before it: the next
/// integer while it is within `bound`, and 0, the sign that no work is left,
/// from then on.
pub open spec fn issue(served: nat, bound: nat) -> nat {
    if served + 1 > bound {
        0
    } else {
        served + 1
    }
}

impl Cursor {
    /// A cursor that has served no request yet.
    pub fn new() -> (cursor: Cursor)
        ensures
            cursor@ == 0,
    {
        Cursor { current: 0 }
    }

    /// The number of requests served so far.
    pub fn served(&self) -> (n: u128)
        ensures
            n == self@,
    {
        self.current
    }
}

/// Serves one request: moves the cursor one step and hands out the integer it
/// reached, or 0 once that integer lies beyond `max_number`.
///
/// The caller holds the cursor exclusively for the call, so no two requests
/// see the same step.
pub fn next_number(cursor: &mut Cursor, max_number: u128) -> (n: u128)
    requires
        old(cursor)@ < u128::MAX,
    ensures
        final(cursor)@ == old(cursor)@ + 1,
        n == issue(old(cursor)@, max_number as nat),
{
    cursor.current = cursor.current + 1;
    let new_number: u128 = cursor.current;
    if new_number > max_number {
        return 0;
    }
    new_number
}

/// What `calls` requests in a row hand out, in their order, when `start`
/// requests were served before the first of them.
pub open spec fn drained(start: nat, bound: nat, calls: nat) -> Seq<nat>
    decreases calls,
{
    if calls == 0 {
        Seq::empty()
    } else {
        drained(start, bound, (calls - 1) as nat).push(issue((start + calls - 1) as nat, bound))
    }
}

/// A new cursor hands out 1, 2, ..., `bound` in this order and 0 from then
/// on, whoever asks: every integer of `1..=bound` is handed out by exactly one
/// request, the one in its own place, and 0 is handed out by no request before
/// all of them are out.
pub proof fn lemma_drain_issues_each_once(bound: nat, calls: nat)
    ensures
        drained(0, bound, calls).len() == calls,
        forall|i: int|
            0 <= i < calls ==> #[trigger] drained(0, bound, calls)[i] == if i < bound {
                i + 1
            } else {
                0
            },
        forall|n: nat|
            1 <= n <= bound && n <= calls ==> #[trigger] drained(0, bound, calls).contains(n),
        forall|i: int, j: int|
            0 <= i < j < calls && #[trigger] drained(0, bound, calls)[i] == #[trigger] drained(
                0,
                bound,
                calls,
            )[j] ==> i >= bound,
    decreases calls,
{
    if calls > 0 {
        lemma_drain_issues_each_once(bound, (calls - 1) as nat);
    }
    assert forall|n: nat| 1 <= n <= bound && n <= calls implies #[trigger] drained(
        0,
        bound,
        calls,
    ).contains(n) by {
        assert(drained(0, bound, calls)[n - 1] == n);
    }
}

} // verus!
