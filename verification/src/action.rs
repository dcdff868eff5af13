//! Actions: named, fixed-cost transformations of a property map.

use vstd::prelude::*;

use crate::kvseq::{kv_distinct, kv_map};
use crate::limits::{DELTA_LIMIT, DURATION_LIMIT};
use crate::lookup0;

verus! {

/// Ghost image of an action: its time cost and its per-property shifts.
pub struct ActionView {
    pub duration: int,
    pub deltas: Map<Seq<char>, int>,
}

/// A fixed-duration transformation that shifts named properties by fixed
/// signed deltas. An action is invalid in a state where some shifted
/// property would end up negative; applying it there produces no successor.
pub struct Action {
    pub duration: i64,
    pub deltas: Vec<(String, i64)>,
}

impl View for Action {
    type V = ActionView;

    open spec fn view(&self) -> ActionView {
        ActionView { duration: self.duration as int, deltas: kv_map(self.deltas@) }
    }
}

impl Action {
    /// A well-formed action: duration and deltas inside the representable
    /// range, and each property shifted at most once.
    pub open spec fn wf(&self) -> bool {
        &&& 0 <= self.duration <= DURATION_LIMIT
        &&& kv_distinct(self.deltas@)
        &&& forall|i: int|
            0 <= i < self.deltas@.len() ==> -DELTA_LIMIT <= (#[trigger] self.deltas@[i]).1
                <= DELTA_LIMIT
    }
}

impl Clone for Action {
    /// An exact copy: same duration, same deltas in the same order.
    fn clone(&self) -> (res: Self)
        ensures
            res.duration == self.duration,
            res.deltas@ == self.deltas@,
            res@ == self@,
            res.wf() == self.wf(),
    {
        let mut deltas: Vec<(String, i64)> = Vec::new();
        let mut i: usize = 0;
        while i < self.deltas.len()
            invariant
                0 <= i <= self.deltas@.len(),
                deltas@.len() == i as int,
                forall|j: int| 0 <= j < i as int ==> deltas@[j] == self.deltas@[j],
            decreases self.deltas@.len() - i,
        {
            let pair = &self.deltas[i];
            deltas.push((pair.0.clone(), pair.1));
            i = i + 1;
        }
        proof {
            assert(deltas@ =~= self.deltas@);
        }
        Action { duration: self.duration, deltas }
    }
}

/// An action's ghost image inside the representable range.
pub open spec fn action_view_wf(a: ActionView) -> bool {
    &&& 0 <= a.duration <= DURATION_LIMIT
    &&& crate::map_bounded(a.deltas, DELTA_LIMIT as int)
}

/// A well-formed action has a well-formed ghost image.
pub proof fn lemma_action_wf_view(a: Action)
    requires
        a.wf(),
    ensures
        action_view_wf(a@),
{
    assert forall|k: Seq<char>| a@.deltas.dom().contains(k) implies -DELTA_LIMIT
        <= #[trigger] a@.deltas[k] <= DELTA_LIMIT by {
        crate::kvseq::lemma_kv_get_bounded(a.deltas@, DELTA_LIMIT as int, k);
    }
}

/// Can the deltas `d` be applied to the state `s`? Every shifted property
/// must stay at or above zero and inside the machine range.
pub open spec fn action_applies(s: Map<Seq<char>, int>, d: Map<Seq<char>, int>) -> bool {
    forall|k: Seq<char>|
        d.dom().contains(k) ==> 0 <= lookup0(s, k) + d[k] <= i64::MAX
}

/// The state that applying the deltas `d` to the state `s` produces:
/// shifted properties move by their delta, all others carry over.
pub open spec fn apply_deltas(s: Map<Seq<char>, int>, d: Map<Seq<char>, int>) -> Map<
    Seq<char>,
    int,
> {
    Map::new(
        |k: Seq<char>| s.dom().contains(k) || d.dom().contains(k),
        |k: Seq<char>|
            if d.dom().contains(k) {
                lookup0(s, k) + d[k]
            } else {
                s[k]
            },
    )
}

} // verus!
