//! Shared meaning of a search result: replaying a plan, and the exact
//! fixed-point arithmetic of the efficiency metrics.

use vstd::prelude::*;

use crate::action::{action_applies, apply_deltas, Action, ActionView};
use crate::limits::{DELTA_LIMIT, DURATION_LIMIT, INFINITE_COST, VALUE_LIMIT};
use crate::map_bounded;

verus! {

/// Does every action of the list apply in turn, starting from `s`?
pub open spec fn replay_ok(s: Map<Seq<char>, int>, items: Seq<(Seq<char>, ActionView)>) -> bool
    decreases items.len(),
{
    items.len() == 0 || (action_applies(s, items[0].1.deltas) && replay_ok(
        apply_deltas(s, items[0].1.deltas),
        items.drop_first(),
    ))
}

/// The state the list of actions leads to from `s`.
pub open spec fn replay_state(s: Map<Seq<char>, int>, items: Seq<(Seq<char>, ActionView)>) -> Map<
    Seq<char>,
    int,
>
    decreases items.len(),
{
    if items.len() == 0 {
        s
    } else {
        replay_state(apply_deltas(s, items[0].1.deltas), items.drop_first())
    }
}

/// The summed duration of the list of actions.
pub open spec fn replay_time(items: Seq<(Seq<char>, ActionView)>) -> int
    decreases items.len(),
{
    if items.len() == 0 {
        0
    } else {
        items[0].1.duration + replay_time(items.drop_first())
    }
}

/// Prepending one applicable action to a valid replay gives a valid replay.
pub proof fn lemma_replay_cons(
    s: Map<Seq<char>, int>,
    head: (Seq<char>, ActionView),
    rest: Seq<(Seq<char>, ActionView)>,
)
    ensures
        (seq![head] + rest).drop_first() == rest,
        (seq![head] + rest)[0] == head,
        replay_ok(s, seq![head] + rest) == (action_applies(s, head.1.deltas) && replay_ok(
            apply_deltas(s, head.1.deltas),
            rest,
        )),
        replay_state(s, seq![head] + rest) == replay_state(apply_deltas(s, head.1.deltas), rest),
        replay_time(seq![head] + rest) == head.1.duration + replay_time(rest),
{
    assert((seq![head] + rest).drop_first() =~= rest);
    assert((seq![head] + rest)[0] == head);
}

/// Every action of the library is inside the representable range.
pub open spec fn acts_view_wf(acts: Seq<(Seq<char>, ActionView)>) -> bool {
    forall|i: int|
        0 <= i < acts.len() ==> crate::action::action_view_wf((#[trigger] acts[i]).1)
}

/// Every action carried by a plan or history is well formed.
pub open spec fn plan_acts_wf(v: Seq<(String, Action)>) -> bool {
    forall|i: int| 0 <= i < v.len() ==> (#[trigger] v[i]).1.wf()
}

/// Appending one action to a valid replay: the replay stays valid exactly
/// when the action applies in the state the replay leads to.
pub proof fn lemma_replay_snoc(
    s: Map<Seq<char>, int>,
    items: Seq<(Seq<char>, ActionView)>,
    x: (Seq<char>, ActionView),
)
    requires
        replay_ok(s, items),
        action_applies(replay_state(s, items), x.1.deltas),
    ensures
        replay_ok(s, items.push(x)),
        replay_state(s, items.push(x)) == apply_deltas(replay_state(s, items), x.1.deltas),
        replay_time(items.push(x)) == replay_time(items) + x.1.duration,
    decreases items.len(),
{
    let p = items.push(x);
    if items.len() == 0 {
        assert(p.drop_first() =~= Seq::<(Seq<char>, ActionView)>::empty());
        assert(p[0] == x);
        assert(replay_ok(apply_deltas(s, p[0].1.deltas), p.drop_first()));
        assert(replay_ok(s, p));
        assert(replay_state(apply_deltas(s, p[0].1.deltas), p.drop_first()) == apply_deltas(
            s,
            x.1.deltas,
        ));
        assert(replay_state(s, p) == apply_deltas(s, x.1.deltas));
        assert(replay_time(p) == x.1.duration + replay_time(p.drop_first()));
    } else {
        assert(p[0] == items[0]);
        assert(p.drop_first() =~= items.drop_first().push(x));
        let s1 = apply_deltas(s, items[0].1.deltas);
        assert(replay_ok(s1, items.drop_first()));
        assert(replay_state(s, items) == replay_state(s1, items.drop_first()));
        lemma_replay_snoc(s1, items.drop_first(), x);
        assert(replay_ok(s1, p.drop_first()));
        assert(replay_ok(s, p));
        assert(replay_state(s, p) == replay_state(s1, p.drop_first()));
        assert(replay_time(p) == items[0].1.duration + replay_time(p.drop_first()));
        assert(replay_time(items) == items[0].1.duration + replay_time(items.drop_first()));
    }
}

/// A library of well-formed actions has a well-formed ghost image.
pub proof fn lemma_plan_acts_wf_views(v: Seq<(String, Action)>)
    requires
        plan_acts_wf(v),
    ensures
        acts_view_wf(crate::model::acts_view(v)),
{
    let av = crate::model::acts_view(v);
    assert forall|i: int| 0 <= i < av.len() implies crate::action::action_view_wf(
        (#[trigger] av[i]).1,
    ) by {
        assert(v[i].1.wf());
        crate::action::lemma_action_wf_view(v[i].1);
    }
}

/// Applying bounded deltas to a bounded state keeps it bounded, one delta
/// limit wider.
pub proof fn lemma_apply_preserves_bound(
    s: Map<Seq<char>, int>,
    d: Map<Seq<char>, int>,
    b: int,
)
    requires
        map_bounded(s, b),
        map_bounded(d, DELTA_LIMIT as int),
        b >= 0,
    ensures
        map_bounded(apply_deltas(s, d), b + DELTA_LIMIT),
{
    let s2 = apply_deltas(s, d);
    assert forall|k: Seq<char>| s2.dom().contains(k) implies -(b + DELTA_LIMIT) <= #[trigger] s2[k]
        <= b + DELTA_LIMIT by {
        if d.dom().contains(k) {
            assert(-b <= crate::lookup0(s, k) <= b);
        }
    }
}

/// The reciprocal-style metric `num / den` rounded down, with a zero
/// denominator standing for an infinite cost. A negative denominator
/// divides the magnitudes and negates, so the quotient magnitude never
/// exceeds `num`.
pub open spec fn ratio_floor(num: int, den: int) -> int {
    if den == 0 {
        INFINITE_COST as int
    } else if den > 0 {
        num / den
    } else {
        -(num / (-den))
    }
}

/// Compute `ratio_floor` exactly.
pub(crate) fn ratio_floor_exec(num: i128, den: i128) -> (r: i128)
    requires
        0 <= num <= 100_000_000_000_000_000,
        -10_000_000_000_000_000_000_000_000_000_000 <= den
            <= 10_000_000_000_000_000_000_000_000_000_000,
    ensures
        r == ratio_floor(num as int, den as int),
        -num <= r <= INFINITE_COST,
        den > 0 ==> 0 <= r <= num,
{
    if den == 0 {
        INFINITE_COST
    } else if den > 0 {
        num / den
    } else {
        -(num / (-den))
    }
}

} // verus!
