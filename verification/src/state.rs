//! The immutable world state: a map from property name to integer value.

use vstd::prelude::*;
use vstd::std_specs::iter::IteratorSpec;

use crate::action::{action_applies, apply_deltas, Action};
use crate::kvseq::{
    kv_distinct, kv_get, kv_has, kv_map, lemma_kv_get_at_index, lemma_kv_get_first_match,
    lemma_kv_push, lemma_kv_update_other,
};
use crate::lookup0;

verus! {

/// The running polynomial hash of a property name's characters, kept
/// below two to the thirty-second.
pub open spec fn char_seq_hash(s: Seq<char>) -> int
    decreases s.len(),
{
    if s.len() == 0 {
        0
    } else {
        (char_seq_hash(s.drop_last()) * 31 + (s.last() as u32) as int) % 0x1_0000_0000
    }
}

/// The hash of one property binding: its name's hash combined with its
/// value, shifted into the non-negative range.
pub open spec fn pair_hash(k: Seq<char>, v: int) -> int {
    (char_seq_hash(k) * 31 + (v + 0x8000_0000_0000_0000) % 0x1_0000_0000) % 0x1_0000_0000
}

/// One step of the order-independent accumulation: add a binding's hash
/// and reduce.
pub open spec fn hash_step_fn() -> spec_fn(int, (Seq<char>, int)) -> int {
    |acc: int, p: (Seq<char>, int)| (acc + pair_hash(p.0, p.1)) % 0x1_0000_0000
}

/// The bindings of a stored pair sequence, as ghost values.
pub open spec fn pairs_views(s: Seq<(String, i64)>) -> Seq<(Seq<char>, int)> {
    s.map_values(|p: (String, i64)| (p.0@, p.1 as int))
}

/// The hash of a sequence of bindings: their hashes summed modulo two to
/// the thirty-second, a commutative combination, so the stored order
/// cannot influence it.
pub open spec fn pairs_hash(pv: Seq<(Seq<char>, int)>) -> int {
    pv.fold_left(0, hash_step_fn())
}

/// The polynomial hash of a name, computed exactly.
fn str_hash(s: &str) -> (r: u64)
    ensures
        r as int == char_seq_hash(s@),
        r < 0x1_0000_0000,
{
    let ghost total = s@;
    let mut it = s.chars();
    let mut h: u64 = 0;
    let ghost mut k: int = 0;
    proof {
        assert(total.take(0) =~= Seq::<char>::empty());
    }
    loop
        invariant
            0 <= k <= total.len(),
            it.remaining() == total.skip(k),
            h as int == char_seq_hash(total.take(k)),
            h < 0x1_0000_0000,
        ensures
            h as int == char_seq_hash(total),
            h < 0x1_0000_0000,
        decreases total.len() - k,
    {
        proof {
            broadcast use vstd::string::next_postcondition;

        }
        let ghost it_before = it;
        match it.next() {
            Some(c) => {
                proof {
                    assert(it_before.remaining().len() > 0);
                    assert(c == total.skip(k)[0]);
                    assert(c == total[k]);
                    assert(it.remaining() == it_before.remaining().drop_first());
                    assert(total.skip(k).drop_first() =~= total.skip(k + 1));
                }
                let cu: u64 = (c as u32) as u64;
                h = (h * 31 + cu) % 0x1_0000_0000;
                proof {
                    k = k + 1;
                    assert(total.take(k).drop_last() =~= total.take(k - 1));
                    assert(total.take(k).last() == total[k - 1]);
                }
            },
            None => {
                proof {
                    assert(it_before.remaining().len() == 0);
                    assert(k == total.len());
                    assert(total.take(k) =~= total);
                }
                break ;
            },
        }
    }
    h
}

/// A snapshot of the world: named integer property values. Two states mean
/// the same thing exactly when they bind the same names to the same values;
/// the order in which the bindings were made carries no meaning.
pub struct State {
    props: Vec<(String, i64)>,
}

impl View for State {
    type V = Map<Seq<char>, int>;

    closed spec fn view(&self) -> Map<Seq<char>, int> {
        kv_map(self.props@)
    }
}

impl State {
    /// A well-formed state stores each property name once.
    pub closed spec fn wf(&self) -> bool {
        kv_distinct(self.props@)
    }

    /// The state with no properties; every name reads as zero.
    pub fn new() -> (s: State)
        ensures
            s@ == Map::<Seq<char>, int>::empty(),
            s.wf(),
    {
        let s = State { props: Vec::new() };
        proof {
            assert(s@ =~= Map::<Seq<char>, int>::empty());
        }
        s
    }

    /// The stored property names, one entry per property.
    pub fn keys(&self) -> (r: Vec<String>)
        requires
            self.wf(),
        ensures
            forall|i: int| 0 <= i < r@.len() ==> self@.dom().contains((#[trigger] r@[i])@),
            forall|k: Seq<char>|
                self@.dom().contains(k) ==> exists|i: int| 0 <= i < r@.len() && r@[i]@ == k,
            forall|i: int, j: int| 0 <= i < j < r@.len() ==> r@[i]@ != r@[j]@,
    {
        let mut r: Vec<String> = Vec::new();
        let mut i: usize = 0;
        while i < self.props.len()
            invariant
                0 <= i <= self.props@.len(),
                r@.len() == i as int,
                forall|j: int| 0 <= j < i as int ==> (#[trigger] r@[j])@ == self.props@[j].0@,
            decreases self.props@.len() - i,
        {
            r.push(self.props[i].0.clone());
            i = i + 1;
        }
        proof {
            assert forall|j: int| 0 <= j < r@.len() implies self@.dom().contains(
                (#[trigger] r@[j])@,
            ) by {
                assert(kv_has(self.props@, self.props@[j].0@));
            }
            assert forall|k: Seq<char>| self@.dom().contains(k) implies exists|j: int|
                0 <= j < r@.len() && r@[j]@ == k by {
                let j = choose|j: int| 0 <= j < self.props@.len() && self.props@[j].0@ == k;
                assert(r@[j]@ == k);
            }
        }
        r
    }

    /// The value stored for `key`, if any.
    pub fn get(&self, key: &str) -> (r: Option<i64>)
        ensures
            match r {
                Some(v) => self@.dom().contains(key@) && self@[key@] == v as int,
                None => !self@.dom().contains(key@),
            },
    {
        let wanted: String = key.to_owned();
        let mut i: usize = 0;
        while i < self.props.len()
            invariant
                0 <= i <= self.props@.len(),
                wanted@ == key@,
                forall|j: int| 0 <= j < i as int ==> (#[trigger] self.props@[j]).0@ != key@,
            decreases self.props@.len() - i,
        {
            if self.props[i].0 == wanted {
                proof {
                    lemma_kv_get_first_match(self.props@, key@, i as int);
                }
                return Some(self.props[i].1);
            }
            i = i + 1;
        }
        None
    }

    /// Bind `key` to `value`, replacing any earlier binding.
    pub fn insert(&mut self, key: String, value: i64)
        requires
            old(self).wf(),
        ensures
            final(self).wf(),
            final(self)@ == old(self)@.insert(key@, value as int),
    {
        let ghost s0 = self.props@;
        let mut i: usize = 0;
        while i < self.props.len()
            invariant
                0 <= i <= self.props@.len(),
                self.props@ == s0,
                s0 == old(self).props@,
                kv_distinct(s0),
                forall|j: int| 0 <= j < i as int ==> (#[trigger] s0[j]).0@ != key@,
            decreases self.props@.len() - i,
        {
            if self.props[i].0 == key {
                let ghost kview = key@;
                self.props[i] = (key, value);
                proof {
                    assert(self.props@ == s0.update(i as int, (key, value)));
                    assert forall|a: int, b: int|
                        0 <= a < b < self.props@.len() implies self.props@[a].0@
                        != self.props@[b].0@ by {
                        assert(s0[a].0@ != s0[b].0@);
                    }
                    lemma_kv_get_first_match(self.props@, kview, i as int);
                    assert forall|k: Seq<char>| k != kview implies {
                        &&& kv_has(self.props@, k) == kv_has(s0, k)
                        &&& kv_get(self.props@, k) == kv_get(s0, k)
                    } by {
                        lemma_kv_update_other(s0, i as int, (key, value), k);
                    }
                    assert(self@ =~= old(self)@.insert(kview, value as int));
                }
                return ;
            }
            i = i + 1;
        }
        proof {
            assert(!kv_has(s0, key@));
        }
        let ghost kview = key@;
        self.props.push((key, value));
        proof {
            assert forall|a: int, b: int|
                0 <= a < b < self.props@.len() implies self.props@[a].0@
                != self.props@[b].0@ by {
                if b < s0.len() {
                    assert(s0[a].0@ != s0[b].0@);
                } else {
                    assert(self.props@[b].0@ == kview);
                    assert(self.props@[a].0@ == s0[a].0@);
                }
            }
            assert forall|k: Seq<char>| true implies {
                &&& (kv_has(self.props@, k) <==> (kv_has(s0, k) || kview == k))
                &&& (kv_has(s0, k) ==> kv_get(self.props@, k) == kv_get(s0, k))
                &&& (!kv_has(s0, k) && kview == k ==> kv_get(self.props@, k)
                    == value as int)
            } by {
                lemma_kv_push(s0, self.props@[s0.len() as int], k);
            }
            assert(self@ =~= old(self)@.insert(kview, value as int));
        }
    }

    /// Try to apply an action: every shifted property moves by its delta and
    /// must stay at or above zero, all other properties carry over. If any
    /// shifted property would end up negative (or outside the machine
    /// range), the whole application fails and no successor is produced.
    pub fn apply(&self, action: &Action) -> (r: Option<State>)
        requires
            self.wf(),
            action.wf(),
        ensures
            match r {
                Some(s2) => {
                    &&& action_applies(self@, action@.deltas)
                    &&& s2@ == apply_deltas(self@, action@.deltas)
                    &&& s2.wf()
                },
                None => !action_applies(self@, action@.deltas),
            },
    {
        let ghost ds = action.deltas@;
        let mut out = self.clone();
        let mut i: usize = 0;
        while i < action.deltas.len()
            invariant
                0 <= i <= ds.len(),
                action.deltas@ == ds,
                self.wf(),
                action.wf(),
                out.wf(),
                out@ == apply_deltas(self@, kv_map(ds.take(i as int))),
                forall|j: int|
                    0 <= j < i as int ==> 0 <= lookup0(self@, (#[trigger] ds[j]).0@) + ds[j].1
                        <= i64::MAX,
            decreases ds.len() - i,
        {
            let key = &action.deltas[i];
            let old_v: i64 = match self.get(key.0.as_str()) {
                Some(v) => v,
                None => 0,
            };
            proof {
                assert(old_v as int == lookup0(self@, ds[i as int].0@));
            }
            let new_v: i64 = match old_v.checked_add(key.1) {
                Some(v) => v,
                None => {
                    proof {
                        lemma_kv_get_at_index(ds, i as int);
                        assert(action@.deltas.dom().contains(ds[i as int].0@));
                        assert(!action_applies(self@, action@.deltas));
                    }
                    return None;
                },
            };
            if new_v < 0 {
                proof {
                    lemma_kv_get_at_index(ds, i as int);
                    assert(action@.deltas.dom().contains(ds[i as int].0@));
                    assert(!action_applies(self@, action@.deltas));
                }
                return None;
            }
            let ghost out_before = out@;
            out.insert(key.0.clone(), new_v);
            proof {
                let ghost kview = ds[i as int].0@;
                assert(ds.take(i as int + 1) =~= ds.take(i as int).push(ds[i as int]));
                assert(!kv_has(ds.take(i as int), kview)) by {
                    if kv_has(ds.take(i as int), kview) {
                        let j = choose|j: int|
                            0 <= j < i as int && ds.take(i as int)[j].0@ == kview;
                        assert(ds[j].0@ == ds[i as int].0@);
                    }
                }
                assert forall|k: Seq<char>| true implies {
                    &&& (kv_has(ds.take(i as int + 1), k) <==> (kv_has(ds.take(i as int), k)
                        || kview == k))
                    &&& (kv_has(ds.take(i as int), k) ==> kv_get(ds.take(i as int + 1), k)
                        == kv_get(ds.take(i as int), k))
                    &&& (!kv_has(ds.take(i as int), k) && kview == k ==> kv_get(
                        ds.take(i as int + 1),
                        k,
                    ) == ds[i as int].1 as int)
                } by {
                    lemma_kv_push(ds.take(i as int), ds[i as int], k);
                }
                assert(out@ =~= apply_deltas(self@, kv_map(ds.take(i as int + 1))));
            }
            i = i + 1;
        }
        proof {
            assert(ds.take(ds.len() as int) =~= ds);
            assert(action_applies(self@, action@.deltas)) by {
                assert forall|k: Seq<char>| action@.deltas.dom().contains(k) implies 0 <= lookup0(
                    self@,
                    k,
                ) + action@.deltas[k] <= i64::MAX by {
                    let j = choose|j: int| 0 <= j < ds.len() && ds[j].0@ == k;
                    lemma_kv_get_at_index(ds, j);
                }
            }
        }
        Some(out)
    }
}

impl State {
    /// The state's hash, a pure function of its content (see
    /// `lemma_state_hash_is_content_hash`).
    pub closed spec fn hash_spec(&self) -> int {
        pairs_hash(pairs_views(self.props@))
    }

    /// An order-independent hash of the state's content: the bindings'
    /// hashes are summed modulo two to the thirty-second, so two states
    /// holding the same bindings hash identically however they were built.
    pub fn content_hash(&self) -> (r: u64)
        ensures
            r as int == self.hash_spec(),
    {
        let ghost pv = pairs_views(self.props@);
        let mut acc: u64 = 0;
        let mut i: usize = 0;
        proof {
            assert(pv.take(0) =~= Seq::<(Seq<char>, int)>::empty());
        }
        while i < self.props.len()
            invariant
                0 <= i <= self.props@.len(),
                pv == pairs_views(self.props@),
                pv.len() == self.props@.len(),
                acc as int == pairs_hash(pv.take(i as int)),
                acc < 0x1_0000_0000,
            decreases self.props@.len() - i,
        {
            let pair = &self.props[i];
            let kh = str_hash(pair.0.as_str());
            let shifted: u64 = ((pair.1 as i128) + 0x8000_0000_0000_0000i128) as u64;
            let vh: u64 = shifted % 0x1_0000_0000;
            let ph: u64 = (kh * 31 + vh) % 0x1_0000_0000;
            proof {
                assert(pv[i as int] == (self.props@[i as int].0@, self.props@[i as int].1 as int));
                assert(ph as int == pair_hash(pv[i as int].0, pv[i as int].1));
                assert(pv.take(i as int + 1).drop_last() =~= pv.take(i as int));
                assert(pv.take(i as int + 1).last() == pv[i as int]);
            }
            acc = (acc + ph) % 0x1_0000_0000;
            i = i + 1;
        }
        proof {
            assert(pv.take(self.props@.len() as int) =~= pv);
        }
        acc
    }
}

/// Law (no negative property appears): applying an action to a state with
/// no negative property value never yields a state with one — a shifted
/// property is checked, and an untouched property carries its value over.
/// A property absent from both the prior state and the deltas reads as
/// zero before and after.
pub proof fn lemma_apply_never_negative(s: Map<Seq<char>, int>, d: Map<Seq<char>, int>)
    requires
        action_applies(s, d),
        forall|k: Seq<char>| s.dom().contains(k) ==> #[trigger] s[k] >= 0,
    ensures
        forall|k: Seq<char>|
            apply_deltas(s, d).dom().contains(k) ==> #[trigger] apply_deltas(s, d)[k] >= 0,
        forall|k: Seq<char>|
            !s.dom().contains(k) && !d.dom().contains(k) ==> lookup0(s, k) == 0 && #[trigger]
            lookup0(apply_deltas(s, d), k) == 0,
{
    let s2 = apply_deltas(s, d);
    assert forall|k: Seq<char>| s2.dom().contains(k) implies #[trigger] s2[k] >= 0 by {
        if d.dom().contains(k) {
            assert(0 <= lookup0(s, k) + d[k]);
        }
    }
}

/// Law (equality and hash are pure functions of content): two well-formed
/// states with the same property map — built through whatever insertion
/// orders — hash identically; `==` on states means map equality by
/// construction.
pub proof fn lemma_state_hash_is_content_hash(s1: State, s2: State)
    requires
        s1.wf(),
        s2.wf(),
        s1@ == s2@,
    ensures
        s1.hash_spec() == s2.hash_spec(),
{
    broadcast use vstd::seq_lib::group_to_multiset_ensures;

    let p1 = pairs_views(s1.props@);
    let p2 = pairs_views(s2.props@);
    assert forall|i: int, j: int| 0 <= i < j < p1.len() implies p1[i] != p1[j] by {
        assert(s1.props@[i].0@ != s1.props@[j].0@);
    }
    assert(p1.no_duplicates());
    assert forall|i: int, j: int| 0 <= i < j < p2.len() implies p2[i] != p2[j] by {
        assert(s2.props@[i].0@ != s2.props@[j].0@);
    }
    assert(p2.no_duplicates());
    assert forall|x: (Seq<char>, int)| p1.contains(x) implies p2.contains(x) by {
        let i = choose|i: int| 0 <= i < p1.len() && p1[i] == x;
        lemma_kv_get_at_index(s1.props@, i);
        let k = s1.props@[i].0@;
        assert(s1@.dom().contains(k) && s1@[k] == s1.props@[i].1 as int);
        assert(kv_has(s2.props@, k));
        let j = choose|j: int| 0 <= j < s2.props@.len() && s2.props@[j].0@ == k;
        lemma_kv_get_at_index(s2.props@, j);
        assert(s2.props@[j].1 as int == s2@[k]);
        assert(p2[j] == x);
    }
    assert forall|x: (Seq<char>, int)| p2.contains(x) implies p1.contains(x) by {
        let i = choose|i: int| 0 <= i < p2.len() && p2[i] == x;
        lemma_kv_get_at_index(s2.props@, i);
        let k = s2.props@[i].0@;
        assert(s2@.dom().contains(k) && s2@[k] == s2.props@[i].1 as int);
        assert(kv_has(s1.props@, k));
        let j = choose|j: int| 0 <= j < s1.props@.len() && s1.props@[j].0@ == k;
        lemma_kv_get_at_index(s1.props@, j);
        assert(s1.props@[j].1 as int == s1@[k]);
        assert(p1[j] == x);
    }
    p1.lemma_multiset_has_no_duplicates();
    p2.lemma_multiset_has_no_duplicates();
    assert forall|x: (Seq<char>, int)|
        #[trigger] p1.to_multiset().count(x) == p2.to_multiset().count(x) by {
        if p1.contains(x) {
            assert(p1.to_multiset().count(x) == 1 && p2.to_multiset().count(x) == 1);
        } else {
            assert(!p2.contains(x));
            assert(p1.to_multiset().count(x) == 0 && p2.to_multiset().count(x) == 0);
        }
    }
    assert(p1.to_multiset() =~= p2.to_multiset());
    assert(vstd::seq_lib::commutative_foldl(hash_step_fn())) by {
        let f = hash_step_fn();
        assert forall|x: (Seq<char>, int), y: (Seq<char>, int), v: int|
            #[trigger] f(f(v, x), y) == f(f(v, y), x) by {
            let m = 0x1_0000_0000int;
            vstd::arithmetic::div_mod::lemma_add_mod_noop(v + pair_hash(x.0, x.1), pair_hash(y.0, y.1), m);
            vstd::arithmetic::div_mod::lemma_add_mod_noop(v + pair_hash(y.0, y.1), pair_hash(x.0, x.1), m);
            vstd::arithmetic::div_mod::lemma_mod_twice(pair_hash(x.0, x.1), m);
            vstd::arithmetic::div_mod::lemma_mod_twice(pair_hash(y.0, y.1), m);
        }
    }
    vstd::seq_lib::lemma_fold_left_permutation(p1, p2, hash_step_fn(), 0int);
}

impl Clone for State {
    /// An exact copy: the same bindings in the same stored order.
    fn clone(&self) -> (res: Self)
        ensures
            res@ == self@,
            res.wf() == self.wf(),
    {
        let mut props: Vec<(String, i64)> = Vec::new();
        let mut i: usize = 0;
        while i < self.props.len()
            invariant
                0 <= i <= self.props@.len(),
                props@.len() == i as int,
                forall|j: int| 0 <= j < i as int ==> props@[j] == self.props@[j],
            decreases self.props@.len() - i,
        {
            let pair = &self.props[i];
            props.push((pair.0.clone(), pair.1));
            i = i + 1;
        }
        proof {
            assert(props@ =~= self.props@);
        }
        State { props }
    }
}

impl PartialEq for State {
    /// Value equality: the two states bind the same names to the same
    /// values, whatever order the bindings were made in.
    fn eq(&self, other: &Self) -> (r: bool)
    {
        let mut i: usize = 0;
        while i < self.props.len()
            invariant
                0 <= i <= self.props@.len(),
                forall|j: int|
                    0 <= j < i as int ==> {
                        let k = (#[trigger] self.props@[j]).0@;
                        other@.dom().contains(k) && other@[k] == kv_get(self.props@, k)
                    },
            decreases self.props@.len() - i,
        {
            let k = &self.props[i].0;
            let mine = match self.get(k.as_str()) {
                Some(v) => v,
                None => {
                    proof {
                        assert(kv_has(self.props@, self.props@[i as int].0@));
                        assert(false);
                    }
                    0
                },
            };
            match other.get(k.as_str()) {
                Some(v) => {
                    if v != mine {
                        proof {
                            let kk = self.props@[i as int].0@;
                            assert(self@[kk] != other@[kk]);
                        }
                        return false;
                    }
                },
                None => {
                    proof {
                        let kk = self.props@[i as int].0@;
                        assert(self@.dom().contains(kk) && !other@.dom().contains(kk));
                    }
                    return false;
                },
            }
            i = i + 1;
        }
        let mut j: usize = 0;
        while j < other.props.len()
            invariant
                0 <= j <= other.props@.len(),
                forall|l: int|
                    0 <= l < self.props@.len() ==> {
                        let k = (#[trigger] self.props@[l]).0@;
                        other@.dom().contains(k) && other@[k] == kv_get(self.props@, k)
                    },
                forall|l: int|
                    0 <= l < j as int ==> self@.dom().contains(
                        (#[trigger] other.props@[l]).0@,
                    ),
            decreases other.props@.len() - j,
        {
            let k = &other.props[j].0;
            match self.get(k.as_str()) {
                Some(_) => {},
                None => {
                    proof {
                        let kk = other.props@[j as int].0@;
                        assert(kv_has(other.props@, kk));
                        assert(other@.dom().contains(kk) && !self@.dom().contains(kk));
                    }
                    return false;
                },
            }
            j = j + 1;
        }
        proof {
            assert forall|k: Seq<char>| self@.dom().contains(k) implies other@.dom().contains(k)
                && other@[k] == self@[k] by {
                let l = choose|l: int| 0 <= l < self.props@.len() && self.props@[l].0@ == k;
                assert(self.props@[l].0@ == k);
            }
            assert forall|k: Seq<char>| other@.dom().contains(k) implies self@.dom().contains(
                k,
            ) by {
                let l = choose|l: int| 0 <= l < other.props@.len() && other.props@[l].0@ == k;
                assert(other.props@[l].0@ == k);
            }
            assert(self@ =~= other@);
        }
        true
    }
}

impl vstd::std_specs::cmp::PartialEqSpecImpl for State {
    open spec fn obeys_eq_spec() -> bool {
        true
    }

    open spec fn eq_spec(&self, other: &State) -> bool {
        self@ == other@
    }
}

} // verus!
