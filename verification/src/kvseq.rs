//! Sequences of `(name, value)` pairs viewed as a finite map.
//!
//! Both states and action deltas store their properties as a vector of
//! pairs. These functions give such a sequence its meaning as a map from
//! property name to value, where the first occurrence of a name wins and an
//! absent name reads as zero.

use vstd::prelude::*;

verus! {

/// Does the sequence bind the name `k`?
pub open spec fn kv_has(s: Seq<(String, i64)>, k: Seq<char>) -> bool {
    exists|i: int| 0 <= i < s.len() && s[i].0@ == k
}

/// The value the sequence binds `k` to: the first occurrence wins, and an
/// absent name reads as zero.
pub open spec fn kv_get(s: Seq<(String, i64)>, k: Seq<char>) -> int
    decreases s.len(),
{
    if s.len() == 0 {
        0
    } else if s[0].0@ == k {
        s[0].1 as int
    } else {
        kv_get(s.drop_first(), k)
    }
}

/// The map a key-value sequence denotes.
pub open spec fn kv_map(s: Seq<(String, i64)>) -> Map<Seq<char>, int> {
    Map::new(|k: Seq<char>| kv_has(s, k), |k: Seq<char>| kv_get(s, k))
}

/// No name occurs twice.
pub open spec fn kv_distinct(s: Seq<(String, i64)>) -> bool {
    forall|i: int, j: int| 0 <= i < j < s.len() ==> s[i].0@ != s[j].0@
}

/// A name bound nowhere reads as zero.
pub proof fn lemma_kv_get_absent(s: Seq<(String, i64)>, k: Seq<char>)
    requires
        !kv_has(s, k),
    ensures
        kv_get(s, k) == 0,
    decreases s.len(),
{
    if s.len() > 0 {
        assert(s[0].0@ != k);
        assert(forall|i: int|
            0 <= i < s.drop_first().len() ==> s.drop_first()[i] == s[i + 1]);
        lemma_kv_get_absent(s.drop_first(), k);
    }
}

/// If no pair before index `i` binds `k` and the pair at `i` does, then the
/// sequence reads the value stored at `i`.
pub proof fn lemma_kv_get_first_match(s: Seq<(String, i64)>, k: Seq<char>, i: int)
    requires
        0 <= i < s.len(),
        s[i].0@ == k,
        forall|j: int| 0 <= j < i ==> s[j].0@ != k,
    ensures
        kv_has(s, k),
        kv_get(s, k) == s[i].1 as int,
    decreases i,
{
    if i == 0 {
    } else {
        assert(forall|j: int|
            0 <= j < s.drop_first().len() ==> s.drop_first()[j] == s[j + 1]);
        lemma_kv_get_first_match(s.drop_first(), k, i - 1);
    }
}

/// Appending a pair binds its name only where it was not bound before.
pub proof fn lemma_kv_push(s: Seq<(String, i64)>, p: (String, i64), k: Seq<char>)
    ensures
        kv_has(s.push(p), k) <==> (kv_has(s, k) || p.0@ == k),
        kv_has(s, k) ==> kv_get(s.push(p), k) == kv_get(s, k),
        !kv_has(s, k) && p.0@ == k ==> kv_get(s.push(p), k) == p.1 as int,
        !kv_has(s, k) && p.0@ != k ==> kv_get(s.push(p), k) == 0,
    decreases s.len(),
{
    assert forall|i: int| 0 <= i < s.len() implies s.push(p)[i] == s[i] by {}
    assert(s.push(p)[s.len() as int] == p);
    if kv_has(s.push(p), k) {
        let i = choose|i: int| 0 <= i < s.push(p).len() && s.push(p)[i].0@ == k;
        if i < s.len() {
            assert(s[i].0@ == k);
        }
    }
    if s.len() == 0 {
        assert(s.push(p)[0] == p);
        if p.0@ != k {
            lemma_kv_get_absent(s.push(p), k);
        }
    } else {
        assert(s.push(p).drop_first() =~= s.drop_first().push(p));
        lemma_kv_push(s.drop_first(), p, k);
        assert(forall|i: int|
            0 <= i < s.drop_first().len() ==> s.drop_first()[i] == s[i + 1]);
        if s[0].0@ != k && kv_has(s, k) {
            let i = choose|i: int| 0 <= i < s.len() && s[i].0@ == k;
            assert(s.drop_first()[i - 1].0@ == k);
        }
    }
}

/// Replacing the pair at one index leaves every other name's reading alone.
pub proof fn lemma_kv_update_other(s: Seq<(String, i64)>, j: int, p: (String, i64), k: Seq<char>)
    requires
        0 <= j < s.len(),
        k != p.0@,
        k != s[j].0@,
    ensures
        kv_has(s.update(j, p), k) <==> kv_has(s, k),
        kv_get(s.update(j, p), k) == kv_get(s, k),
    decreases s.len(),
{
    let t = s.update(j, p);
    assert forall|i: int| 0 <= i < s.len() && i != j implies t[i] == s[i] by {}
    if kv_has(t, k) {
        let i = choose|i: int| 0 <= i < t.len() && t[i].0@ == k;
        assert(i != j);
        assert(s[i].0@ == k);
    }
    if kv_has(s, k) {
        let i = choose|i: int| 0 <= i < s.len() && s[i].0@ == k;
        assert(i != j);
        assert(t[i].0@ == k);
    }
    if j == 0 {
        assert(t.drop_first() =~= s.drop_first());
    } else {
        if s[0].0@ == k {
        } else {
            assert(t.drop_first() =~= s.drop_first().update(j - 1, p));
            assert(s.drop_first()[j - 1].0@ == s[j].0@);
            lemma_kv_update_other(s.drop_first(), j - 1, p, k);
        }
    }
}

/// A reading of the sequence is one of its stored values, or zero.
pub proof fn lemma_kv_get_bounded(s: Seq<(String, i64)>, b: int, k: Seq<char>)
    requires
        forall|i: int| 0 <= i < s.len() ==> -b <= (#[trigger] s[i]).1 <= b,
        b >= 0,
    ensures
        -b <= kv_get(s, k) <= b,
    decreases s.len(),
{
    if s.len() > 0 && s[0].0@ != k {
        assert(forall|i: int|
            0 <= i < s.drop_first().len() ==> s.drop_first()[i] == s[i + 1]);
        lemma_kv_get_bounded(s.drop_first(), b, k);
    }
}

/// In a sequence with distinct names, every pair is the one that is read.
pub proof fn lemma_kv_get_at_index(s: Seq<(String, i64)>, i: int)
    requires
        kv_distinct(s),
        0 <= i < s.len(),
    ensures
        kv_has(s, s[i].0@),
        kv_get(s, s[i].0@) == s[i].1 as int,
{
    lemma_kv_get_first_match(s, s[i].0@, i);
}

} // verus!
