//! Spec-level model of a sorted sequence of key/value entries.
//!
//! A page stores its entries as a sequence of pairs whose key views are
//! strictly ascending. These functions give that model a vocabulary: key
//! lookup, the induced finite map, and the lemmas connecting them.

use vstd::prelude::*;

use crate::keys::key_lt;
use crate::keys::lemma_key_lt_asym;
use crate::keys::lemma_key_lt_lt;
use crate::keys::StoreKey;

verus! {

/// Entries are strictly ascending by key.
pub open spec fn entries_sorted<K: StoreKey, V>(s: Seq<(K::V, V)>) -> bool {
    forall|i: int, j: int| 0 <= i < j < s.len() ==> key_lt::<K>(s[i].0, s[j].0)
}

/// Some entry carries the key `k`.
pub open spec fn has_key<K: StoreKey, V>(s: Seq<(K::V, V)>, k: K::V) -> bool {
    exists|i: int| 0 <= i < s.len() && s[i].0 == k
}

/// The index of the entry carrying `k` (meaningful when `has_key` holds).
pub open spec fn index_of_key<K: StoreKey, V>(s: Seq<(K::V, V)>, k: K::V) -> int {
    choose|i: int| 0 <= i < s.len() && s[i].0 == k
}

/// The value stored under `k` (meaningful when `has_key` holds).
pub open spec fn value_of_key<K: StoreKey, V>(s: Seq<(K::V, V)>, k: K::V) -> V {
    s[index_of_key::<K, V>(s, k)].1
}

/// The finite map an entry sequence denotes.
pub open spec fn to_map<K: StoreKey, V>(s: Seq<(K::V, V)>) -> Map<K::V, V> {
    Map::new(|k: K::V| has_key::<K, V>(s, k), |k: K::V| value_of_key::<K, V>(s, k))
}

/// The position at which a key slots into a sorted sequence: the number of
/// entries strictly below it.
pub open spec fn insert_pos<K: StoreKey, V>(s: Seq<(K::V, V)>, k: K::V) -> int
    decreases s.len(),
{
    if s.len() == 0 {
        0
    } else if key_lt::<K>(s[0].0, k) {
        1 + insert_pos::<K, V>(s.skip(1), k)
    } else {
        0
    }
}

/// The sequence after an insert-or-overwrite of one entry, keys kept sorted.
pub open spec fn entries_insert<K: StoreKey, V>(s: Seq<(K::V, V)>, k: K::V, v: V) -> Seq<
    (K::V, V),
> {
    if has_key::<K, V>(s, k) {
        s.update(index_of_key::<K, V>(s, k), (k, v))
    } else {
        s.insert(insert_pos::<K, V>(s, k), (k, v))
    }
}

/// The sequence after removing one key, when present.
pub open spec fn entries_remove<K: StoreKey, V>(s: Seq<(K::V, V)>, k: K::V) -> Seq<(K::V, V)> {
    if has_key::<K, V>(s, k) {
        s.remove(index_of_key::<K, V>(s, k))
    } else {
        s
    }
}

/// An index with everything below it strictly smaller and everything from it
/// on strictly greater is the key's insertion position.
pub proof fn lemma_insert_pos<K: StoreKey, V>(s: Seq<(K::V, V)>, k: K::V, i: int)
    requires
        0 <= i <= s.len(),
        forall|j: int| 0 <= j < i ==> key_lt::<K>((#[trigger] s[j]).0, k),
        forall|j: int| i <= j < s.len() ==> key_lt::<K>(k, (#[trigger] s[j]).0),
    ensures
        insert_pos::<K, V>(s, k) == i,
    decreases i,
{
    if i == 0 {
        if s.len() > 0 {
            lemma_key_lt_asym::<K>(k, s[0].0);
        }
    } else {
        assert(key_lt::<K>(s[0].0, k));
        lemma_insert_pos::<K, V>(s.skip(1), k, i - 1);
        assert(forall|j: int| 0 <= j < s.len() - 1 ==> #[trigger] s.skip(1)[j] == s[j + 1]);
    }
}

/// A key below or above every entry is absent.
pub proof fn lemma_no_key<K: StoreKey, V>(s: Seq<(K::V, V)>, k: K::V)
    requires
        forall|j: int| 0 <= j < s.len() ==> s[j].0 != k,
    ensures
        !has_key::<K, V>(s, k),
{
}

/// Inserting a fresh entry between its strict neighbours keeps the sequence
/// sorted and extends the induced map by exactly that entry.
pub proof fn lemma_insert_entry<K: StoreKey, V>(s: Seq<(K::V, V)>, i: int, e: (K::V, V))
    requires
        entries_sorted::<K, V>(s),
        0 <= i <= s.len(),
        forall|j: int| 0 <= j < i ==> key_lt::<K>(s[j].0, e.0),
        forall|j: int| i <= j < s.len() ==> key_lt::<K>(e.0, s[j].0),
    ensures
        entries_sorted::<K, V>(s.insert(i, e)),
        !has_key::<K, V>(s, e.0),
        forall|k: K::V|
            has_key::<K, V>(s.insert(i, e), k) <==> has_key::<K, V>(s, k) || k == e.0,
        value_of_key::<K, V>(s.insert(i, e), e.0) == e.1,
        forall|k: K::V|
            k != e.0 && has_key::<K, V>(s, k) ==> value_of_key::<K, V>(s.insert(i, e), k)
                == value_of_key::<K, V>(s, k),
{
    let t = s.insert(i, e);
    assert(t.len() == s.len() + 1);
    assert(forall|j: int| 0 <= j < i ==> t[j] == s[j]);
    assert(t[i] == e);
    assert(forall|j: int| i < j < t.len() ==> t[j] == s[j - 1]);
    assert forall|p: int, q: int| 0 <= p < q < t.len() implies key_lt::<K>(t[p].0, t[q].0) by {
        if p < i && q == i {
        } else if p == i && q > i {
        } else if p < i && q > i {
            assert(key_lt::<K>(s[p].0, e.0));
            assert(key_lt::<K>(e.0, s[q - 1].0));
            lemma_key_lt_lt::<K>(s[p].0, e.0, s[q - 1].0);
        }
    }
    assert(forall|j: int| 0 <= j < s.len() ==> s[j].0 != e.0);
    lemma_sorted_key_index::<K, V>(t, i);
    assert forall|k: K::V| has_key::<K, V>(t, k) <==> has_key::<K, V>(s, k) || k == e.0 by {
        if has_key::<K, V>(t, k) {
            let j = choose|j: int| 0 <= j < t.len() && t[j].0 == k;
            if j != i {
                let j0 = if j < i { j } else { j - 1 };
                assert(s[j0].0 == k);
            }
        }
        if has_key::<K, V>(s, k) {
            let j = choose|j: int| 0 <= j < s.len() && s[j].0 == k;
            let j1 = if j < i { j } else { j + 1 };
            assert(t[j1].0 == k);
        }
    }
    assert forall|k: K::V| k != e.0 && has_key::<K, V>(s, k) implies value_of_key::<K, V>(t, k)
        == value_of_key::<K, V>(s, k) by {
        let j = index_of_key::<K, V>(s, k);
        assert(0 <= j < s.len() && s[j].0 == k);
        lemma_sorted_key_index::<K, V>(s, j);
        let j1 = if j < i { j } else { j + 1 };
        assert(t[j1].0 == k && t[j1].1 == s[j].1);
        lemma_sorted_key_index::<K, V>(t, j1);
    }
}

/// Replacing the value at an index keeps the keys, hence the sortedness, and
/// rebinds exactly that key in the induced map.
pub proof fn lemma_replace_entry<K: StoreKey, V>(s: Seq<(K::V, V)>, i: int, e: (K::V, V))
    requires
        entries_sorted::<K, V>(s),
        0 <= i < s.len(),
        s[i].0 == e.0,
    ensures
        entries_sorted::<K, V>(s.update(i, e)),
        has_key::<K, V>(s, e.0),
        forall|k: K::V| has_key::<K, V>(s.update(i, e), k) <==> has_key::<K, V>(s, k),
        value_of_key::<K, V>(s.update(i, e), e.0) == e.1,
        forall|k: K::V|
            k != e.0 && has_key::<K, V>(s, k) ==> value_of_key::<K, V>(s.update(i, e), k)
                == value_of_key::<K, V>(s, k),
{
    let t = s.update(i, e);
    assert(forall|j: int| 0 <= j < s.len() ==> t[j].0 == s[j].0);
    assert(entries_sorted::<K, V>(t));
    lemma_sorted_key_index::<K, V>(s, i);
    lemma_sorted_key_index::<K, V>(t, i);
    assert forall|k: K::V| has_key::<K, V>(t, k) <==> has_key::<K, V>(s, k) by {
        if has_key::<K, V>(t, k) {
            let j = choose|j: int| 0 <= j < t.len() && t[j].0 == k;
            assert(s[j].0 == k);
        }
        if has_key::<K, V>(s, k) {
            let j = choose|j: int| 0 <= j < s.len() && s[j].0 == k;
            assert(t[j].0 == k);
        }
    }
    assert forall|k: K::V| k != e.0 && has_key::<K, V>(s, k) implies value_of_key::<K, V>(t, k)
        == value_of_key::<K, V>(s, k) by {
        let j = index_of_key::<K, V>(s, k);
        lemma_sorted_key_index::<K, V>(s, j);
        assert(t[j].0 == k && t[j].1 == s[j].1);
        lemma_sorted_key_index::<K, V>(t, j);
    }
}

/// Removing an entry keeps the rest sorted and drops exactly its key from the
/// induced map.
pub proof fn lemma_remove_entry<K: StoreKey, V>(s: Seq<(K::V, V)>, i: int)
    requires
        entries_sorted::<K, V>(s),
        0 <= i < s.len(),
    ensures
        entries_sorted::<K, V>(s.remove(i)),
        has_key::<K, V>(s, s[i].0),
        forall|k: K::V|
            has_key::<K, V>(s.remove(i), k) <==> has_key::<K, V>(s, k) && k != s[i].0,
        forall|k: K::V|
            k != s[i].0 && has_key::<K, V>(s, k) ==> value_of_key::<K, V>(s.remove(i), k)
                == value_of_key::<K, V>(s, k),
{
    let t = s.remove(i);
    assert(t.len() == s.len() - 1);
    assert(forall|j: int| 0 <= j < i ==> t[j] == s[j]);
    assert(forall|j: int| i <= j < t.len() ==> t[j] == s[j + 1]);
    assert(entries_sorted::<K, V>(t));
    lemma_sorted_key_index::<K, V>(s, i);
    assert forall|k: K::V| has_key::<K, V>(t, k) <==> has_key::<K, V>(s, k) && k != s[i].0 by {
        if has_key::<K, V>(t, k) {
            let j = choose|j: int| 0 <= j < t.len() && t[j].0 == k;
            let j0 = if j < i { j } else { j + 1 };
            assert(s[j0].0 == k);
            lemma_sorted_key_index::<K, V>(s, j0);
        }
        if has_key::<K, V>(s, k) && k != s[i].0 {
            let j = choose|j: int| 0 <= j < s.len() && s[j].0 == k;
            let j1 = if j < i { j } else { j - 1 };
            assert(t[j1].0 == k);
        }
    }
    assert forall|k: K::V| k != s[i].0 && has_key::<K, V>(s, k) implies value_of_key::<K, V>(t, k)
        == value_of_key::<K, V>(s, k) by {
        let j = index_of_key::<K, V>(s, k);
        lemma_sorted_key_index::<K, V>(s, j);
        let j1 = if j < i { j } else { j - 1 };
        assert(t[j1].0 == k && t[j1].1 == s[j].1);
        lemma_sorted_key_index::<K, V>(t, j1);
    }
}

/// Splitting a sorted sequence at an index partitions its keys: each half is
/// sorted, together the halves cover exactly the keys of the whole, no key
/// is in both, and values are preserved.
pub proof fn lemma_split_seq<K: StoreKey, V>(s: Seq<(K::V, V)>, m: int)
    requires
        entries_sorted::<K, V>(s),
        0 <= m <= s.len(),
    ensures
        entries_sorted::<K, V>(s.subrange(0, m)),
        entries_sorted::<K, V>(s.subrange(m, s.len() as int)),
        forall|k: K::V|
            has_key::<K, V>(s, k) <==> has_key::<K, V>(s.subrange(0, m), k) || has_key::<K, V>(
                s.subrange(m, s.len() as int),
                k,
            ),
        forall|k: K::V|
            has_key::<K, V>(s.subrange(0, m), k) ==> value_of_key::<K, V>(s.subrange(0, m), k)
                == value_of_key::<K, V>(s, k),
        forall|k: K::V|
            has_key::<K, V>(s.subrange(m, s.len() as int), k) ==> value_of_key::<K, V>(
                s.subrange(m, s.len() as int),
                k,
            ) == value_of_key::<K, V>(s, k),
        forall|k: K::V|
            !(has_key::<K, V>(s.subrange(0, m), k) && has_key::<K, V>(
                s.subrange(m, s.len() as int),
                k,
            )),
{
    let lo = s.subrange(0, m);
    let hi = s.subrange(m, s.len() as int);
    assert forall|k: K::V|
        has_key::<K, V>(s, k) <==> has_key::<K, V>(lo, k) || has_key::<K, V>(hi, k) by {
        if has_key::<K, V>(s, k) {
            let i = choose|i: int| 0 <= i < s.len() && s[i].0 == k;
            if i < m {
                assert(lo[i].0 == k);
            } else {
                assert(hi[i - m].0 == k);
            }
        }
        if has_key::<K, V>(lo, k) {
            let i = choose|i: int| 0 <= i < lo.len() && lo[i].0 == k;
            assert(s[i].0 == k);
        }
        if has_key::<K, V>(hi, k) {
            let i = choose|i: int| 0 <= i < hi.len() && hi[i].0 == k;
            assert(s[i + m].0 == k);
        }
    }
    assert forall|k: K::V| has_key::<K, V>(lo, k) implies value_of_key::<K, V>(lo, k)
        == value_of_key::<K, V>(s, k) by {
        let i = index_of_key::<K, V>(lo, k);
        assert(0 <= i < lo.len() && lo[i].0 == k);
        lemma_sorted_key_index::<K, V>(lo, i);
        assert(s[i] == lo[i]);
        lemma_sorted_key_index::<K, V>(s, i);
    }
    assert forall|k: K::V| has_key::<K, V>(hi, k) implies value_of_key::<K, V>(hi, k)
        == value_of_key::<K, V>(s, k) by {
        let i = index_of_key::<K, V>(hi, k);
        assert(0 <= i < hi.len() && hi[i].0 == k);
        lemma_sorted_key_index::<K, V>(hi, i);
        assert(s[i + m] == hi[i]);
        lemma_sorted_key_index::<K, V>(s, i + m);
    }
    assert forall|k: K::V|
        !(has_key::<K, V>(lo, k) && has_key::<K, V>(hi, k)) by {
        if has_key::<K, V>(lo, k) && has_key::<K, V>(hi, k) {
            let i = choose|i: int| 0 <= i < lo.len() && lo[i].0 == k;
            let j = choose|j: int| 0 <= j < hi.len() && hi[j].0 == k;
            assert(s[i].0 == k && s[j + m].0 == k);
            assert(key_lt::<K>(s[i].0, s[j + m].0));
        }
    }
}

/// Filtering after appending one element extends the filtered sequence by
/// that element exactly when it satisfies the predicate.
pub proof fn lemma_filter_push<A>(s: Seq<A>, pred: spec_fn(A) -> bool, x: A)
    ensures
        s.push(x).filter(pred) == if pred(x) {
            s.filter(pred).push(x)
        } else {
            s.filter(pred)
        },
{
    reveal(Seq::filter);
    assert(s.push(x).drop_last() =~= s);
}

/// When nothing from index `i` on satisfies the predicate, filtering stops at
/// the prefix.
pub proof fn lemma_filter_tail_none<A>(s: Seq<A>, pred: spec_fn(A) -> bool, i: int)
    requires
        0 <= i <= s.len(),
        forall|j: int| i <= j < s.len() ==> !pred(s[j]),
    ensures
        s.filter(pred) == s.subrange(0, i).filter(pred),
    decreases s.len() - i,
{
    if i == s.len() {
        assert(s.subrange(0, i) =~= s);
    } else {
        reveal(Seq::filter);
        assert(!pred(s.last()));
        lemma_filter_tail_none(s.drop_last(), pred, i);
        assert(s.drop_last().subrange(0, i) =~= s.subrange(0, i));
    }
}

/// In a sorted sequence every key names a unique entry.
pub proof fn lemma_sorted_key_index<K: StoreKey, V>(s: Seq<(K::V, V)>, i: int)
    requires
        entries_sorted::<K, V>(s),
        0 <= i < s.len(),
    ensures
        has_key::<K, V>(s, s[i].0),
        index_of_key::<K, V>(s, s[i].0) == i,
        value_of_key::<K, V>(s, s[i].0) == s[i].1,
{
    assert(has_key::<K, V>(s, s[i].0));
    let j = index_of_key::<K, V>(s, s[i].0);
    if i < j {
        assert(key_lt::<K>(s[i].0, s[j].0));
    } else if j < i {
        assert(key_lt::<K>(s[j].0, s[i].0));
    }
}

} // verus!
