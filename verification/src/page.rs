//! A page: one contiguous ordered map of tree key to value, bounded by a
//! recorded key-range envelope.
//!
//! The page stores its entries sorted strictly ascending by key view. Its
//! view is that entry sequence at the spec level; `ordered` states the
//! sortedness and `in_envelope` states that every key lies between
//! `range_start` and `range_end` inclusive.

use vstd::prelude::*;

use crate::entries::entries_insert;
use crate::entries::entries_remove;
use crate::entries::entries_sorted;
use crate::entries::index_of_key;
use crate::entries::lemma_insert_pos;
use crate::entries::has_key;
use crate::entries::lemma_filter_push;
use crate::entries::lemma_filter_tail_none;
use crate::entries::lemma_insert_entry;
use crate::entries::lemma_no_key;
use crate::entries::lemma_remove_entry;
use crate::entries::lemma_replace_entry;
use crate::entries::lemma_sorted_key_index;
use crate::entries::to_map;
use crate::entries::value_of_key;
use crate::keys::key_lt;
use crate::keys::lemma_key_le_refl;
use crate::keys::lemma_key_lt_lt;
use crate::keys::KeyCmp;
use crate::keys::StoreKey;
use crate::visiter::TreeVisiter;

verus! {

broadcast use vstd::function::group_function_axioms;

/// A bounded sorted map of tree keys to values with a key-range envelope.
pub struct Page<K, V> {
    range_start: K,
    range_end: K,
    entries: Vec<(K, V)>,
}

impl<K: StoreKey, V> View for Page<K, V> {
    type V = Seq<(K::V, V)>;

    closed spec fn view(&self) -> Seq<(K::V, V)> {
        self.entries@.map_values(|e: (K, V)| (e.0@, e.1))
    }
}

impl<K: StoreKey, V> Page<K, V> {
    /// The view of the recorded lower envelope bound.
    pub closed spec fn spec_range_start(&self) -> K::V {
        self.range_start@
    }

    /// The view of the recorded upper envelope bound.
    pub closed spec fn spec_range_end(&self) -> K::V {
        self.range_end@
    }

    /// Entries are sorted strictly ascending by key.
    pub open spec fn ordered(&self) -> bool {
        entries_sorted::<K, V>(self@)
    }

    /// Every key lies within the recorded envelope, both ends inclusive.
    pub open spec fn in_envelope(&self) -> bool {
        forall|i: int|
            0 <= i < self@.len() ==> K::key_le(self.spec_range_start(), #[trigger] self@[i].0)
                && K::key_le(self@[i].0, self.spec_range_end())
    }

    /// The page invariant.
    pub open spec fn wf(&self) -> bool {
        self.ordered() && self.in_envelope()
    }

    /// The key `k` is present.
    pub open spec fn has(&self, k: K::V) -> bool {
        has_key::<K, V>(self@, k)
    }

    /// The value stored under `k` (meaningful when `has` holds).
    pub open spec fn val(&self, k: K::V) -> V {
        value_of_key::<K, V>(self@, k)
    }

    /// The finite map this page denotes.
    pub open spec fn as_map(&self) -> Map<K::V, V> {
        to_map::<K, V>(self@)
    }

    /// The page has exactly this envelope and these entries.
    pub open spec fn page_is(&self, start: K::V, end: K::V, es: Seq<(K::V, V)>) -> bool {
        self.spec_range_start() == start && self.spec_range_end() == end && self@ == es
    }

    /// An empty page spanning the given envelope.
    pub fn from_range(range_start: K, range_end: K) -> (p: Page<K, V>)
        ensures
            p@ == Seq::<(K::V, V)>::empty(),
            p.spec_range_start() == range_start@,
            p.spec_range_end() == range_end@,
            p.ordered(),
            p.in_envelope(),
    {
        let entries: Vec<(K, V)> = Vec::new();
        proof {
            assert(entries@.map_values(|e: (K, V)| (e.0@, e.1)) =~= Seq::<(K::V, V)>::empty());
        }
        Page { range_start, range_end, entries }
    }

    /// A singleton page whose envelope is exactly its one key.
    pub fn from_key_value(key: K, value: V) -> (p: Page<K, V>)
        ensures
            p@ == seq![(key@, value)],
            p.spec_range_start() == key@,
            p.spec_range_end() == key@,
            p.wf(),
    {
        let range_start = key.key_clone();
        let range_end = key.key_clone();
        let mut entries: Vec<(K, V)> = Vec::new();
        entries.push((key, value));
        let p = Page { range_start, range_end, entries };
        proof {
            assert(p@ =~= seq![(key@, value)]);
            lemma_key_le_refl::<K>(key@);
        }
        p
    }

    /// The lower envelope bound.
    pub fn range_start(&self) -> (r: &K)
        ensures
            r@ == self.spec_range_start(),
    {
        &self.range_start
    }

    /// Replaces the lower envelope bound; entries and the upper bound stay.
    pub fn set_range_start(&mut self, range_start: K)
        ensures
            final(self).spec_range_start() == range_start@,
            final(self).spec_range_end() == old(self).spec_range_end(),
            final(self)@ == old(self)@,
    {
        self.range_start = range_start;
    }

    /// The upper envelope bound.
    pub fn range_end(&self) -> (r: &K)
        ensures
            r@ == self.spec_range_end(),
    {
        &self.range_end
    }

    /// Replaces the upper envelope bound; entries and the lower bound stay.
    pub fn set_range_end(&mut self, range_end: K)
        ensures
            final(self).spec_range_end() == range_end@,
            final(self).spec_range_start() == old(self).spec_range_start(),
            final(self)@ == old(self)@,
    {
        self.range_end = range_end;
    }

    /// Ordered-map lookup.
    pub fn get(&self, key: &K) -> (r: Option<&V>)
        requires
            self.ordered(),
        ensures
            match r {
                Some(v) => self.has(key@) && *v == self.val(key@),
                None => !self.has(key@),
            },
    {
        let n = self.entries.len();
        let mut i: usize = 0;
        while i < n
            invariant
                0 <= i <= n,
                n == self@.len(),
                self.ordered(),
                forall|j: int| 0 <= j < i ==> key_lt::<K>(#[trigger] self@[j].0, key@),
            decreases n - i,
        {
            match self.entries[i].0.key_cmp(key) {
                KeyCmp::Less => {
                    i += 1;
                }
                KeyCmp::Equal => {
                    proof {
                        lemma_sorted_key_index::<K, V>(self@, i as int);
                    }
                    return Some(&self.entries[i].1);
                }
                KeyCmp::Greater => {
                    proof {
                        assert forall|j: int| 0 <= j < self@.len() implies self@[j].0 != key@ by {
                            if j > i {
                                lemma_key_lt_lt::<K>(key@, self@[i as int].0, self@[j].0);
                            }
                        }
                        lemma_no_key::<K, V>(self@, key@);
                    }
                    return None;
                }
            }
        }
        proof {
            lemma_no_key::<K, V>(self@, key@);
        }
        None
    }

    /// Whether the key is present.
    pub fn contains(&self, key: &K) -> (r: bool)
        requires
            self.ordered(),
        ensures
            r == self.has(key@),
    {
        self.get(key).is_some()
    }

    /// Inserts or overwrites; reports whether the key was absent before.
    pub fn insert(&mut self, key: K, value: V) -> (r: bool)
        requires
            old(self).ordered(),
        ensures
            final(self).ordered(),
            r == !old(self).has(key@),
            final(self).has(key@),
            final(self).val(key@) == value,
            final(self)@ == entries_insert::<K, V>(old(self)@, key@, value),
            forall|k: K::V| #[trigger] final(self).has(k) <==> old(self).has(k) || k == key@,
            forall|k: K::V|
                k != key@ && old(self).has(k) ==> #[trigger] final(self).val(k) == old(self).val(
                    k,
                ),
            final(self)@.len() == old(self)@.len() + (if r {
                1int
            } else {
                0int
            }),
            final(self).spec_range_start() == old(self).spec_range_start(),
            final(self).spec_range_end() == old(self).spec_range_end(),
    {
        let n = self.entries.len();
        let mut i: usize = 0;
        while i < n
            invariant
                0 <= i <= n,
                n == self@.len(),
                self.ordered(),
                self == old(self),
                forall|j: int| 0 <= j < i ==> key_lt::<K>(#[trigger] self@[j].0, key@),
            decreases n - i,
        {
            match self.entries[i].0.key_cmp(&key) {
                KeyCmp::Less => {
                    i += 1;
                }
                KeyCmp::Equal => {
                    let ghost s = self@;
                    self.entries.remove(i);
                    self.entries.insert(i, (key, value));
                    proof {
                        assert(self@ =~= s.update(i as int, (key@, value)));
                        lemma_replace_entry::<K, V>(s, i as int, (key@, value));
                        lemma_sorted_key_index::<K, V>(s, i as int);
                        assert(index_of_key::<K, V>(s, key@) == i as int);
                    }
                    return false;
                }
                KeyCmp::Greater => {
                    let ghost s = self@;
                    proof {
                        assert forall|j: int| i <= j < s.len() implies key_lt::<K>(
                            key@,
                            s[j].0,
                        ) by {
                            if j > i {
                                lemma_key_lt_lt::<K>(key@, s[i as int].0, s[j].0);
                            }
                        }
                    }
                    self.entries.insert(i, (key, value));
                    proof {
                        assert(self@ =~= s.insert(i as int, (key@, value)));
                        lemma_insert_entry::<K, V>(s, i as int, (key@, value));
                        lemma_insert_pos::<K, V>(s, key@, i as int);
                    }
                    return true;
                }
            }
        }
        let ghost s = self@;
        self.entries.insert(n, (key, value));
        proof {
            assert(self@ =~= s.insert(n as int, (key@, value)));
            lemma_insert_entry::<K, V>(s, n as int, (key@, value));
            lemma_insert_pos::<K, V>(s, key@, n as int);
        }
        true
    }

    /// Removes the key if present; reports whether a removal occurred.
    pub fn remove(&mut self, key: &K) -> (r: bool)
        requires
            old(self).ordered(),
        ensures
            final(self).ordered(),
            r == old(self).has(key@),
            !final(self).has(key@),
            final(self)@ == entries_remove::<K, V>(old(self)@, key@),
            forall|k: K::V| #[trigger] final(self).has(k) <==> old(self).has(k) && k != key@,
            forall|k: K::V|
                k != key@ && old(self).has(k) ==> #[trigger] final(self).val(k) == old(self).val(
                    k,
                ),
            final(self)@.len() == old(self)@.len() - (if r {
                1int
            } else {
                0int
            }),
            final(self).spec_range_start() == old(self).spec_range_start(),
            final(self).spec_range_end() == old(self).spec_range_end(),
    {
        let n = self.entries.len();
        let mut i: usize = 0;
        while i < n
            invariant
                0 <= i <= n,
                n == self@.len(),
                self.ordered(),
                self == old(self),
                forall|j: int| 0 <= j < i ==> key_lt::<K>(#[trigger] self@[j].0, key@),
            decreases n - i,
        {
            match self.entries[i].0.key_cmp(key) {
                KeyCmp::Less => {
                    i += 1;
                }
                KeyCmp::Equal => {
                    let ghost s = self@;
                    self.entries.remove(i);
                    proof {
                        assert(self@ =~= s.remove(i as int));
                        lemma_remove_entry::<K, V>(s, i as int);
                        lemma_sorted_key_index::<K, V>(s, i as int);
                        assert(index_of_key::<K, V>(s, key@) == i as int);
                    }
                    return true;
                }
                KeyCmp::Greater => {
                    proof {
                        assert forall|j: int| 0 <= j < self@.len() implies self@[j].0 != key@ by {
                            if j > i {
                                lemma_key_lt_lt::<K>(key@, self@[i as int].0, self@[j].0);
                            }
                        }
                        lemma_no_key::<K, V>(self@, key@);
                    }
                    return false;
                }
            }
        }
        proof {
            lemma_no_key::<K, V>(self@, key@);
        }
        false
    }

    /// The predicate selecting entries whose key lies in `[lo, hi]`.
    pub open spec fn window_pred(lo: K::V, hi: K::V) -> spec_fn((K::V, V)) -> bool {
        |e: (K::V, V)| K::key_le(lo, e.0) && K::key_le(e.0, hi)
    }

    /// The entries whose key lies in `[lo, hi]`, in ascending key order.
    pub open spec fn window(&self, lo: K::V, hi: K::V) -> Seq<(K::V, V)> {
        self@.filter(Self::window_pred(lo, hi))
    }

    /// The callback saw exactly the entries `es` — the first `es.len()` of
    /// the window `w`, in order; every call but the last returned `true`; and
    /// a `true` outcome means the whole window was visited with no refusing
    /// call.
    pub open spec fn range_emits<F: FnMut(&K, &V) -> bool>(
        w: Seq<(K::V, V)>,
        callback: F,
        r: bool,
        es: Seq<(K, V)>,
    ) -> bool {
        &&& es.len() <= w.len()
        &&& (r ==> es.len() == w.len())
        &&& (!r ==> es.len() >= 1)
        &&& forall|m: int|
            #![trigger es[m]]
            0 <= m < es.len() ==> (es[m].0@, es[m].1) == w[m] && call_ensures(
                callback,
                (&es[m].0, &es[m].1),
                m < es.len() - 1 || r,
            )
    }

    /// Invokes the callback on each entry with `key_first <= key <= key_last`
    /// in ascending order, both ends inclusive; stops as soon as the callback
    /// returns `false`. Returns `true` iff iteration was not stopped, i.e.
    /// the caller may proceed to the next page.
    ///
    /// The contract: some prefix of the window, `n` entries long, was handed
    /// to the callback in order; every call but the last returned `true`; a
    /// `true` result means the whole window was visited (and the last call,
    /// if any, returned `true` as well).
    #[verifier::loop_isolation(false)]
    pub fn range<F: FnMut(&K, &V) -> bool>(
        &self,
        key_first: &K,
        key_last: &K,
        mut callback: F,
    ) -> (r: bool)
        requires
            self.ordered(),
            forall|a: &K, b: &V| call_requires(callback, (a, b)),
        ensures
            exists|es: Seq<(K, V)>|
                #[trigger] Self::range_emits(self.window(key_first@, key_last@), callback, r, es),
    {
        let ghost wpred = Self::window_pred(key_first@, key_last@);
        let ghost w = self.window(key_first@, key_last@);
        let ghost cb = callback;
        let n_entries = self.entries.len();
        let mut i: usize = 0;
        let ghost mut cnt: int = 0;
        let ghost mut es: Seq<(K, V)> = Seq::empty();
        while i < n_entries
            invariant
                0 <= i <= n_entries,
                n_entries == self@.len(),
                self.ordered(),
                callback == cb,
                forall|a: &K, b: &V| call_requires(callback, (a, b)),
                wpred == Self::window_pred(key_first@, key_last@),
                w == self.window(key_first@, key_last@),
                0 <= cnt <= w.len(),
                es.len() == cnt,
                self@.subrange(0, i as int).filter(wpred) == w.subrange(0, cnt),
                forall|m: int|
                    #![trigger es[m]]
                    0 <= m < cnt ==> (es[m].0@, es[m].1) == w[m] && call_ensures(
                        callback,
                        (&es[m].0, &es[m].1),
                        true,
                    ),
            decreases n_entries - i,
        {
            let ghost pre = self@.subrange(0, i as int);
            let ghost cur = self@[i as int];
            proof {
                assert(self@.subrange(0, i + 1) =~= pre.push(cur));
                lemma_filter_push::<(K::V, V)>(pre, wpred, cur);
            }
            match self.entries[i].0.key_cmp(key_first) {
                KeyCmp::Less => {
                    proof {
                        if K::key_le(key_first@, cur.0) {
                            K::key_le_antisymmetric(cur.0, key_first@);
                        }
                    }
                    i += 1;
                }
                _ => {
                    proof {
                        lemma_key_le_refl::<K>(cur.0);
                        assert(K::key_le(key_first@, cur.0));
                    }
                    match self.entries[i].0.key_cmp(key_last) {
                        KeyCmp::Greater => {
                            proof {
                                assert forall|j: int| i <= j < self@.len() implies !wpred(
                                    self@[j],
                                ) by {
                                    if j > i {
                                        lemma_key_lt_lt::<K>(key_last@, cur.0, self@[j].0);
                                    }
                                    if K::key_le(self@[j].0, key_last@) {
                                        K::key_le_antisymmetric(key_last@, self@[j].0);
                                    }
                                }
                                lemma_filter_tail_none::<(K::V, V)>(self@, wpred, i as int);
                                assert(w == w.subrange(0, cnt));
                                assert(cnt == w.len());
                                assert(Self::range_emits(w, callback, true, es));
                            }
                            return true;
                        }
                        _ => {
                            proof {
                                assert(K::key_le(cur.0, key_last@));
                                assert(wpred(cur));
                                let rest = self@.subrange(i + 1, n_entries as int);
                                assert(self@ =~= self@.subrange(0, i + 1) + rest);
                                Seq::filter_distributes_over_add(
                                    self@.subrange(0, i + 1),
                                    rest,
                                    wpred,
                                );
                                let pre1f = self@.subrange(0, i + 1).filter(wpred);
                                assert(pre1f == w.subrange(0, cnt).push(cur));
                                assert(w == pre1f + rest.filter(wpred));
                                assert(cnt + 1 <= w.len());
                                assert(w.subrange(0, cnt + 1) =~= pre1f);
                            }
                            let e = &self.entries[i];
                            let cont = callback(&e.0, &e.1);
                            proof {
                                assert(w[cnt] == cur);
                                assert(cur == (self.entries@[i as int].0@, self.entries@[
                                    i as int
                                ].1));
                                es = es.push(self.entries@[i as int]);
                                cnt = cnt + 1;
                            }
                            if !cont {
                                proof {
                                    assert(Self::range_emits(w, callback, false, es));
                                }
                                return false;
                            }
                            i += 1;
                        }
                    }
                }
            }
        }
        proof {
            assert(self@.subrange(0, n_entries as int) =~= self@);
            assert(w == w.subrange(0, cnt));
            assert(cnt == w.len());
            assert(Self::range_emits(w, callback, true, es));
        }
        true
    }

    /// Smallest entry strictly greater than `key`; the key need not exist.
    pub fn succ(&self, key: &K) -> (r: Option<(&K, &V)>)
        requires
            self.ordered(),
        ensures
            match r {
                Some(e) => self.has(e.0@) && self.val(e.0@) == *e.1 && key_lt::<K>(key@, e.0@)
                    && forall|j: int|
                    0 <= j < self@.len() && key_lt::<K>(key@, #[trigger] self@[j].0) ==> K::key_le(
                        e.0@,
                        self@[j].0,
                    ),
                None => forall|j: int|
                    0 <= j < self@.len() ==> !key_lt::<K>(key@, #[trigger] self@[j].0),
            },
    {
        let n = self.entries.len();
        let mut i: usize = 0;
        while i < n
            invariant
                0 <= i <= n,
                n == self@.len(),
                self.ordered(),
                forall|j: int| 0 <= j < i ==> !key_lt::<K>(key@, #[trigger] self@[j].0),
            decreases n - i,
        {
            match self.entries[i].0.key_cmp(key) {
                KeyCmp::Greater => {
                    proof {
                        lemma_sorted_key_index::<K, V>(self@, i as int);
                        assert forall|j: int|
                            0 <= j < self@.len() && key_lt::<K>(
                                key@,
                                #[trigger] self@[j].0,
                            ) implies K::key_le(self@[i as int].0, self@[j].0) by {
                            if j == i {
                                lemma_key_le_refl::<K>(self@[i as int].0);
                            } else if j > i {
                                assert(key_lt::<K>(self@[i as int].0, self@[j].0));
                            }
                        }
                    }
                    let e = &self.entries[i];
                    return Some((&e.0, &e.1));
                }
                _ => {
                    proof {
                        if key_lt::<K>(key@, self@[i as int].0) {
                            K::key_le_antisymmetric(self@[i as int].0, key@);
                        }
                    }
                    i += 1;
                }
            }
        }
        None
    }

    /// Greatest entry strictly less than `key`; the key need not exist.
    pub fn pred(&self, key: &K) -> (r: Option<(&K, &V)>)
        requires
            self.ordered(),
        ensures
            match r {
                Some(e) => self.has(e.0@) && self.val(e.0@) == *e.1 && key_lt::<K>(e.0@, key@)
                    && forall|j: int|
                    0 <= j < self@.len() && key_lt::<K>(#[trigger] self@[j].0, key@) ==> K::key_le(
                        self@[j].0,
                        e.0@,
                    ),
                None => forall|j: int|
                    0 <= j < self@.len() ==> !key_lt::<K>(#[trigger] self@[j].0, key@),
            },
    {
        let n = self.entries.len();
        let mut i: usize = n;
        while i > 0
            invariant
                0 <= i <= n,
                n == self@.len(),
                self.ordered(),
                forall|j: int| i <= j < n ==> !key_lt::<K>(#[trigger] self@[j].0, key@),
            decreases i,
        {
            match self.entries[i - 1].0.key_cmp(key) {
                KeyCmp::Less => {
                    proof {
                        lemma_sorted_key_index::<K, V>(self@, i - 1);
                        assert forall|j: int|
                            0 <= j < self@.len() && key_lt::<K>(
                                #[trigger] self@[j].0,
                                key@,
                            ) implies K::key_le(self@[j].0, self@[i - 1].0) by {
                            if j == i - 1 {
                                lemma_key_le_refl::<K>(self@[i - 1].0);
                            } else if j < i - 1 {
                                assert(key_lt::<K>(self@[j].0, self@[i - 1].0));
                            }
                        }
                    }
                    let e = &self.entries[i - 1];
                    return Some((&e.0, &e.1));
                }
                _ => {
                    proof {
                        if key_lt::<K>(self@[i - 1].0, key@) {
                            K::key_le_antisymmetric(self@[i - 1].0, key@);
                        }
                    }
                    i -= 1;
                }
            }
        }
        None
    }

    /// Number of entries.
    pub fn size(&self) -> (r: usize)
        ensures
            r == self@.len(),
    {
        self.entries.len()
    }

    /// The stored entry pairs, in order (their key views form `self@`).
    pub closed spec fn spec_entries(&self) -> Seq<(K, V)> {
        self.entries@
    }

    /// The entry at a position, by reference.
    pub fn entry_at(&self, i: usize) -> (e: (&K, &V))
        requires
            i < self@.len(),
        ensures
            (*e.0, *e.1) == self.spec_entries()[i as int],
            e.0@ == self@[i as int].0,
            *e.1 == self@[i as int].1,
    {
        let e = &self.entries[i];
        (&e.0, &e.1)
    }

    /// The entry with the smallest key, if any.
    pub fn first(&self) -> (r: Option<(&K, &V)>)
        ensures
            match r {
                Some(e) => self@.len() > 0 && e.0@ == self@[0].0 && *e.1 == self@[0].1,
                None => self@.len() == 0,
            },
    {
        if self.entries.len() > 0 {
            let e = &self.entries[0];
            Some((&e.0, &e.1))
        } else {
            None
        }
    }

    /// The entry with the greatest key, if any.
    pub fn last(&self) -> (r: Option<(&K, &V)>)
        ensures
            match r {
                Some(e) => self@.len() > 0 && e.0@ == self@[self@.len() - 1].0 && *e.1 == self@[
                    self@.len() - 1
                ].1,
                None => self@.len() == 0,
            },
    {
        let n = self.entries.len();
        if n > 0 {
            let e = &self.entries[n - 1];
            Some((&e.0, &e.1))
        } else {
            None
        }
    }

    /// Emits `visit_page_before`, one `visit_value` per entry in ascending
    /// key order, then `visit_page_after`.
    pub fn visit<T: TreeVisiter<K, V>>(&self, index: usize, visiter: &mut T) {
        visiter.visit_page_before(index, &self.range_start, &self.range_end);
        let mut i: usize = 0;
        while i < self.entries.len()
            decreases self.entries@.len() - i,
        {
            let e = &self.entries[i];
            visiter.visit_value(&e.0, &e.1);
            i += 1;
        }
        visiter.visit_page_after(index, &self.range_start, &self.range_end);
    }

    /// Splits at the middle index. This page keeps the lower half and its
    /// envelope closes at its new greatest key; the returned page takes the
    /// upper half, starting exactly at its least key and inheriting the old
    /// upper bound.
    pub fn split(&mut self) -> (next: Page<K, V>)
        requires
            old(self).ordered(),
            old(self)@.len() >= 2,
        ensures
            final(self)@ == old(self)@.subrange(0, old(self)@.len() as int / 2),
            next@ == old(self)@.subrange(old(self)@.len() as int / 2, old(self)@.len() as int),
            final(self).spec_range_start() == old(self).spec_range_start(),
            final(self).spec_range_end() == old(self)@[old(self)@.len() as int / 2 - 1].0,
            next.spec_range_start() == old(self)@[old(self)@.len() as int / 2].0,
            next.spec_range_end() == old(self).spec_range_end(),
            final(self).ordered(),
            next.ordered(),
    {
        let ghost s = old(self)@;
        let mid = self.entries.len() / 2;
        let upper = self.entries.split_off(mid);
        let next_start = upper[0].0.key_clone();
        let next_end = self.range_end.key_clone();
        let last = self.entries.len() - 1;
        let new_end = self.entries[last].0.key_clone();
        self.range_end = new_end;
        let next = Page { range_start: next_start, range_end: next_end, entries: upper };
        proof {
            assert(self@ =~= s.subrange(0, s.len() as int / 2));
            assert(next@ =~= s.subrange(s.len() as int / 2, s.len() as int));
        }
        next
    }
}

} // verus!
