//! An ordered, non-overlapping list of pages covering one partition's
//! occupied keyspace, with bisection routing.
//!
//! The invariant: every page is well formed, non-empty and within the page
//! bound, and page envelopes are strictly ordered — `range_end` of a page is
//! strictly below `range_start` of its right neighbour. Operations route a
//! key to the page whose envelope may hold it and delegate.

use vstd::prelude::*;

use crate::config::Config;
use crate::keys::key_lt;
use crate::keys::lemma_key_le_lt;
use crate::keys::lemma_key_le_refl;
use crate::keys::lemma_key_lt_asym;
use crate::keys::lemma_key_lt_le;
use crate::keys::lemma_key_lt_lt;
use crate::keys::KeyCmp;
use crate::keys::StoreKey;
use crate::entries::entries_insert;
use crate::entries::entries_remove;
use crate::entries::has_key;
use crate::entries::lemma_sorted_key_index;
use crate::entries::lemma_split_seq;
use crate::entries::value_of_key;
use crate::page::Page;
use crate::visiter::TreeVisiter;

verus! {

broadcast use vstd::function::group_function_axioms;

/// The total number of entries across a sequence of pages.
pub open spec fn total_of<K: StoreKey, V>(ps: Seq<Page<K, V>>) -> int
    decreases ps.len(),
{
    if ps.len() == 0 {
        0
    } else {
        total_of(ps.drop_last()) + ps.last()@.len()
    }
}

/// Replacing one page changes the total by the difference in its size.
proof fn lemma_total_update<K: StoreKey, V>(ps: Seq<Page<K, V>>, i: int, p: Page<K, V>)
    requires
        0 <= i < ps.len(),
    ensures
        total_of(ps.update(i, p)) == total_of(ps) - ps[i]@.len() + p@.len(),
    decreases ps.len(),
{
    let t = ps.update(i, p);
    if i == ps.len() - 1 {
        assert(t.drop_last() =~= ps.drop_last());
    } else {
        assert(t.drop_last() =~= ps.drop_last().update(i, p));
        lemma_total_update(ps.drop_last(), i, p);
    }
}

/// Inserting a page adds its size to the total.
proof fn lemma_total_insert<K: StoreKey, V>(ps: Seq<Page<K, V>>, i: int, p: Page<K, V>)
    requires
        0 <= i <= ps.len(),
    ensures
        total_of(ps.insert(i, p)) == total_of(ps) + p@.len(),
    decreases ps.len(),
{
    let t = ps.insert(i, p);
    if i == ps.len() {
        assert(t.drop_last() =~= ps);
        assert(t.last() == p);
    } else {
        assert(t.drop_last() =~= ps.drop_last().insert(i, p));
        assert(t.last() == ps.last());
        lemma_total_insert(ps.drop_last(), i, p);
    }
}

/// Removing a page subtracts its size from the total.
proof fn lemma_total_remove<K: StoreKey, V>(ps: Seq<Page<K, V>>, i: int)
    requires
        0 <= i < ps.len(),
    ensures
        total_of(ps.remove(i)) == total_of(ps) - ps[i]@.len(),
    decreases ps.len(),
{
    let t = ps.remove(i);
    if i == ps.len() - 1 {
        assert(t =~= ps.drop_last());
    } else {
        assert(t.drop_last() =~= ps.drop_last().remove(i));
        assert(t.last() == ps.last());
        lemma_total_remove(ps.drop_last(), i);
    }
}

/// A total of entry counts is never negative.
proof fn lemma_total_nonneg<K: StoreKey, V>(ps: Seq<Page<K, V>>)
    ensures
        total_of(ps) >= 0,
    decreases ps.len(),
{
    if ps.len() > 0 {
        lemma_total_nonneg(ps.drop_last());
    }
}

/// One partition's keyspace: an ordered sequence of non-overlapping pages.
pub struct Pages<K, V> {
    config: Config,
    pages: Vec<Page<K, V>>,
    count: usize,
}

impl<K: StoreKey, V> Pages<K, V> {
    /// The pages, in envelope order.
    pub closed spec fn spec_pages(&self) -> Seq<Page<K, V>> {
        self.pages@
    }

    /// The configured page bound.
    pub closed spec fn spec_max_page_size(&self) -> usize {
        self.config.spec_max_page_size()
    }

    /// The cached entry count.
    pub closed spec fn spec_count(&self) -> usize {
        self.count
    }

    /// Page envelopes are strictly ordered and do not overlap.
    pub open spec fn pages_ordered(&self) -> bool {
        forall|i: int|
            0 <= i < self.spec_pages().len() - 1 ==> key_lt::<K>(
                (#[trigger] self.spec_pages()[i]).spec_range_end(),
                self.spec_pages()[i + 1].spec_range_start(),
            )
    }

    /// The invariant: a positive page bound; every page well formed,
    /// non-empty and within the bound; envelopes strictly ordered; and the
    /// cached count equal to the number of entries.
    pub open spec fn wf(&self) -> bool {
        &&& self.spec_max_page_size() >= 1
        &&& forall|i: int|
            0 <= i < self.spec_pages().len() ==> (#[trigger] self.spec_pages()[i]).wf()
        &&& forall|i: int|
            0 <= i < self.spec_pages().len() ==> 1 <= (#[trigger] self.spec_pages()[i])@.len()
                <= self.spec_max_page_size()
        &&& self.pages_ordered()
        &&& self.spec_count() == total_of(self.spec_pages())
    }

    /// Some page holds the key.
    pub open spec fn has(&self, k: K::V) -> bool {
        exists|i: int|
            0 <= i < self.spec_pages().len() && (#[trigger] self.spec_pages()[i]).has(k)
    }

    /// The index of the page holding the key (meaningful when `has` holds).
    pub open spec fn page_of(&self, k: K::V) -> int {
        choose|i: int|
            0 <= i < self.spec_pages().len() && (#[trigger] self.spec_pages()[i]).has(k)
    }

    /// The value stored under the key (meaningful when `has` holds).
    pub open spec fn val(&self, k: K::V) -> V {
        self.spec_pages()[self.page_of(k)].val(k)
    }

    /// A non-empty well-formed page spans a non-empty envelope.
    proof fn lemma_envelope_span(&self, i: int)
        requires
            self.wf(),
            0 <= i < self.spec_pages().len(),
        ensures
            K::key_le(
                self.spec_pages()[i].spec_range_start(),
                self.spec_pages()[i].spec_range_end(),
            ),
    {
        let p = self.spec_pages()[i];
        assert(p@.len() >= 1);
        assert(K::key_le(p.spec_range_start(), p@[0].0) && K::key_le(p@[0].0, p.spec_range_end()));
        K::key_le_transitive(p.spec_range_start(), p@[0].0, p.spec_range_end());
    }

    /// Envelopes of distinct pages are strictly ordered, at any distance.
    proof fn lemma_range_chain(&self, i: int, j: int)
        requires
            self.wf(),
            0 <= i < j < self.spec_pages().len(),
        ensures
            key_lt::<K>(
                self.spec_pages()[i].spec_range_end(),
                self.spec_pages()[j].spec_range_start(),
            ),
        decreases j - i,
    {
        if j == i + 1 {
        } else {
            self.lemma_range_chain(i, j - 1);
            self.lemma_envelope_span(j - 1);
            lemma_key_lt_le::<K>(
                self.spec_pages()[i].spec_range_end(),
                self.spec_pages()[j - 1].spec_range_start(),
                self.spec_pages()[j - 1].spec_range_end(),
            );
            lemma_key_lt_lt::<K>(
                self.spec_pages()[i].spec_range_end(),
                self.spec_pages()[j - 1].spec_range_end(),
                self.spec_pages()[j].spec_range_start(),
            );
        }
    }

    /// A key held by a page lies within that page's envelope.
    proof fn lemma_key_in_envelope(&self, i: int, k: K::V)
        requires
            self.wf(),
            0 <= i < self.spec_pages().len(),
            self.spec_pages()[i].has(k),
        ensures
            K::key_le(self.spec_pages()[i].spec_range_start(), k),
            K::key_le(k, self.spec_pages()[i].spec_range_end()),
    {
        let p = self.spec_pages()[i];
        let idx = choose|idx: int| 0 <= idx < p@.len() && p@[idx].0 == k;
        assert(K::key_le(p.spec_range_start(), p@[idx].0));
    }

    /// No key is held by two pages.
    pub proof fn lemma_at_most_one_page(&self, k: K::V)
        requires
            self.wf(),
        ensures
            forall|i: int, j: int|
                0 <= i < j < self.spec_pages().len() ==> !((#[trigger] self.spec_pages()[i]).has(k)
                    && (#[trigger] self.spec_pages()[j]).has(k)),
    {
        assert forall|i: int, j: int|
            0 <= i < j < self.spec_pages().len() implies !((#[trigger] self.spec_pages()[i]).has(k)
            && (#[trigger] self.spec_pages()[j]).has(k)) by {
            if self.spec_pages()[i].has(k) && self.spec_pages()[j].has(k) {
                self.lemma_key_in_envelope(i, k);
                self.lemma_key_in_envelope(j, k);
                self.lemma_range_chain(i, j);
                // k <= end_i < start_j <= k
                lemma_key_le_lt::<K>(
                    k,
                    self.spec_pages()[i].spec_range_end(),
                    self.spec_pages()[j].spec_range_start(),
                );
                lemma_key_lt_le::<K>(k, self.spec_pages()[j].spec_range_start(), k);
            }
        }
    }

    /// What routing establishes: the key can only live in the page left of
    /// the partition point.
    proof fn lemma_routed(&self, k: K::V, p: int)
        requires
            self.wf(),
            0 <= p <= self.spec_pages().len(),
            forall|j: int|
                0 <= j < p ==> K::key_le((#[trigger] self.spec_pages()[j]).spec_range_start(), k),
            forall|j: int|
                p <= j < self.spec_pages().len() ==> key_lt::<K>(
                    k,
                    (#[trigger] self.spec_pages()[j]).spec_range_start(),
                ),
        ensures
            self.has(k) <==> (p > 0 && self.spec_pages()[p - 1].has(k)),
            p > 0 && self.spec_pages()[p - 1].has(k) ==> self.page_of(k) == p - 1 && self.val(k)
                == self.spec_pages()[p - 1].val(k),
    {
        if self.has(k) {
            let i = choose|i: int|
                0 <= i < self.spec_pages().len() && (#[trigger] self.spec_pages()[i]).has(k);
            self.lemma_key_in_envelope(i, k);
            if i >= p {
                // start_i <= k and k < start_i
                lemma_key_lt_le::<K>(k, self.spec_pages()[i].spec_range_start(), k);
                assert(false);
            }
            if i < p - 1 {
                // k <= end_i < start_{p-1} <= k
                self.lemma_range_chain(i, p - 1);
                lemma_key_le_lt::<K>(
                    k,
                    self.spec_pages()[i].spec_range_end(),
                    self.spec_pages()[p - 1].spec_range_start(),
                );
                lemma_key_lt_le::<K>(k, self.spec_pages()[p - 1].spec_range_start(), k);
                assert(false);
            }
            assert(i == p - 1);
        }
        if p > 0 && self.spec_pages()[p - 1].has(k) {
            assert(self.has(k));
            self.lemma_at_most_one_page(k);
            let i = self.page_of(k);
            assert(0 <= i < self.spec_pages().len() && self.spec_pages()[i].has(k));
            if i < p - 1 {
                assert(!(self.spec_pages()[i].has(k) && self.spec_pages()[p - 1].has(k)));
            }
            if i > p - 1 {
                assert(!(self.spec_pages()[p - 1].has(k) && self.spec_pages()[i].has(k)));
            }
            assert(i == p - 1);
        }
    }

    /// The partition point for a key: the first index whose `range_start` is
    /// strictly greater than the key.
    fn route(&self, key: &K) -> (p: usize)
        requires
            self.wf(),
        ensures
            0 <= p <= self.spec_pages().len(),
            forall|j: int|
                0 <= j < p ==> K::key_le(
                    (#[trigger] self.spec_pages()[j]).spec_range_start(),
                    key@,
                ),
            forall|j: int|
                p <= j < self.spec_pages().len() ==> key_lt::<K>(
                    key@,
                    (#[trigger] self.spec_pages()[j]).spec_range_start(),
                ),
    {
        let n = self.pages.len();
        let mut p: usize = 0;
        while p < n
            invariant
                0 <= p <= n,
                n == self.spec_pages().len(),
                self.wf(),
                forall|j: int|
                    0 <= j < p ==> K::key_le(
                        (#[trigger] self.spec_pages()[j]).spec_range_start(),
                        key@,
                    ),
            decreases n - p,
        {
            match self.pages[p].range_start().key_cmp(key) {
                KeyCmp::Less | KeyCmp::Equal => {
                    proof {
                        lemma_key_le_refl::<K>(key@);
                    }
                    p += 1;
                }
                KeyCmp::Greater => {
                    proof {
                        assert forall|j: int| p <= j < self.spec_pages().len() implies key_lt::<K>(
                            key@,
                            (#[trigger] self.spec_pages()[j]).spec_range_start(),
                        ) by {
                            if j > p {
                                self.lemma_envelope_span(p as int);
                                self.lemma_range_chain(p as int, j);
                                lemma_key_lt_le::<K>(
                                    key@,
                                    self.spec_pages()[p as int].spec_range_start(),
                                    self.spec_pages()[p as int].spec_range_end(),
                                );
                                lemma_key_lt_lt::<K>(
                                    key@,
                                    self.spec_pages()[p as int].spec_range_end(),
                                    self.spec_pages()[j].spec_range_start(),
                                );
                            }
                        }
                    }
                    return p;
                }
            }
        }
        p
    }

    /// An empty partition keyspace under the given configuration.
    pub fn new(config: Config) -> (r: Pages<K, V>)
        requires
            config.wf(),
        ensures
            r.wf(),
            r.spec_pages().len() == 0,
            r.spec_count() == 0,
            r.spec_max_page_size() == config.spec_max_page_size(),
            forall|k: K::V| !r.has(k),
    {
        Pages { config, pages: Vec::new(), count: 0 }
    }

    /// A key found in one page names that page, which supplies its value.
    pub proof fn lemma_val_at(&self, j: int, k: K::V)
        requires
            self.wf(),
            0 <= j < self.spec_pages().len(),
            self.spec_pages()[j].has(k),
        ensures
            self.has(k),
            self.page_of(k) == j,
            self.val(k) == self.spec_pages()[j].val(k),
    {
        assert(self.has(k));
        self.lemma_at_most_one_page(k);
        let i = self.page_of(k);
        assert(0 <= i < self.spec_pages().len() && self.spec_pages()[i].has(k));
        if i < j {
            assert(!(self.spec_pages()[i].has(k) && self.spec_pages()[j].has(k)));
        }
        if j < i {
            assert(!(self.spec_pages()[j].has(k) && self.spec_pages()[i].has(k)));
        }
    }

    /// After replacing page `i` by a page holding its keys plus `kv`, the
    /// whole structure is well formed and denotes the old map extended by
    /// `kv`.
    proof fn lemma_after_update(
        pre: Pages<K, V>,
        post: Pages<K, V>,
        i: int,
        pg2: Page<K, V>,
        kv: K::V,
        value: V,
        was_absent: bool,
    )
        requires
            pre.wf(),
            0 <= i < pre.spec_pages().len(),
            post.spec_pages() == pre.spec_pages().update(i, pg2),
            post.spec_max_page_size() == pre.spec_max_page_size(),
            post.spec_count() == pre.spec_count() + (if was_absent {
                1int
            } else {
                0int
            }),
            pg2.wf(),
            1 <= pg2@.len() <= pre.spec_max_page_size(),
            pg2@.len() == pre.spec_pages()[i]@.len() + (if was_absent {
                1int
            } else {
                0int
            }),
            pg2.spec_range_start() == pre.spec_pages()[i].spec_range_start(),
            i + 1 < pre.spec_pages().len() ==> key_lt::<K>(
                pg2.spec_range_end(),
                pre.spec_pages()[i + 1].spec_range_start(),
            ),
            forall|k: K::V| #[trigger] pg2.has(k) <==> pre.spec_pages()[i].has(k) || k == kv,
            pg2.has(kv) && pg2.val(kv) == value,
            forall|k: K::V|
                k != kv && pre.spec_pages()[i].has(k) ==> #[trigger] pg2.val(k)
                    == pre.spec_pages()[i].val(k),
            was_absent == !pre.spec_pages()[i].has(kv),
            forall|j: int|
                0 <= j <= i ==> K::key_le((#[trigger] pre.spec_pages()[j]).spec_range_start(), kv),
            forall|j: int|
                i < j < pre.spec_pages().len() ==> key_lt::<K>(
                    kv,
                    (#[trigger] pre.spec_pages()[j]).spec_range_start(),
                ),
        ensures
            post.wf(),
            post.has(kv),
            post.val(kv) == value,
            forall|k: K::V| #[trigger] post.has(k) <==> pre.has(k) || k == kv,
            forall|k: K::V| k != kv && pre.has(k) ==> #[trigger] post.val(k) == pre.val(k),
            was_absent == !pre.has(kv),
    {
        let s0 = pre.spec_pages();
        lemma_total_update(s0, i, pg2);
        assert(post.pages_ordered()) by {
            assert forall|j: int|
                0 <= j < post.spec_pages().len() - 1 implies key_lt::<K>(
                (#[trigger] post.spec_pages()[j]).spec_range_end(),
                post.spec_pages()[j + 1].spec_range_start(),
            ) by {
                if j == i - 1 {
                    assert(post.spec_pages()[j] == s0[j]);
                    assert(post.spec_pages()[i].spec_range_start() == s0[i].spec_range_start());
                } else if j == i {
                    assert(post.spec_pages()[j + 1] == s0[j + 1]);
                }
            }
        }
        assert(post.wf());
        post.lemma_val_at(i, kv);
        pre.lemma_routed(kv, i + 1);
        assert forall|k: K::V| #[trigger] post.has(k) <==> pre.has(k) || k == kv by {
            if post.has(k) {
                let j = choose|j: int|
                    0 <= j < post.spec_pages().len() && (#[trigger] post.spec_pages()[j]).has(k);
                if j == i {
                    if k != kv {
                        assert(s0[i].has(k));
                        assert(pre.has(k));
                    }
                } else {
                    assert(s0[j].has(k));
                    assert(pre.has(k));
                }
            }
            if pre.has(k) {
                let j = pre.page_of(k);
                assert(s0[j].has(k));
                if j == i {
                    assert(post.spec_pages()[i].has(k));
                } else {
                    assert(post.spec_pages()[j].has(k));
                }
            }
            if k == kv {
                assert(post.spec_pages()[i].has(k));
            }
        }
        assert forall|k: K::V| k != kv && pre.has(k) implies #[trigger] post.val(k) == pre.val(
            k,
        ) by {
            let j = pre.page_of(k);
            pre.lemma_val_at(j, k);
            if j == i {
                post.lemma_val_at(i, k);
            } else {
                post.lemma_val_at(j, k);
            }
        }
    }

    /// After replacing page `i` by the two halves of its split, the whole
    /// structure is well formed and denotes the old map extended by `kv`.
    #[verifier::rlimit(100)]
    proof fn lemma_after_split(
        pre: Pages<K, V>,
        post: Pages<K, V>,
        i: int,
        pg2: Page<K, V>,
        lower: Page<K, V>,
        upper: Page<K, V>,
        kv: K::V,
        value: V,
        was_absent: bool,
    )
        requires
            pre.wf(),
            0 <= i < pre.spec_pages().len(),
            post.spec_pages() == pre.spec_pages().update(i, lower).insert(i + 1, upper),
            post.spec_max_page_size() == pre.spec_max_page_size(),
            post.spec_count() == pre.spec_count() + (if was_absent {
                1int
            } else {
                0int
            }),
            pg2.wf(),
            2 <= pg2@.len() <= pre.spec_max_page_size() + 1,
            pg2@.len() == pre.spec_pages()[i]@.len() + (if was_absent {
                1int
            } else {
                0int
            }),
            lower@ == pg2@.subrange(0, pg2@.len() as int / 2),
            upper@ == pg2@.subrange(pg2@.len() as int / 2, pg2@.len() as int),
            lower.spec_range_start() == pg2.spec_range_start(),
            lower.spec_range_end() == pg2@[pg2@.len() as int / 2 - 1].0,
            upper.spec_range_start() == pg2@[pg2@.len() as int / 2].0,
            upper.spec_range_end() == pg2.spec_range_end(),
            lower.ordered(),
            upper.ordered(),
            pg2.spec_range_start() == pre.spec_pages()[i].spec_range_start(),
            i + 1 < pre.spec_pages().len() ==> key_lt::<K>(
                pg2.spec_range_end(),
                pre.spec_pages()[i + 1].spec_range_start(),
            ),
            forall|k: K::V| #[trigger] pg2.has(k) <==> pre.spec_pages()[i].has(k) || k == kv,
            pg2.has(kv) && pg2.val(kv) == value,
            forall|k: K::V|
                k != kv && pre.spec_pages()[i].has(k) ==> #[trigger] pg2.val(k)
                    == pre.spec_pages()[i].val(k),
            was_absent == !pre.spec_pages()[i].has(kv),
            forall|j: int|
                0 <= j <= i ==> K::key_le((#[trigger] pre.spec_pages()[j]).spec_range_start(), kv),
            forall|j: int|
                i < j < pre.spec_pages().len() ==> key_lt::<K>(
                    kv,
                    (#[trigger] pre.spec_pages()[j]).spec_range_start(),
                ),
        ensures
            post.wf(),
            post.has(kv),
            post.val(kv) == value,
            forall|k: K::V| #[trigger] post.has(k) <==> pre.has(k) || k == kv,
            forall|k: K::V| k != kv && pre.has(k) ==> #[trigger] post.val(k) == pre.val(k),
            was_absent == !pre.has(kv),
        decreases 0int,
    {
        let s0 = pre.spec_pages();
        let len2 = pg2@.len() as int;
        let mid = len2 / 2;
        lemma_split_seq::<K, V>(pg2@, mid);
        let s1 = s0.update(i, lower);
        lemma_total_update(s0, i, lower);
        lemma_total_insert(s1, i + 1, upper);
        assert(lower.wf()) by {
            assert forall|idx: int| 0 <= idx < lower@.len() implies K::key_le(
                lower.spec_range_start(),
                #[trigger] lower@[idx].0,
            ) && K::key_le(lower@[idx].0, lower.spec_range_end()) by {
                assert(lower@[idx] == pg2@[idx]);
                assert(K::key_le(pg2.spec_range_start(), pg2@[idx].0));
                if idx < mid - 1 {
                    assert(key_lt::<K>(pg2@[idx].0, pg2@[mid - 1].0));
                } else {
                    lemma_key_le_refl::<K>(pg2@[mid - 1].0);
                }
            }
        }
        assert(upper.wf()) by {
            assert forall|idx: int| 0 <= idx < upper@.len() implies K::key_le(
                upper.spec_range_start(),
                #[trigger] upper@[idx].0,
            ) && K::key_le(upper@[idx].0, upper.spec_range_end()) by {
                assert(upper@[idx] == pg2@[mid + idx]);
                assert(K::key_le(pg2@[mid + idx].0, pg2.spec_range_end()));
                if idx > 0 {
                    assert(key_lt::<K>(pg2@[mid].0, pg2@[mid + idx].0));
                } else {
                    lemma_key_le_refl::<K>(pg2@[mid].0);
                }
            }
        }
        assert(1 <= lower@.len() <= pre.spec_max_page_size());
        assert(1 <= upper@.len() <= pre.spec_max_page_size());
        assert(post.pages_ordered()) by {
            assert forall|j: int|
                0 <= j < post.spec_pages().len() - 1 implies key_lt::<K>(
                (#[trigger] post.spec_pages()[j]).spec_range_end(),
                post.spec_pages()[j + 1].spec_range_start(),
            ) by {
                if j < i - 1 {
                    assert(post.spec_pages()[j] == s0[j] && post.spec_pages()[j + 1] == s0[j + 1]);
                } else if j == i - 1 {
                    assert(post.spec_pages()[j] == s0[j]);
                    assert(post.spec_pages()[i] == lower);
                    assert(lower.spec_range_start() == s0[i].spec_range_start());
                } else if j == i {
                    assert(post.spec_pages()[j] == lower && post.spec_pages()[j + 1] == upper);
                    assert(key_lt::<K>(pg2@[mid - 1].0, pg2@[mid].0));
                } else if j == i + 1 {
                    assert(post.spec_pages()[j] == upper && post.spec_pages()[j + 1] == s0[j]);
                    assert(upper.spec_range_end() == pg2.spec_range_end());
                } else {
                    assert(post.spec_pages()[j] == s0[j - 1] && post.spec_pages()[j + 1] == s0[j]);
                }
            }
        }
        assert(post.wf());
        pre.lemma_routed(kv, i + 1);
        assert(pg2.has(kv) && pg2.val(kv) == value);
        if has_key::<K, V>(lower@, kv) {
            post.lemma_val_at(i, kv);
        } else {
            assert(has_key::<K, V>(upper@, kv));
            post.lemma_val_at(i + 1, kv);
        }
        assert forall|k: K::V| #[trigger] post.has(k) <==> pre.has(k) || k == kv by {
            if post.has(k) {
                let j = choose|j: int|
                    0 <= j < post.spec_pages().len() && (#[trigger] post.spec_pages()[j]).has(k);
                if j < i {
                    assert(s0[j].has(k));
                    assert(pre.has(k));
                } else if j == i || j == i + 1 {
                    assert(pg2.has(k));
                    if k != kv {
                        assert(s0[i].has(k));
                        assert(pre.has(k));
                    }
                } else {
                    assert(s0[j - 1].has(k));
                    assert(pre.has(k));
                }
            }
            if pre.has(k) {
                let j = pre.page_of(k);
                assert(s0[j].has(k));
                if j < i {
                    assert(post.spec_pages()[j].has(k));
                } else if j == i {
                    assert(pg2.has(k));
                    if has_key::<K, V>(lower@, k) {
                        assert(post.spec_pages()[i].has(k));
                    } else {
                        assert(post.spec_pages()[i + 1].has(k));
                    }
                } else {
                    assert(post.spec_pages()[j + 1].has(k));
                }
            }
            if k == kv {
                assert(post.has(k));
            }
        }
        assert forall|k: K::V| k != kv && pre.has(k) implies #[trigger] post.val(k) == pre.val(
            k,
        ) by {
            let j = pre.page_of(k);
            pre.lemma_val_at(j, k);
            if j < i {
                post.lemma_val_at(j, k);
            } else if j == i {
                assert(pg2.has(k) && pg2.val(k) == s0[i].val(k));
                if has_key::<K, V>(lower@, k) {
                    post.lemma_val_at(i, k);
                    assert(value_of_key::<K, V>(lower@, k) == pg2.val(k));
                } else {
                    assert(has_key::<K, V>(upper@, k));
                    post.lemma_val_at(i + 1, k);
                    assert(value_of_key::<K, V>(upper@, k) == pg2.val(k));
                }
            } else {
                post.lemma_val_at(j + 1, k);
            }
        }
    }

    /// The page-sequence shape one insert leaves, with `p` the partition
    /// point the key routed to: a fresh singleton page when the key lies
    /// below every page (or the sequence was empty); otherwise the routed
    /// page grown by the entry, its envelope extended up to the key when the
    /// key lay beyond it, and split at the middle index into two pages when
    /// it outgrew the bound.
    pub open spec fn insert_layout(
        pre: Seq<Page<K, V>>,
        post: Seq<Page<K, V>>,
        k: K::V,
        v: V,
        max: int,
        p: int,
    ) -> bool {
        &&& 0 <= p <= pre.len()
        &&& forall|j: int| 0 <= j < p ==> K::key_le((#[trigger] pre[j]).spec_range_start(), k)
        &&& forall|j: int|
            p <= j < pre.len() ==> key_lt::<K>(k, (#[trigger] pre[j]).spec_range_start())
        &&& if p == 0 {
            &&& post.len() == pre.len() + 1
            &&& post[0].page_is(k, k, seq![(k, v)])
            &&& forall|j: int| 1 <= j < post.len() ==> post[j] == pre[j - 1]
        } else {
            let i = p - 1;
            let grown = entries_insert::<K, V>(pre[i]@, k, v);
            let end2 = if key_lt::<K>(pre[i].spec_range_end(), k) {
                k
            } else {
                pre[i].spec_range_end()
            };
            if grown.len() > max {
                let mid = grown.len() as int / 2;
                &&& post.len() == pre.len() + 1
                &&& forall|j: int| 0 <= j < i ==> post[j] == pre[j]
                &&& post[i].page_is(pre[i].spec_range_start(), grown[mid - 1].0, grown.take(mid))
                &&& post[i + 1].page_is(grown[mid].0, end2, grown.skip(mid))
                &&& forall|j: int| i + 2 <= j < post.len() ==> post[j] == pre[j - 1]
            } else {
                &&& post.len() == pre.len()
                &&& forall|j: int| 0 <= j < post.len() && j != i ==> post[j] == pre[j]
                &&& post[i].page_is(pre[i].spec_range_start(), end2, grown)
            }
        }
    }

    /// The page-sequence shape one remove leaves, with `p` the partition
    /// point: untouched when the key routes below every page; otherwise the
    /// routed page shrunk by the entry, and dropped from the sequence
    /// entirely when the removal emptied it.
    pub open spec fn remove_layout(
        pre: Seq<Page<K, V>>,
        post: Seq<Page<K, V>>,
        k: K::V,
        p: int,
    ) -> bool {
        &&& 0 <= p <= pre.len()
        &&& forall|j: int| 0 <= j < p ==> K::key_le((#[trigger] pre[j]).spec_range_start(), k)
        &&& forall|j: int|
            p <= j < pre.len() ==> key_lt::<K>(k, (#[trigger] pre[j]).spec_range_start())
        &&& if p == 0 {
            post == pre
        } else {
            let i = p - 1;
            let shrunk = entries_remove::<K, V>(pre[i]@, k);
            if shrunk.len() == 0 {
                &&& post.len() == pre.len() - 1
                &&& forall|j: int| 0 <= j < i ==> post[j] == pre[j]
                &&& forall|j: int| i <= j < post.len() ==> post[j] == pre[j + 1]
            } else {
                &&& post.len() == pre.len()
                &&& forall|j: int| 0 <= j < post.len() && j != i ==> post[j] == pre[j]
                &&& post[i].page_is(pre[i].spec_range_start(), pre[i].spec_range_end(), shrunk)
            }
        }
    }

    /// Inserts into the page left of partition point `p`, extending its
    /// envelope up to the key when the key lies beyond it and splitting the
    /// page when it outgrows the bound.
    #[verifier::rlimit(100)]
    fn insert_routed(&mut self, p: usize, key: K, value: V) -> (r: bool)
        requires
            old(self).wf(),
            1 <= p <= old(self).spec_pages().len(),
            forall|j: int|
                0 <= j < p ==> K::key_le(
                    (#[trigger] old(self).spec_pages()[j]).spec_range_start(),
                    key@,
                ),
            forall|j: int|
                p <= j < old(self).spec_pages().len() ==> key_lt::<K>(
                    key@,
                    (#[trigger] old(self).spec_pages()[j]).spec_range_start(),
                ),
            old(self).has(key@) || old(self).spec_count() < usize::MAX,
        ensures
            final(self).wf(),
            r == !old(self).has(key@),
            final(self).has(key@),
            final(self).val(key@) == value,
            forall|k: K::V| #[trigger] final(self).has(k) <==> old(self).has(k) || k == key@,
            forall|k: K::V|
                k != key@ && old(self).has(k) ==> #[trigger] final(self).val(k) == old(self).val(
                    k,
                ),
            final(self).spec_count() == old(self).spec_count() + (if r {
                1int
            } else {
                0int
            }),
            final(self).spec_max_page_size() == old(self).spec_max_page_size(),
            Self::insert_layout(
                old(self).spec_pages(),
                final(self).spec_pages(),
                key@,
                value,
                old(self).spec_max_page_size() as int,
                p as int,
            ),
    {
        let ghost pre = *old(self);
        let ghost s0 = self.spec_pages();
        let ghost kv = key@;
        proof {
            self.lemma_routed(kv, p as int);
        }
        let i = p - 1;
        let mut page = self.pages.remove(i);
        let ghost pg0 = page;
        match page.range_end().key_cmp(&key) {
            KeyCmp::Less => {
                let nk = key.key_clone();
                page.set_range_end(nk);
            }
            _ => {},
        }
        let ghost pg1 = page;
        proof {
            assert(pg1@ == pg0@ && pg1.spec_range_start() == pg0.spec_range_start());
            assert(pg1.spec_range_end() == (if key_lt::<K>(pg0.spec_range_end(), kv) {
                kv
            } else {
                pg0.spec_range_end()
            })) by {
                if pg1.spec_range_end() == pg0.spec_range_end() && key_lt::<K>(
                    pg0.spec_range_end(),
                    kv,
                ) {
                    K::key_le_antisymmetric(kv, pg0.spec_range_end());
                }
            }
            assert(K::key_le(pg0.spec_range_end(), pg1.spec_range_end()) && K::key_le(
                kv,
                pg1.spec_range_end(),
            )) by {
                lemma_key_le_refl::<K>(kv);
                lemma_key_le_refl::<K>(pg0.spec_range_end());
            }
            assert(pg1.in_envelope()) by {
                assert forall|idx: int| 0 <= idx < pg1@.len() implies K::key_le(
                    pg1.spec_range_start(),
                    #[trigger] pg1@[idx].0,
                ) && K::key_le(pg1@[idx].0, pg1.spec_range_end()) by {
                    assert(K::key_le(pg0@[idx].0, pg0.spec_range_end()));
                    K::key_le_transitive(pg0@[idx].0, pg0.spec_range_end(), pg1.spec_range_end());
                }
            }
            assert(K::key_le(pg1.spec_range_start(), kv));
            if (p as int) < s0.len() {
                assert(key_lt::<K>(pg1.spec_range_end(), s0[p as int].spec_range_start())) by {
                    if pg1.spec_range_end() == kv {
                    } else {
                        assert(pg1.spec_range_end() == pg0.spec_range_end());
                    }
                }
            }
        }
        let was_absent = page.insert(key, value);
        if was_absent {
            self.count = self.count + 1;
        }
        let ghost pg2 = page;
        proof {
            assert(pg2.ordered());
            assert(pg2@ == entries_insert::<K, V>(s0[i as int]@, kv, value));
            assert(pg2.in_envelope()) by {
                assert forall|idx: int| 0 <= idx < pg2@.len() implies K::key_le(
                    pg2.spec_range_start(),
                    #[trigger] pg2@[idx].0,
                ) && K::key_le(pg2@[idx].0, pg2.spec_range_end()) by {
                    let k = pg2@[idx].0;
                    lemma_sorted_key_index::<K, V>(pg2@, idx);
                    assert(pg2.has(k));
                    if k == kv {
                    } else {
                        assert(pg1.has(k));
                        let idx1 = choose|idx1: int| 0 <= idx1 < pg1@.len() && pg1@[idx1].0 == k;
                        assert(K::key_le(pg1.spec_range_start(), pg1@[idx1].0));
                    }
                }
            }
            assert(pg2.wf());
            assert(!was_absent ==> pre.has(kv)) by {
                if !was_absent {
                    assert(pg1.has(kv) && pg0.has(kv));
                }
            }
            assert(was_absent ==> !pre.has(kv));
        }
        if page.size() > self.config.max_page_size() {
            let next = page.split();
            let ghost lower = page;
            self.pages.insert(i, page);
            self.pages.insert(i + 1, next);
            proof {
                assert(self.spec_pages() =~= s0.update(i as int, lower).insert(i + 1, next));
                Self::lemma_after_split(
                    pre,
                    *self,
                    i as int,
                    pg2,
                    lower,
                    next,
                    kv,
                    value,
                    was_absent,
                );
                assert(Self::insert_layout(
                    s0,
                    self.spec_pages(),
                    kv,
                    value,
                    pre.spec_max_page_size() as int,
                    p as int,
                ));
            }
            was_absent
        } else {
            self.pages.insert(i, page);
            proof {
                assert(self.spec_pages() =~= s0.update(i as int, pg2));
                Self::lemma_after_update(pre, *self, i as int, pg2, kv, value, was_absent);
                assert(Self::insert_layout(
                    s0,
                    self.spec_pages(),
                    kv,
                    value,
                    pre.spec_max_page_size() as int,
                    p as int,
                ));
            }
            was_absent
        }
    }

    /// Inserts or overwrites; reports whether the key was absent before.
    /// Routes the key, extends the target page's envelope when the key lies
    /// beyond it, and splits the page when it outgrows the bound; the layout
    /// clause pins where the entry and any new page land.
    pub fn insert(&mut self, key: K, value: V) -> (r: bool)
        requires
            old(self).wf(),
            old(self).has(key@) || old(self).spec_count() < usize::MAX,
        ensures
            final(self).wf(),
            r == !old(self).has(key@),
            final(self).has(key@),
            final(self).val(key@) == value,
            forall|k: K::V| #[trigger] final(self).has(k) <==> old(self).has(k) || k == key@,
            forall|k: K::V|
                k != key@ && old(self).has(k) ==> #[trigger] final(self).val(k) == old(self).val(
                    k,
                ),
            final(self).spec_count() == old(self).spec_count() + (if r {
                1int
            } else {
                0int
            }),
            final(self).spec_max_page_size() == old(self).spec_max_page_size(),
            exists|p: int|
                #[trigger] Self::insert_layout(
                    old(self).spec_pages(),
                    final(self).spec_pages(),
                    key@,
                    value,
                    old(self).spec_max_page_size() as int,
                    p,
                ),
    {
        let ghost pre = *old(self);
        let ghost s0 = self.spec_pages();
        let ghost kv = key@;
        if self.pages.len() == 0 {
            let page = Page::from_key_value(key, value);
            self.pages.push(page);
            self.count = self.count + 1;
            proof {
                assert(self.spec_pages() =~= s0.push(page));
                assert(s0.push(page).drop_last() =~= s0);
                assert(page@[0].0 == kv);
                assert(page.has(kv));
                lemma_sorted_key_index::<K, V>(page@, 0);
                assert(self.wf());
                self.lemma_val_at(0, kv);
                assert forall|k: K::V| #[trigger] self.has(k) <==> pre.has(k) || k == kv by {
                    if self.has(k) {
                        let j = choose|j: int|
                            0 <= j < self.spec_pages().len() && (#[trigger] self.spec_pages()[
                                j
                            ]).has(k);
                        assert(j == 0);
                        let idx = choose|idx: int| 0 <= idx < page@.len() && page@[idx].0 == k;
                        assert(k == kv);
                    }
                    if k == kv {
                        assert(self.spec_pages()[0].has(k));
                    }
                }
                assert(Self::insert_layout(
                    s0,
                    self.spec_pages(),
                    kv,
                    value,
                    pre.spec_max_page_size() as int,
                    0,
                ));
            }
            return true;
        }
        let p = self.route(&key);
        proof {
            self.lemma_routed(kv, p as int);
        }
        if p == 0 {
            let page = Page::from_key_value(key, value);
            self.pages.insert(0, page);
            self.count = self.count + 1;
            proof {
                lemma_total_insert(s0, 0, page);
                assert(page@[0].0 == kv);
                assert(page.has(kv));
                lemma_sorted_key_index::<K, V>(page@, 0);
                assert(self.spec_pages() == s0.insert(0, page));
                assert(self.spec_pages().len() == s0.len() + 1);
                assert(forall|j: int|
                    1 <= j < self.spec_pages().len() ==> self.spec_pages()[j] == s0[j - 1]);
                assert(self.pages_ordered()) by {
                    assert forall|j: int|
                        0 <= j < self.spec_pages().len() - 1 implies key_lt::<K>(
                        (#[trigger] self.spec_pages()[j]).spec_range_end(),
                        self.spec_pages()[j + 1].spec_range_start(),
                    ) by {
                        if j == 0 {
                            assert(self.spec_pages()[0].spec_range_end() == kv);
                            assert(key_lt::<K>(kv, s0[0].spec_range_start()));
                        }
                    }
                }
                assert(self.wf());
                self.lemma_val_at(0, kv);
                assert forall|k: K::V| #[trigger] self.has(k) <==> pre.has(k) || k == kv by {
                    if self.has(k) {
                        let j = choose|j: int|
                            0 <= j < self.spec_pages().len() && (#[trigger] self.spec_pages()[
                                j
                            ]).has(k);
                        if j == 0 {
                            let idx = choose|idx: int| 0 <= idx < page@.len() && page@[idx].0 == k;
                            assert(k == kv);
                        } else {
                            assert(s0[j - 1].has(k));
                            assert(pre.has(k));
                        }
                    }
                    if pre.has(k) {
                        let j = pre.page_of(k);
                        assert(s0[j].has(k));
                        assert(self.spec_pages()[j + 1].has(k));
                    }
                    if k == kv {
                        assert(self.spec_pages()[0].has(k));
                    }
                }
                assert forall|k: K::V| k != kv && pre.has(k) implies #[trigger] self.val(k)
                    == pre.val(k) by {
                    pre.lemma_val_at(pre.page_of(k), k);
                    let j = pre.page_of(k);
                    assert(self.spec_pages()[j + 1].has(k));
                    self.lemma_val_at(j + 1, k);
                }
                assert(Self::insert_layout(
                    s0,
                    self.spec_pages(),
                    kv,
                    value,
                    pre.spec_max_page_size() as int,
                    0,
                ));
            }
            return true;
        }
        self.insert_routed(p, key, value)
    }

    /// After replacing page `i` by a page holding its keys minus `kv`, the
    /// whole structure is well formed and denotes the old map without `kv`.
    proof fn lemma_after_shrink(
        pre: Pages<K, V>,
        post: Pages<K, V>,
        i: int,
        pg2: Page<K, V>,
        kv: K::V,
        removed: bool,
    )
        requires
            pre.wf(),
            0 <= i < pre.spec_pages().len(),
            post.spec_pages() == pre.spec_pages().update(i, pg2),
            post.spec_max_page_size() == pre.spec_max_page_size(),
            post.spec_count() == pre.spec_count() - (if removed {
                1int
            } else {
                0int
            }),
            pg2.ordered(),
            1 <= pg2@.len(),
            pg2@.len() == pre.spec_pages()[i]@.len() - (if removed {
                1int
            } else {
                0int
            }),
            pg2.spec_range_start() == pre.spec_pages()[i].spec_range_start(),
            pg2.spec_range_end() == pre.spec_pages()[i].spec_range_end(),
            forall|k: K::V| #[trigger] pg2.has(k) <==> pre.spec_pages()[i].has(k) && k != kv,
            forall|k: K::V|
                k != kv && pre.spec_pages()[i].has(k) ==> #[trigger] pg2.val(k)
                    == pre.spec_pages()[i].val(k),
            removed == pre.spec_pages()[i].has(kv),
            forall|j: int|
                0 <= j <= i ==> K::key_le((#[trigger] pre.spec_pages()[j]).spec_range_start(), kv),
            forall|j: int|
                i < j < pre.spec_pages().len() ==> key_lt::<K>(
                    kv,
                    (#[trigger] pre.spec_pages()[j]).spec_range_start(),
                ),
        ensures
            post.wf(),
            !post.has(kv),
            forall|k: K::V| #[trigger] post.has(k) <==> pre.has(k) && k != kv,
            forall|k: K::V| k != kv && pre.has(k) ==> #[trigger] post.val(k) == pre.val(k),
    {
        let s0 = pre.spec_pages();
        lemma_total_update(s0, i, pg2);
        assert(pg2.in_envelope()) by {
            assert forall|idx: int| 0 <= idx < pg2@.len() implies K::key_le(
                pg2.spec_range_start(),
                #[trigger] pg2@[idx].0,
            ) && K::key_le(pg2@[idx].0, pg2.spec_range_end()) by {
                let k = pg2@[idx].0;
                lemma_sorted_key_index::<K, V>(pg2@, idx);
                assert(pg2.has(k));
                assert(s0[i].has(k));
                pre.lemma_key_in_envelope(i, k);
            }
        }
        assert(post.pages_ordered()) by {
            assert forall|j: int|
                0 <= j < post.spec_pages().len() - 1 implies key_lt::<K>(
                (#[trigger] post.spec_pages()[j]).spec_range_end(),
                post.spec_pages()[j + 1].spec_range_start(),
            ) by {
                if j == i - 1 {
                    assert(post.spec_pages()[j] == s0[j]);
                } else if j == i {
                    assert(post.spec_pages()[j + 1] == s0[j + 1]);
                }
            }
        }
        assert(post.wf());
        pre.lemma_at_most_one_page(kv);
        pre.lemma_routed(kv, i + 1);
        assert forall|k: K::V| #[trigger] post.has(k) <==> pre.has(k) && k != kv by {
            if post.has(k) {
                let j = choose|j: int|
                    0 <= j < post.spec_pages().len() && (#[trigger] post.spec_pages()[j]).has(k);
                if j == i {
                    assert(s0[i].has(k) && k != kv);
                    assert(pre.has(k));
                } else {
                    assert(s0[j].has(k));
                    assert(pre.has(k));
                    if k == kv {
                        assert(s0[i].has(kv));
                        assert(!(s0[i].has(kv) && s0[j].has(kv)) || i == j);
                        assert(false);
                    }
                }
            }
            if pre.has(k) && k != kv {
                let j = pre.page_of(k);
                assert(s0[j].has(k));
                if j == i {
                    assert(post.spec_pages()[i].has(k));
                } else {
                    assert(post.spec_pages()[j].has(k));
                }
            }
        }
        assert forall|k: K::V| k != kv && pre.has(k) implies #[trigger] post.val(k) == pre.val(
            k,
        ) by {
            let j = pre.page_of(k);
            pre.lemma_val_at(j, k);
            if j == i {
                post.lemma_val_at(i, k);
            } else {
                post.lemma_val_at(j, k);
            }
        }
    }

    /// After dropping page `i`, which held only `kv`, the whole structure is
    /// well formed and denotes the old map without `kv`.
    proof fn lemma_after_drop(pre: Pages<K, V>, post: Pages<K, V>, i: int, kv: K::V)
        requires
            pre.wf(),
            0 <= i < pre.spec_pages().len(),
            post.spec_pages() == pre.spec_pages().remove(i),
            post.spec_max_page_size() == pre.spec_max_page_size(),
            post.spec_count() == pre.spec_count() - 1,
            pre.spec_pages()[i]@.len() == 1,
            pre.spec_pages()[i].has(kv),
        ensures
            post.wf(),
            !post.has(kv),
            forall|k: K::V| #[trigger] post.has(k) <==> pre.has(k) && k != kv,
            forall|k: K::V| k != kv && pre.has(k) ==> #[trigger] post.val(k) == pre.val(k),
    {
        let s0 = pre.spec_pages();
        lemma_total_remove(s0, i);
        assert(post.pages_ordered()) by {
            assert forall|j: int|
                0 <= j < post.spec_pages().len() - 1 implies key_lt::<K>(
                (#[trigger] post.spec_pages()[j]).spec_range_end(),
                post.spec_pages()[j + 1].spec_range_start(),
            ) by {
                if j < i - 1 {
                    assert(post.spec_pages()[j] == s0[j] && post.spec_pages()[j + 1] == s0[j + 1]);
                } else if j == i - 1 {
                    assert(post.spec_pages()[j] == s0[j] && post.spec_pages()[j + 1] == s0[j + 1
                        + 1]);
                    pre.lemma_range_chain(i - 1, i + 1);
                } else {
                    assert(post.spec_pages()[j] == s0[j + 1] && post.spec_pages()[j + 1] == s0[j + 1
                        + 1]);
                }
            }
        }
        assert(post.wf());
        pre.lemma_at_most_one_page(kv);
        assert(s0[i]@[0].0 == kv) by {
            let idx = choose|idx: int| 0 <= idx < s0[i]@.len() && s0[i]@[idx].0 == kv;
        }
        assert forall|k: K::V| #[trigger] post.has(k) <==> pre.has(k) && k != kv by {
            if post.has(k) {
                let j = choose|j: int|
                    0 <= j < post.spec_pages().len() && (#[trigger] post.spec_pages()[j]).has(k);
                let j0 = if j < i {
                    j
                } else {
                    j + 1
                };
                assert(s0[j0].has(k));
                assert(pre.has(k));
                if k == kv {
                    assert(!(s0[i].has(kv) && s0[j0].has(kv)) || i == j0);
                    assert(false);
                }
            }
            if pre.has(k) && k != kv {
                let j = pre.page_of(k);
                assert(s0[j].has(k));
                if j == i {
                    let idx = choose|idx: int| 0 <= idx < s0[i]@.len() && s0[i]@[idx].0 == k;
                    assert(idx == 0);
                    assert(false);
                } else if j < i {
                    assert(post.spec_pages()[j].has(k));
                } else {
                    assert(post.spec_pages()[j - 1].has(k));
                }
            }
        }
        assert forall|k: K::V| k != kv && pre.has(k) implies #[trigger] post.val(k) == pre.val(
            k,
        ) by {
            let j = pre.page_of(k);
            pre.lemma_val_at(j, k);
            if j < i {
                post.lemma_val_at(j, k);
            } else {
                post.lemma_val_at(j - 1, k);
            }
        }
    }

    /// Removes the key if present; reports whether a removal occurred. A page
    /// emptied by the removal is dropped from the sequence; the layout clause
    /// pins exactly that.
    pub fn remove(&mut self, key: &K) -> (r: bool)
        requires
            old(self).wf(),
        ensures
            final(self).wf(),
            r == old(self).has(key@),
            !final(self).has(key@),
            forall|k: K::V| #[trigger] final(self).has(k) <==> old(self).has(k) && k != key@,
            forall|k: K::V|
                k != key@ && old(self).has(k) ==> #[trigger] final(self).val(k) == old(self).val(
                    k,
                ),
            final(self).spec_count() == old(self).spec_count() - (if r {
                1int
            } else {
                0int
            }),
            final(self).spec_max_page_size() == old(self).spec_max_page_size(),
            exists|p: int|
                #[trigger] Self::remove_layout(
                    old(self).spec_pages(),
                    final(self).spec_pages(),
                    key@,
                    p,
                ),
    {
        let ghost pre = *old(self);
        let ghost s0 = self.spec_pages();
        let ghost kv = key@;
        if self.pages.len() == 0 {
            proof {
                assert(Self::remove_layout(s0, self.spec_pages(), kv, 0));
            }
            return false;
        }
        let p = self.route(key);
        proof {
            self.lemma_routed(kv, p as int);
        }
        if p == 0 {
            proof {
                assert(Self::remove_layout(s0, self.spec_pages(), kv, 0));
            }
            return false;
        }
        let i = p - 1;
        let mut page = self.pages.remove(i);
        let ghost pg0 = page;
        let removed = page.remove(key);
        let ghost pg2 = page;
        if removed {
            proof {
                lemma_total_remove(s0, i as int);
                lemma_total_nonneg(s0.remove(i as int));
            }
            self.count = self.count - 1;
        }
        if removed && page.size() == 0 {
            proof {
                assert(self.spec_pages() =~= s0.remove(i as int));
                assert(pg0@.len() == 1);
                Self::lemma_after_drop(pre, *self, i as int, kv);
                assert(Self::remove_layout(s0, self.spec_pages(), kv, p as int));
            }
            true
        } else {
            self.pages.insert(i, page);
            proof {
                assert(self.spec_pages() =~= s0.update(i as int, pg2));
                assert(pg2@.len() >= 1);
                Self::lemma_after_shrink(pre, *self, i as int, pg2, kv, removed);
                assert(Self::remove_layout(s0, self.spec_pages(), kv, p as int));
            }
            removed
        }
    }

    /// Ordered-map lookup across pages.
    pub fn get(&self, key: &K) -> (r: Option<&V>)
        requires
            self.wf(),
        ensures
            match r {
                Some(v) => self.has(key@) && *v == self.val(key@),
                None => !self.has(key@),
            },
    {
        if self.pages.len() == 0 {
            return None;
        }
        let p = self.route(key);
        proof {
            self.lemma_routed(key@, p as int);
        }
        if p == 0 {
            None
        } else {
            self.pages[p - 1].get(key)
        }
    }

    /// Whether the key is present in any page.
    pub fn contains(&self, key: &K) -> (r: bool)
        requires
            self.wf(),
        ensures
            r == self.has(key@),
    {
        if self.pages.len() == 0 {
            return false;
        }
        let p = self.route(key);
        proof {
            self.lemma_routed(key@, p as int);
        }
        if p == 0 {
            false
        } else {
            self.pages[p - 1].contains(key)
        }
    }

    /// The smallest entry strictly greater than `key` anywhere in the
    /// partition; the key need not exist.
    pub fn succ(&self, key: &K) -> (r: Option<(&K, &V)>)
        requires
            self.wf(),
        ensures
            match r {
                Some(e) => self.has(e.0@) && self.val(e.0@) == *e.1 && key_lt::<K>(key@, e.0@)
                    && forall|k: K::V|
                    #[trigger] self.has(k) && key_lt::<K>(key@, k) ==> K::key_le(e.0@, k),
                None => forall|k: K::V| #[trigger] self.has(k) ==> !key_lt::<K>(key@, k),
            },
    {
        let p = self.route(key);
        let ghost kv = key@;
        let ghost s0 = self.spec_pages();
        if p > 0 {
            let i = p - 1;
            let found = self.pages[i].succ(key);
            match found {
                Some(e) => {
                    proof {
                        self.lemma_val_at(i as int, e.0@);
                        assert forall|k: K::V|
                            #[trigger] self.has(k) && key_lt::<K>(kv, k) implies K::key_le(
                            e.0@,
                            k,
                        ) by {
                            let j = self.page_of(k);
                            self.lemma_val_at(j, k);
                            self.lemma_key_in_envelope(j, k);
                            if j < i {
                                self.lemma_range_chain(j, i as int);
                                // k <= end_j < start_i <= kv, yet kv < k
                                lemma_key_le_lt::<K>(
                                    k,
                                    s0[j].spec_range_end(),
                                    s0[i as int].spec_range_start(),
                                );
                                lemma_key_lt_le::<K>(k, s0[i as int].spec_range_start(), kv);
                                lemma_key_lt_asym::<K>(k, kv);
                            } else if j == i {
                                let idx = choose|idx: int|
                                    0 <= idx < s0[j]@.len() && s0[j]@[idx].0 == k;
                            } else {
                                self.lemma_key_in_envelope(i as int, e.0@);
                                self.lemma_range_chain(i as int, j);
                                // e <= end_i < start_j <= k
                                lemma_key_le_lt::<K>(
                                    e.0@,
                                    s0[i as int].spec_range_end(),
                                    s0[j].spec_range_start(),
                                );
                                lemma_key_lt_le::<K>(e.0@, s0[j].spec_range_start(), k);
                            }
                        }
                    }
                    return Some(e);
                }
                None => {},
            }
        }
        proof {
            self.lemma_routed(kv, p as int);
        }
        if p < self.pages.len() {
            let first = self.pages[p].first();
            match first {
                Some(e) => {
                    proof {
                        lemma_sorted_key_index::<K, V>(s0[p as int]@, 0);
                        self.lemma_val_at(p as int, e.0@);
                        self.lemma_key_in_envelope(p as int, e.0@);
                        lemma_key_lt_le::<K>(kv, s0[p as int].spec_range_start(), e.0@);
                        assert forall|k: K::V|
                            #[trigger] self.has(k) && key_lt::<K>(kv, k) implies K::key_le(
                            e.0@,
                            k,
                        ) by {
                            let j = self.page_of(k);
                            self.lemma_val_at(j, k);
                            self.lemma_key_in_envelope(j, k);
                            let idx = choose|idx: int| 0 <= idx < s0[j]@.len() && s0[j]@[idx].0 == k;
                            if j < p - 1 {
                                self.lemma_range_chain(j, p - 1);
                                lemma_key_le_lt::<K>(
                                    k,
                                    s0[j].spec_range_end(),
                                    s0[p - 1].spec_range_start(),
                                );
                                lemma_key_lt_le::<K>(k, s0[p - 1].spec_range_start(), kv);
                                lemma_key_lt_asym::<K>(k, kv);
                            } else if j == p - 1 {
                                assert(!key_lt::<K>(kv, s0[j]@[idx].0));
                            } else if j == p {
                                if idx == 0 {
                                    lemma_key_le_refl::<K>(e.0@);
                                } else {
                                    assert(key_lt::<K>(s0[j]@[0].0, s0[j]@[idx].0));
                                }
                            } else {
                                self.lemma_range_chain(p as int, j);
                                // e <= end_p < start_j <= k
                                lemma_key_le_lt::<K>(
                                    e.0@,
                                    s0[p as int].spec_range_end(),
                                    s0[j].spec_range_start(),
                                );
                                lemma_key_lt_le::<K>(e.0@, s0[j].spec_range_start(), k);
                            }
                        }
                    }
                    Some(e)
                }
                None => {
                    proof {
                        assert(s0[p as int]@.len() >= 1);
                        assert(false);
                    }
                    None
                }
            }
        } else {
            proof {
                assert forall|k: K::V| #[trigger] self.has(k) implies !key_lt::<K>(kv, k) by {
                    let j = self.page_of(k);
                    self.lemma_val_at(j, k);
                    self.lemma_key_in_envelope(j, k);
                    let idx = choose|idx: int| 0 <= idx < s0[j]@.len() && s0[j]@[idx].0 == k;
                    if j < p - 1 {
                        self.lemma_range_chain(j, p - 1);
                        lemma_key_le_lt::<K>(
                            k,
                            s0[j].spec_range_end(),
                            s0[p - 1].spec_range_start(),
                        );
                        lemma_key_lt_le::<K>(k, s0[p - 1].spec_range_start(), kv);
                        lemma_key_lt_asym::<K>(k, kv);
                    } else {
                        assert(j == p - 1);
                        assert(!key_lt::<K>(kv, s0[j]@[idx].0));
                    }
                }
            }
            None
        }
    }

    /// The greatest entry strictly less than `key` anywhere in the partition;
    /// the key need not exist.
    pub fn pred(&self, key: &K) -> (r: Option<(&K, &V)>)
        requires
            self.wf(),
        ensures
            match r {
                Some(e) => self.has(e.0@) && self.val(e.0@) == *e.1 && key_lt::<K>(e.0@, key@)
                    && forall|k: K::V|
                    #[trigger] self.has(k) && key_lt::<K>(k, key@) ==> K::key_le(k, e.0@),
                None => forall|k: K::V| #[trigger] self.has(k) ==> !key_lt::<K>(k, key@),
            },
    {
        let p = self.route(key);
        let ghost kv = key@;
        let ghost s0 = self.spec_pages();
        proof {
            self.lemma_routed(kv, p as int);
        }
        if p == 0 {
            proof {
                assert forall|k: K::V| #[trigger] self.has(k) implies !key_lt::<K>(k, kv) by {
                    let j = self.page_of(k);
                    self.lemma_val_at(j, k);
                    self.lemma_key_in_envelope(j, k);
                    // kv < start_j <= k
                    lemma_key_lt_le::<K>(kv, s0[j].spec_range_start(), k);
                    lemma_key_lt_asym::<K>(kv, k);
                }
            }
            return None;
        }
        let i = p - 1;
        let found = self.pages[i].pred(key);
        match found {
            Some(e) => {
                proof {
                    self.lemma_val_at(i as int, e.0@);
                    assert forall|k: K::V|
                        #[trigger] self.has(k) && key_lt::<K>(k, kv) implies K::key_le(
                        k,
                        e.0@,
                    ) by {
                        let j = self.page_of(k);
                        self.lemma_val_at(j, k);
                        self.lemma_key_in_envelope(j, k);
                        let idx = choose|idx: int| 0 <= idx < s0[j]@.len() && s0[j]@[idx].0 == k;
                        if j < i {
                            self.lemma_key_in_envelope(i as int, e.0@);
                            self.lemma_range_chain(j, i as int);
                            // k <= end_j < start_i <= e
                            lemma_key_le_lt::<K>(
                                k,
                                s0[j].spec_range_end(),
                                s0[i as int].spec_range_start(),
                            );
                            lemma_key_lt_le::<K>(k, s0[i as int].spec_range_start(), e.0@);
                        } else if j > i {
                            // kv < start_j <= k, yet k < kv
                            lemma_key_lt_le::<K>(kv, s0[j].spec_range_start(), k);
                            lemma_key_lt_asym::<K>(kv, k);
                        }
                    }
                }
                Some(e)
            }
            None => {
                if i == 0 {
                    proof {
                        assert forall|k: K::V| #[trigger] self.has(k) implies !key_lt::<K>(
                            k,
                            kv,
                        ) by {
                            let j = self.page_of(k);
                            self.lemma_val_at(j, k);
                            self.lemma_key_in_envelope(j, k);
                            let idx = choose|idx: int|
                                0 <= idx < s0[j]@.len() && s0[j]@[idx].0 == k;
                            if j == 0 {
                                assert(!key_lt::<K>(s0[j]@[idx].0, kv));
                            } else {
                                lemma_key_lt_le::<K>(kv, s0[j].spec_range_start(), k);
                                lemma_key_lt_asym::<K>(kv, k);
                            }
                        }
                    }
                    return None;
                }
                let last = self.pages[i - 1].last();
                match last {
                    Some(e) => {
                        proof {
                            let ghost li = i - 1;
                            lemma_sorted_key_index::<K, V>(s0[li as int]@, s0[li as int]@.len() - 1);
                            self.lemma_val_at(li as int, e.0@);
                            self.lemma_key_in_envelope(li as int, e.0@);
                            // e <= end_{i-1} < start_i <= kv
                            lemma_key_le_lt::<K>(
                                e.0@,
                                s0[li as int].spec_range_end(),
                                s0[i as int].spec_range_start(),
                            );
                            lemma_key_lt_le::<K>(e.0@, s0[i as int].spec_range_start(), kv);
                            assert forall|k: K::V|
                                #[trigger] self.has(k) && key_lt::<K>(k, kv) implies K::key_le(
                                k,
                                e.0@,
                            ) by {
                                let j = self.page_of(k);
                                self.lemma_val_at(j, k);
                                self.lemma_key_in_envelope(j, k);
                                let idx = choose|idx: int|
                                    0 <= idx < s0[j]@.len() && s0[j]@[idx].0 == k;
                                if j < li {
                                    self.lemma_range_chain(j, li as int);
                                    lemma_key_le_lt::<K>(
                                        k,
                                        s0[j].spec_range_end(),
                                        s0[li as int].spec_range_start(),
                                    );
                                    lemma_key_lt_le::<K>(
                                        k,
                                        s0[li as int].spec_range_start(),
                                        e.0@,
                                    );
                                } else if j == li {
                                    if idx == s0[j]@.len() - 1 {
                                        lemma_key_le_refl::<K>(e.0@);
                                    } else {
                                        assert(key_lt::<K>(
                                            s0[j]@[idx].0,
                                            s0[j]@[s0[j]@.len() - 1].0,
                                        ));
                                    }
                                } else if j == i {
                                    assert(!key_lt::<K>(s0[j]@[idx].0, kv));
                                } else {
                                    lemma_key_lt_le::<K>(kv, s0[j].spec_range_start(), k);
                                    lemma_key_lt_asym::<K>(kv, k);
                                }
                            }
                        }
                        Some(e)
                    }
                    None => {
                        proof {
                            assert(s0[i - 1]@.len() >= 1);
                            assert(false);
                        }
                        None
                    }
                }
            }
        }
    }

    /// The emitted entries of a range scan: strictly ascending keys, all
    /// within `[lo, hi]` and present with their stored values; every call but
    /// the last returned `true`. A `true` outcome means every stored key
    /// within the bounds was emitted; a `false` outcome means at least one
    /// entry was emitted, the last recorded call refused, and every stored
    /// key within the bounds strictly below the stopping key was emitted
    /// before it.
    pub open spec fn range_emits<F: FnMut(&K, &V) -> bool>(
        &self,
        lo: K::V,
        hi: K::V,
        callback: F,
        r: bool,
        es: Seq<(K, V)>,
    ) -> bool {
        &&& forall|m1: int, m2: int|
            0 <= m1 < m2 < es.len() ==> key_lt::<K>((#[trigger] es[m1]).0@, (#[trigger] es[m2]).0@)
        &&& forall|m: int|
            0 <= m < es.len() ==> K::key_le(lo, (#[trigger] es[m]).0@) && K::key_le(es[m].0@, hi)
        &&& forall|m: int|
            0 <= m < es.len() ==> self.has((#[trigger] es[m]).0@) && self.val(es[m].0@) == es[m].1
        &&& forall|m: int|
            0 <= m < es.len() ==> call_ensures(
                callback,
                (&(#[trigger] es[m]).0, &es[m].1),
                m < es.len() - 1 || r,
            )
        &&& (r ==> forall|k: K::V|
            #[trigger] self.has(k) && K::key_le(lo, k) && K::key_le(k, hi) ==> exists|m: int|
                0 <= m < es.len() && (#[trigger] es[m]).0@ == k)
        &&& (!r ==> es.len() >= 1)
        &&& (!r ==> forall|k: K::V|
            #[trigger] self.has(k) && K::key_le(lo, k) && K::key_le(k, hi) && key_lt::<K>(
                k,
                es[es.len() - 1].0@,
            ) ==> exists|m: int| 0 <= m < es.len() && (#[trigger] es[m]).0@ == k)
    }

    /// The per-emission facts a range scan maintains: emitted keys are
    /// strictly ascending, within the bounds, present with their stored
    /// values, and every call made so far returned `true`.
    spec fn scan_inv<F: FnMut(&K, &V) -> bool>(
        &self,
        lo: K::V,
        hi: K::V,
        callback: F,
        es: Seq<(K, V)>,
    ) -> bool {
        &&& forall|m1: int, m2: int|
            0 <= m1 < m2 < es.len() ==> key_lt::<K>((#[trigger] es[m1]).0@, (#[trigger] es[m2]).0@)
        &&& forall|m: int|
            0 <= m < es.len() ==> K::key_le(lo, (#[trigger] es[m]).0@) && K::key_le(es[m].0@, hi)
        &&& forall|m: int|
            0 <= m < es.len() ==> self.has((#[trigger] es[m]).0@) && self.val(es[m].0@) == es[m].1
        &&& forall|m: int|
            0 <= m < es.len() ==> call_ensures(callback, (&(#[trigger] es[m]).0, &es[m].1), true)
    }

    /// Entries of page `pg` before position `idx` that lie within the bounds
    /// are all emitted.
    spec fn page_scanned(pg: Page<K, V>, lo: K::V, hi: K::V, es: Seq<(K, V)>, idx: int) -> bool {
        forall|q: int|
            0 <= q < idx && K::key_le(lo, (#[trigger] pg@[q]).0) && K::key_le(pg@[q].0, hi)
                ==> exists|m: int| 0 <= m < es.len() && (#[trigger] es[m]).0@ == pg@[q].0
    }

    /// One emission step: pushing the just-visited entry preserves every scan
    /// fact, and a refusing call completes the scan's contract with `false`.
    proof fn lemma_push_step<F: FnMut(&K, &V) -> bool>(
        &self,
        lo: K::V,
        hi: K::V,
        callback: F,
        es: Seq<(K, V)>,
        j: int,
        idx: int,
        pair: (K, V),
        cont: bool,
    )
        requires
            self.wf(),
            0 <= j < self.spec_pages().len(),
            0 <= idx < self.spec_pages()[j]@.len(),
            pair == self.spec_pages()[j].spec_entries()[idx],
            pair.0@ == self.spec_pages()[j]@[idx].0,
            pair.1 == self.spec_pages()[j]@[idx].1,
            K::key_le(lo, pair.0@),
            K::key_le(pair.0@, hi),
            self.scan_inv(lo, hi, callback, es),
            forall|m: int, q: int|
                0 <= m < es.len() && idx <= q < self.spec_pages()[j]@.len() ==> key_lt::<K>(
                    (#[trigger] es[m]).0@,
                    (#[trigger] self.spec_pages()[j]@[q]).0,
                ),
            forall|m: int, jj: int|
                0 <= m < es.len() && j < jj < self.spec_pages().len() ==> key_lt::<K>(
                    (#[trigger] es[m]).0@,
                    (#[trigger] self.spec_pages()[jj]).spec_range_start(),
                ),
            self.scanned_before::<F>(lo, hi, es, j),
            Self::page_scanned(self.spec_pages()[j], lo, hi, es, idx),
            call_ensures(callback, (&pair.0, &pair.1), cont),
        ensures
            cont ==> self.scan_inv(lo, hi, callback, es.push(pair)),
            !cont ==> self.range_emits(lo, hi, callback, false, es.push(pair)),
            forall|m: int, q: int|
                0 <= m < es.push(pair).len() && idx + 1 <= q < self.spec_pages()[j]@.len()
                    ==> key_lt::<K>(
                    (#[trigger] es.push(pair)[m]).0@,
                    (#[trigger] self.spec_pages()[j]@[q]).0,
                ),
            forall|m: int, jj: int|
                0 <= m < es.push(pair).len() && j < jj < self.spec_pages().len() ==> key_lt::<K>(
                    (#[trigger] es.push(pair)[m]).0@,
                    (#[trigger] self.spec_pages()[jj]).spec_range_start(),
                ),
            self.scanned_before::<F>(lo, hi, es.push(pair), j),
            Self::page_scanned(self.spec_pages()[j], lo, hi, es.push(pair), idx + 1),
    {
        let pg = self.spec_pages()[j];
        let t = es.push(pair);
        lemma_sorted_key_index::<K, V>(pg@, idx);
        self.lemma_val_at(j, pair.0@);
        assert(forall|m: int| 0 <= m < es.len() ==> t[m] == es[m]);
        assert(t[es.len() as int] == pair);
        assert forall|m: int, jj: int|
            0 <= m < t.len() && j < jj < self.spec_pages().len() implies key_lt::<K>(
            (#[trigger] t[m]).0@,
            (#[trigger] self.spec_pages()[jj]).spec_range_start(),
        ) by {
            if m == es.len() {
                assert(K::key_le(pair.0@, pg.spec_range_end()));
                self.lemma_range_chain(j, jj);
                lemma_key_le_lt::<K>(
                    pair.0@,
                    pg.spec_range_end(),
                    self.spec_pages()[jj].spec_range_start(),
                );
            }
        }
        assert(self.scanned_before::<F>(lo, hi, t, j)) by {
            assert forall|k: K::V|
                #[trigger] self.has(k) && K::key_le(lo, k) && K::key_le(k, hi) && self.page_of(k)
                    < j implies exists|m: int| 0 <= m < t.len() && (#[trigger] t[m]).0@ == k by {
                let m = choose|m: int| 0 <= m < es.len() && (#[trigger] es[m]).0@ == k;
                assert(t[m].0@ == k);
            }
        }
        assert(Self::page_scanned(pg, lo, hi, t, idx + 1)) by {
            assert forall|q: int|
                0 <= q < idx + 1 && K::key_le(lo, (#[trigger] pg@[q]).0) && K::key_le(
                    pg@[q].0,
                    hi,
                ) implies exists|m: int| 0 <= m < t.len() && (#[trigger] t[m]).0@ == pg@[q].0 by {
                if q < idx {
                    let m = choose|m: int| 0 <= m < es.len() && (#[trigger] es[m]).0@ == pg@[q].0;
                    assert(t[m].0@ == pg@[q].0);
                } else {
                    assert(t[es.len() as int].0@ == pg@[q].0);
                }
            }
        }
        if cont {
            assert(self.scan_inv(lo, hi, callback, t));
        } else {
            assert(self.range_emits(lo, hi, callback, false, t)) by {
                assert forall|m: int| 0 <= m < t.len() implies call_ensures(
                    callback,
                    (&(#[trigger] t[m]).0, &t[m].1),
                    m < t.len() - 1 || false,
                ) by {
                    if m < es.len() {
                        assert(call_ensures(callback, (&es[m].0, &es[m].1), true));
                    } else {
                        assert(t[m] == pair);
                    }
                }
                assert(t[t.len() - 1] == pair);
                assert forall|k: K::V|
                    #[trigger] self.has(k) && K::key_le(lo, k) && K::key_le(k, hi) && key_lt::<K>(
                        k,
                        pair.0@,
                    ) implies exists|m: int| 0 <= m < t.len() && (#[trigger] t[m]).0@ == k by {
                    let q = self.page_of(k);
                    self.lemma_val_at(q, k);
                    self.lemma_key_in_envelope(q, k);
                    if q < j {
                        let m = choose|m: int| 0 <= m < es.len() && (#[trigger] es[m]).0@ == k;
                        assert(t[m].0@ == k);
                    } else if q == j {
                        let qq = choose|qq: int| 0 <= qq < pg@.len() && pg@[qq].0 == k;
                        if qq < idx {
                            let m = choose|m: int|
                                0 <= m < es.len() && (#[trigger] es[m]).0@ == k;
                            assert(t[m].0@ == k);
                        } else if qq == idx {
                            assert(false);
                        } else {
                            assert(key_lt::<K>(pg@[idx].0, pg@[qq].0));
                            lemma_key_lt_asym::<K>(pair.0@, k);
                            assert(false);
                        }
                    } else {
                        // the stopping key sits below everything in later pages
                        assert(K::key_le(pg@[idx].0, pg.spec_range_end()));
                        self.lemma_range_chain(j, q);
                        lemma_key_le_lt::<K>(
                            pair.0@,
                            pg.spec_range_end(),
                            self.spec_pages()[q].spec_range_start(),
                        );
                        lemma_key_lt_le::<K>(
                            pair.0@,
                            self.spec_pages()[q].spec_range_start(),
                            k,
                        );
                        lemma_key_lt_asym::<K>(pair.0@, k);
                        assert(false);
                    }
                }
            }
        }
    }

    /// Entries of pages before `j` that lie within the bounds are all emitted.
    spec fn scanned_before<F: FnMut(&K, &V) -> bool>(
        &self,
        lo: K::V,
        hi: K::V,
        es: Seq<(K, V)>,
        j: int,
    ) -> bool {
        forall|k: K::V|
            #[trigger] self.has(k) && K::key_le(lo, k) && K::key_le(k, hi) && self.page_of(k) < j
                ==> exists|m: int| 0 <= m < es.len() && (#[trigger] es[m]).0@ == k
    }

    /// When the next page starts beyond `hi`, the pages scanned so far
    /// already cover every stored key within the bounds.
    proof fn lemma_complete_at_page<F: FnMut(&K, &V) -> bool>(
        &self,
        lo: K::V,
        hi: K::V,
        es: Seq<(K, V)>,
        j: int,
    )
        requires
            self.wf(),
            0 <= j < self.spec_pages().len(),
            self.scanned_before::<F>(lo, hi, es, j),
            key_lt::<K>(hi, self.spec_pages()[j].spec_range_start()),
        ensures
            forall|k: K::V|
                #[trigger] self.has(k) && K::key_le(lo, k) && K::key_le(k, hi) ==> exists|m: int|
                    0 <= m < es.len() && (#[trigger] es[m]).0@ == k,
    {
        let s0 = self.spec_pages();
        assert forall|k: K::V|
            #[trigger] self.has(k) && K::key_le(lo, k) && K::key_le(k, hi) implies exists|m: int|
            0 <= m < es.len() && (#[trigger] es[m]).0@ == k by {
            let q = self.page_of(k);
            self.lemma_val_at(q, k);
            self.lemma_key_in_envelope(q, k);
            if q >= j {
                if q > j {
                    self.lemma_envelope_span(j);
                    self.lemma_range_chain(j, q);
                    lemma_key_lt_le::<K>(
                        hi,
                        s0[j].spec_range_start(),
                        s0[j].spec_range_end(),
                    );
                    lemma_key_lt_lt::<K>(hi, s0[j].spec_range_end(), s0[q].spec_range_start());
                }
                lemma_key_lt_le::<K>(hi, s0[q].spec_range_start(), k);
                lemma_key_lt_asym::<K>(hi, k);
            }
        }
    }

    /// When the next entry of page `j` lies beyond `hi`, the entries emitted
    /// so far already cover every stored key within the bounds.
    proof fn lemma_complete_at_entry<F: FnMut(&K, &V) -> bool>(
        &self,
        lo: K::V,
        hi: K::V,
        es: Seq<(K, V)>,
        j: int,
        idx: int,
    )
        requires
            self.wf(),
            0 <= j < self.spec_pages().len(),
            0 <= idx < self.spec_pages()[j]@.len(),
            self.scanned_before::<F>(lo, hi, es, j),
            forall|q: int|
                0 <= q < idx && K::key_le(lo, (#[trigger] self.spec_pages()[j]@[q]).0)
                    && K::key_le(self.spec_pages()[j]@[q].0, hi) ==> exists|m: int|
                    0 <= m < es.len() && (#[trigger] es[m]).0@ == self.spec_pages()[j]@[q].0,
            key_lt::<K>(hi, self.spec_pages()[j]@[idx].0),
        ensures
            forall|k: K::V|
                #[trigger] self.has(k) && K::key_le(lo, k) && K::key_le(k, hi) ==> exists|m: int|
                    0 <= m < es.len() && (#[trigger] es[m]).0@ == k,
    {
        let s0 = self.spec_pages();
        let pg = s0[j];
        assert forall|k: K::V|
            #[trigger] self.has(k) && K::key_le(lo, k) && K::key_le(k, hi) implies exists|m: int|
            0 <= m < es.len() && (#[trigger] es[m]).0@ == k by {
            let q = self.page_of(k);
            self.lemma_val_at(q, k);
            self.lemma_key_in_envelope(q, k);
            if q == j {
                let qq = choose|qq: int| 0 <= qq < pg@.len() && pg@[qq].0 == k;
                if qq >= idx {
                    if qq > idx {
                        assert(key_lt::<K>(pg@[idx].0, pg@[qq].0));
                        lemma_key_lt_lt::<K>(hi, pg@[idx].0, pg@[qq].0);
                    }
                    lemma_key_lt_asym::<K>(hi, k);
                }
            } else if q > j {
                assert(K::key_le(pg@[idx].0, pg.spec_range_end()));
                self.lemma_range_chain(j, q);
                lemma_key_lt_le::<K>(hi, pg@[idx].0, pg.spec_range_end());
                lemma_key_lt_lt::<K>(hi, pg.spec_range_end(), s0[q].spec_range_start());
                lemma_key_lt_le::<K>(hi, s0[q].spec_range_start(), k);
                lemma_key_lt_asym::<K>(hi, k);
            }
        }
    }

    /// Visits entries with `key_first <= key <= key_last` in ascending order,
    /// both ends inclusive, invoking the callback on each; stops as soon as
    /// the callback returns `false`. Starts at the page routed by
    /// `key_first` and halts page traversal beyond `key_last`. Returns
    /// `true` iff iteration was not stopped by the callback.
    #[verifier::loop_isolation(false)]
    #[verifier::rlimit(100)]
    pub fn range<F: FnMut(&K, &V) -> bool>(
        &self,
        key_first: &K,
        key_last: &K,
        mut callback: F,
    ) -> (r: bool)
        requires
            self.wf(),
            forall|a: &K, b: &V| call_requires(callback, (a, b)),
        ensures
            exists|es: Seq<(K, V)>|
                #[trigger] self.range_emits(key_first@, key_last@, callback, r, es),
    {
        let ghost lo = key_first@;
        let ghost hi = key_last@;
        let ghost cb = callback;
        let ghost s0 = self.spec_pages();
        let ghost mut es: Seq<(K, V)> = Seq::empty();
        let n = self.pages.len();
        let p0 = self.route(key_first);
        let mut j: usize = if p0 == 0 {
            0
        } else {
            p0 - 1
        };
        proof {
            assert(self.scanned_before::<F>(lo, hi, es, j as int)) by {
                assert forall|k: K::V|
                    #[trigger] self.has(k) && K::key_le(lo, k) && K::key_le(k, hi)
                        && self.page_of(k) < j as int implies exists|m: int|
                    0 <= m < es.len() && (#[trigger] es[m]).0@ == k by {
                    let q = self.page_of(k);
                    self.lemma_val_at(q, k);
                    self.lemma_key_in_envelope(q, k);
                    self.lemma_range_chain(q, p0 - 1);
                    lemma_key_le_lt::<K>(k, s0[q].spec_range_end(), s0[p0 - 1].spec_range_start());
                    lemma_key_lt_le::<K>(k, s0[p0 - 1].spec_range_start(), lo);
                    lemma_key_lt_asym::<K>(k, lo);
                }
            }
        }
        while j < n
            invariant
                j <= n,
                callback == cb,
                forall|a: &K, b: &V| call_requires(callback, (a, b)),
                self.scan_inv(lo, hi, callback, es),
                forall|m: int, jj: int|
                    0 <= m < es.len() && j as int <= jj < n ==> key_lt::<K>(
                        (#[trigger] es[m]).0@,
                        (#[trigger] s0[jj]).spec_range_start(),
                    ),
                self.scanned_before::<F>(lo, hi, es, j as int),
            decreases n - j,
        {
            match self.pages[j].range_start().key_cmp(key_last) {
                KeyCmp::Greater => {
                    proof {
                        self.lemma_complete_at_page::<F>(lo, hi, es, j as int);
                        assert(self.range_emits(lo, hi, callback, true, es));
                    }
                    return true;
                }
                _ => {},
            }
            let ghost pg = s0[j as int];
            proof {
                assert forall|m: int, q: int|
                    0 <= m < es.len() && 0 <= q < pg@.len() implies key_lt::<K>(
                    (#[trigger] es[m]).0@,
                    (#[trigger] pg@[q]).0,
                ) by {
                    assert(key_lt::<K>(es[m].0@, pg.spec_range_start()));
                    lemma_key_lt_le::<K>(es[m].0@, pg.spec_range_start(), pg@[q].0);
                }
            }
            let sz = self.pages[j].size();
            let mut idx: usize = 0;
            while idx < sz
                invariant
                    idx <= sz,
                    sz == pg@.len(),
                    j < n,
                    pg == s0[j as int],
                    callback == cb,
                    forall|a: &K, b: &V| call_requires(callback, (a, b)),
                    self.scan_inv(lo, hi, callback, es),
                    forall|m: int, q: int|
                        0 <= m < es.len() && idx as int <= q < pg@.len() ==> key_lt::<K>(
                            (#[trigger] es[m]).0@,
                            (#[trigger] pg@[q]).0,
                        ),
                    forall|m: int, jj: int|
                        0 <= m < es.len() && (j as int) < jj < n ==> key_lt::<K>(
                            (#[trigger] es[m]).0@,
                            (#[trigger] s0[jj]).spec_range_start(),
                        ),
                    self.scanned_before::<F>(lo, hi, es, j as int),
                    Self::page_scanned(pg, lo, hi, es, idx as int),
                decreases sz - idx,
            {
                let e = self.pages[j].entry_at(idx);
                match e.0.key_cmp(key_first) {
                    KeyCmp::Less => {
                        proof {
                            if K::key_le(lo, pg@[idx as int].0) {
                                K::key_le_antisymmetric(pg@[idx as int].0, lo);
                            }
                        }
                        idx += 1;
                    }
                    _ => {
                        proof {
                            lemma_key_le_refl::<K>(pg@[idx as int].0);
                            assert(K::key_le(lo, pg@[idx as int].0));
                        }
                        match e.0.key_cmp(key_last) {
                            KeyCmp::Greater => {
                                proof {
                                    self.lemma_complete_at_entry::<F>(
                                        lo,
                                        hi,
                                        es,
                                        j as int,
                                        idx as int,
                                    );
                                    assert(self.range_emits(lo, hi, callback, true, es));
                                }
                                return true;
                            }
                            _ => {
                                proof {
                                    lemma_key_le_refl::<K>(pg@[idx as int].0);
                                    assert(K::key_le(pg@[idx as int].0, hi));
                                }
                                let cont = callback(e.0, e.1);
                                proof {
                                    let pair = pg.spec_entries()[idx as int];
                                    self.lemma_push_step(
                                        lo,
                                        hi,
                                        callback,
                                        es,
                                        j as int,
                                        idx as int,
                                        pair,
                                        cont,
                                    );
                                    es = es.push(pair);
                                }
                                if !cont {
                                    return false;
                                }
                                idx += 1;
                            }
                        }
                    }
                }
            }
            proof {
                assert(self.scanned_before::<F>(lo, hi, es, j as int + 1)) by {
                    assert forall|k: K::V|
                        #[trigger] self.has(k) && K::key_le(lo, k) && K::key_le(k, hi)
                            && self.page_of(k) < j as int + 1 implies exists|m: int|
                        0 <= m < es.len() && (#[trigger] es[m]).0@ == k by {
                        let q = self.page_of(k);
                        if q == j as int {
                            self.lemma_val_at(q, k);
                            let qq = choose|qq: int| 0 <= qq < pg@.len() && pg@[qq].0 == k;
                            assert(K::key_le(lo, pg@[qq].0) && K::key_le(pg@[qq].0, hi));
                        }
                    }
                }
            }
            j += 1;
        }
        proof {
            assert forall|k: K::V|
                #[trigger] self.has(k) && K::key_le(lo, k) && K::key_le(k, hi) implies exists|
                m: int,
            | 0 <= m < es.len() && (#[trigger] es[m]).0@ == k by {
                assert(self.page_of(k) < n) by {
                    if self.has(k) {
                        let q = choose|q: int|
                            0 <= q < self.spec_pages().len() && (#[trigger] self.spec_pages()[
                                q
                            ]).has(k);
                    }
                }
            }
            assert(self.range_emits(lo, hi, callback, true, es));
        }
        true
    }

    /// The number of entries across all pages.
    pub fn size(&self) -> (r: usize)
        requires
            self.wf(),
        ensures
            r == self.spec_count(),
            r == total_of(self.spec_pages()),
    {
        self.count
    }

    /// Intra-page order: every key in a page lies between the page's
    /// `range_start` and `range_end`, both ends inclusive.
    pub proof fn lemma_intra_page_order(&self, i: int, l: int)
        requires
            self.wf(),
            0 <= i < self.spec_pages().len(),
            0 <= l < self.spec_pages()[i]@.len(),
        ensures
            K::key_le(self.spec_pages()[i].spec_range_start(), self.spec_pages()[i]@[l].0),
            K::key_le(self.spec_pages()[i]@[l].0, self.spec_pages()[i].spec_range_end()),
    {
        assert(self.spec_pages()[i].wf());
    }

    /// Inter-page order: page envelopes are strictly ordered and do not
    /// overlap — each page's `range_end` is strictly below its right
    /// neighbour's `range_start`.
    pub proof fn lemma_inter_page_order(&self, i: int)
        requires
            self.wf(),
            0 <= i < self.spec_pages().len() - 1,
        ensures
            key_lt::<K>(
                self.spec_pages()[i].spec_range_end(),
                self.spec_pages()[i + 1].spec_range_start(),
            ),
    {
    }

    /// Page bound: after any completed operation every page holds at most
    /// `max_page_size` entries.
    pub proof fn lemma_page_bound(&self, i: int)
        requires
            self.wf(),
            0 <= i < self.spec_pages().len(),
        ensures
            self.spec_pages()[i]@.len() <= self.spec_max_page_size(),
    {
    }

    /// No empty pages: after any completed operation every page holds at
    /// least one entry — a page emptied by a delete is dropped at once.
    pub proof fn lemma_no_empty_page(&self, i: int)
        requires
            self.wf(),
            0 <= i < self.spec_pages().len(),
        ensures
            self.spec_pages()[i]@.len() >= 1,
    {
    }

    /// The number of pages.
    pub fn page_count(&self) -> (r: usize)
        ensures
            r == self.spec_pages().len(),
    {
        self.pages.len()
    }

    /// The page at a position, by reference.
    pub fn page_at(&self, i: usize) -> (p: &Page<K, V>)
        requires
            i < self.spec_pages().len(),
        ensures
            *p == self.spec_pages()[i as int],
    {
        &self.pages[i]
    }

    /// Visits pages in order, passing their positional index.
    pub fn visit<T: TreeVisiter<K, V>>(&self, visiter: &mut T) {
        let mut i: usize = 0;
        while i < self.pages.len()
            decreases self.pages@.len() - i,
        {
            self.pages[i].visit(i, visiter);
            i += 1;
        }
    }
}

} // verus!
