//! The engine facade: a mapping from partition key to an ordered paged
//! keyspace, with the full operation surface.
//!
//! Partitions are independent; each operation routes by partition key and
//! delegates to that partition's pages. The partition map is an association
//! list with pairwise-distinct keys; a partition is created lazily on first
//! put and never dies while the engine lives, even when emptied.

use vstd::prelude::*;

use vstd::bytes::spec_u64_to_le_bytes;

use crate::codec::enc_at;
use crate::codec::lemma_subrange_chain;
use crate::codec::Codec;
use crate::config::Config;
use crate::entries::index_of_key;
use crate::entries::lemma_sorted_key_index;
use crate::page::Page;
use crate::pages::total_of;
use crate::snapshot::enc_entry;
use crate::snapshot::ents_has;
use crate::snapshot::ents_val_ok;
use crate::snapshot::lemma_enc_at_split;
use crate::snapshot::lemma_pagem_prefix_inj;
use crate::snapshot::lemma_pages_count_take;
use crate::snapshot::lemma_snap_count_take;
use crate::snapshot::lemma_partm_prefix_inj;
use crate::snapshot::lemma_enc_ents_push;
use crate::snapshot::lemma_snapshot_prefix_inj;
use crate::snapshot::pages_count;
use crate::snapshot::pages_has;
use crate::snapshot::pages_val_ok;
use crate::snapshot::lemma_enc_pages_push;
use crate::snapshot::lemma_enc_parts_push;
use crate::snapshot::lemma_open_page;
use crate::snapshot::lemma_open_part;
use crate::snapshot::lemma_push_entry;
use crate::snapshot::open_model;
use crate::snapshot::snap_count;
use crate::snapshot::snap_distinct;
use crate::snapshot::snap_has;
use crate::snapshot::snap_val_ok;
use crate::snapshot::PartModel;
use crate::snapshot::enc_pagem;
use crate::snapshot::enc_pages_from;
use crate::snapshot::enc_parts_from;
use crate::snapshot::enc_partm;
use crate::snapshot::enc_ents_from;
use crate::snapshot::enc_snapshot;
use crate::snapshot::pagem_wf;
use crate::snapshot::partm_wf;
use crate::snapshot::snapm_wf;
use crate::snapshot::PageModel;
use crate::snapshot::SnapModel;
use crate::error::DatabaseError;
use crate::keys::key_lt;
use crate::keys::lemma_key_lt_asym;
use crate::keys::KeyCmp;
use crate::keys::StoreKey;
use crate::pages::Pages;
use crate::visiter::HashTreeVisiter;
use crate::visiter::TreeVisiter;

verus! {

broadcast use vstd::function::group_function_axioms;

/// The total number of entries across a sequence of partitions.
pub open spec fn count_of<H: StoreKey, K: StoreKey, V>(ms: Seq<(H, Pages<K, V>)>) -> int
    decreases ms.len(),
{
    if ms.len() == 0 {
        0
    } else {
        count_of(ms.drop_last()) + ms.last().1.spec_count()
    }
}

/// Replacing one partition changes the total by the difference in its count.
proof fn lemma_count_update<H: StoreKey, K: StoreKey, V>(
    ms: Seq<(H, Pages<K, V>)>,
    i: int,
    e: (H, Pages<K, V>),
)
    requires
        0 <= i < ms.len(),
    ensures
        count_of(ms.update(i, e)) == count_of(ms) - ms[i].1.spec_count() + e.1.spec_count(),
    decreases ms.len(),
{
    let t = ms.update(i, e);
    if i == ms.len() - 1 {
        assert(t.drop_last() =~= ms.drop_last());
    } else {
        assert(t.drop_last() =~= ms.drop_last().update(i, e));
        lemma_count_update(ms.drop_last(), i, e);
    }
}

/// Appending a partition adds its count to the total.
proof fn lemma_count_push<H: StoreKey, K: StoreKey, V>(
    ms: Seq<(H, Pages<K, V>)>,
    e: (H, Pages<K, V>),
)
    ensures
        count_of(ms.push(e)) == count_of(ms) + e.1.spec_count(),
{
    assert(ms.push(e).drop_last() =~= ms);
}

/// A total of partition counts is never negative.
proof fn lemma_count_nonneg<H: StoreKey, K: StoreKey, V>(ms: Seq<(H, Pages<K, V>)>)
    ensures
        count_of(ms) >= 0,
    decreases ms.len(),
{
    if ms.len() > 0 {
        lemma_count_nonneg(ms.drop_last());
    }
}

/// Each partition's count is at most the total.
proof fn lemma_count_bound<H: StoreKey, K: StoreKey, V>(ms: Seq<(H, Pages<K, V>)>, i: int)
    requires
        0 <= i < ms.len(),
    ensures
        ms[i].1.spec_count() <= count_of(ms),
    decreases ms.len(),
{
    lemma_count_nonneg(ms.drop_last());
    if i == ms.len() - 1 {
    } else {
        lemma_count_bound(ms.drop_last(), i);
    }
}

/// The engine: a partition map over ordered paged keyspaces.
pub struct Database<H, K, V> {
    config: Config,
    map: Vec<(H, Pages<K, V>)>,
    total: usize,
}

impl<H: StoreKey, K: StoreKey, V> Database<H, K, V> {
    /// The partitions, in creation order.
    pub closed spec fn spec_map(&self) -> Seq<(H, Pages<K, V>)> {
        self.map@
    }

    /// The cached total entry count.
    pub closed spec fn spec_total(&self) -> usize {
        self.total
    }

    /// The configured page bound.
    pub closed spec fn spec_max_page_size(&self) -> usize {
        self.config.spec_max_page_size()
    }

    /// The invariant: a well-formed configuration shared by every partition,
    /// well-formed partitions under pairwise-distinct keys, and the cached
    /// total equal to the number of entries.
    pub open spec fn wf(&self) -> bool {
        &&& self.spec_max_page_size() >= 1
        &&& forall|i: int|
            0 <= i < self.spec_map().len() ==> (#[trigger] self.spec_map()[i]).1.wf()
        &&& forall|i: int|
            0 <= i < self.spec_map().len() ==> (#[trigger] self.spec_map()[i]).1.spec_max_page_size()
                == self.spec_max_page_size()
        &&& forall|i: int, j: int|
            0 <= i < j < self.spec_map().len() ==> (#[trigger] self.spec_map()[i]).0@ != (
            #[trigger] self.spec_map()[j]).0@
        &&& self.spec_total() == count_of(self.spec_map())
    }

    /// Some partition carries this key.
    pub open spec fn has_partition(&self, h: H::V) -> bool {
        exists|i: int| 0 <= i < self.spec_map().len() && (#[trigger] self.spec_map()[i]).0@ == h
    }

    /// The index of the partition with this key (meaningful when
    /// `has_partition` holds).
    pub open spec fn partition_of(&self, h: H::V) -> int {
        choose|i: int| 0 <= i < self.spec_map().len() && (#[trigger] self.spec_map()[i]).0@ == h
    }

    /// The pages of the partition with this key.
    pub open spec fn pages_of(&self, h: H::V) -> Pages<K, V> {
        self.spec_map()[self.partition_of(h)].1
    }

    /// The tree key is stored under the partition key.
    pub open spec fn has(&self, h: H::V, k: K::V) -> bool {
        self.has_partition(h) && self.pages_of(h).has(k)
    }

    /// The value stored under the pair of keys (meaningful when `has` holds).
    pub open spec fn val(&self, h: H::V, k: K::V) -> V {
        self.pages_of(h).val(k)
    }

    /// A fresh engine with no partitions.
    pub fn new(config: Config) -> (r: Database<H, K, V>)
        requires
            config.wf(),
        ensures
            r.wf(),
            r.spec_map().len() == 0,
            r.spec_total() == 0,
            r.spec_max_page_size() == config.spec_max_page_size(),
            forall|h: H::V| !r.has_partition(h),
            forall|h: H::V, k: K::V| !r.has(h, k),
    {
        Database { config, map: Vec::new(), total: 0 }
    }

    /// The index of the partition with this key, if present.
    fn find_partition(&self, hash_key: &H) -> (r: Option<usize>)
        requires
            self.wf(),
        ensures
            match r {
                Some(i) => i < self.spec_map().len() && self.spec_map()[i as int].0@ == hash_key@
                    && self.has_partition(hash_key@) && self.partition_of(hash_key@) == i,
                None => !self.has_partition(hash_key@),
            },
    {
        let n = self.map.len();
        let mut i: usize = 0;
        while i < n
            invariant
                0 <= i <= n,
                n == self.spec_map().len(),
                self.wf(),
                forall|j: int| 0 <= j < i ==> (#[trigger] self.spec_map()[j]).0@ != hash_key@,
            decreases n - i,
        {
            match self.map[i].0.key_cmp(hash_key) {
                KeyCmp::Equal => {
                    proof {
                        assert(self.has_partition(hash_key@));
                        let j = self.partition_of(hash_key@);
                        assert(0 <= j < self.spec_map().len() && self.spec_map()[j].0@
                            == hash_key@);
                        if j < i as int {
                            assert(false);
                        } else if j > i as int {
                            assert(self.spec_map()[i as int].0@ != self.spec_map()[j].0@);
                            assert(false);
                        }
                    }
                    return Some(i);
                }
                _ => {
                    i += 1;
                }
            }
        }
        None
    }

    /// Point lookup. Never errs; absent partitions read as absent keys.
    pub fn get(&self, hash_key: &H, tree_key: &K) -> (r: Result<Option<&V>, DatabaseError>)
        requires
            self.wf(),
        ensures
            match r {
                Ok(Some(v)) => self.has(hash_key@, tree_key@) && *v == self.val(
                    hash_key@,
                    tree_key@,
                ),
                Ok(None) => !self.has(hash_key@, tree_key@),
                Err(_) => false,
            },
    {
        match self.find_partition(hash_key) {
            Some(i) => Ok(self.map[i].1.get(tree_key)),
            None => Ok(None),
        }
    }

    /// Whether the pair of keys is stored. Never errs.
    pub fn contains(&self, hash_key: &H, tree_key: &K) -> (r: Result<bool, DatabaseError>)
        requires
            self.wf(),
        ensures
            r == Ok::<bool, DatabaseError>(self.has(hash_key@, tree_key@)),
    {
        match self.find_partition(hash_key) {
            Some(i) => Ok(self.map[i].1.contains(tree_key)),
            None => Ok(false),
        }
    }

    /// Inserts or overwrites under the partition, creating the partition on
    /// first touch; reports whether the tree key was absent before. Never
    /// errs.
    #[verifier::rlimit(100)]
    pub fn put(&mut self, hash_key: H, tree_key: K, data: V) -> (r: Result<bool, DatabaseError>)
        requires
            old(self).wf(),
            old(self).has(hash_key@, tree_key@) || old(self).spec_total() < usize::MAX,
        ensures
            final(self).wf(),
            r == Ok::<bool, DatabaseError>(!old(self).has(hash_key@, tree_key@)),
            final(self).has(hash_key@, tree_key@),
            final(self).val(hash_key@, tree_key@) == data,
            forall|h: H::V|
                #[trigger] final(self).has_partition(h) <==> old(self).has_partition(h) || h
                    == hash_key@,
            forall|h: H::V, k: K::V|
                #[trigger] final(self).has(h, k) <==> old(self).has(h, k) || (h == hash_key@ && k
                    == tree_key@),
            forall|h: H::V, k: K::V|
                !(h == hash_key@ && k == tree_key@) && old(self).has(h, k)
                    ==> #[trigger] final(self).val(h, k) == old(self).val(h, k),
            final(self).spec_total() == old(self).spec_total() + (if r == Ok::<
                bool,
                DatabaseError,
            >(true) {
                1int
            } else {
                0int
            }),
            final(self).spec_max_page_size() == old(self).spec_max_page_size(),
            Self::put_step(
                *old(self),
                *final(self),
                hash_key@,
                tree_key@,
                data,
                r == Ok::<bool, DatabaseError>(true),
            ),
    {
        let ghost pre = *old(self);
        let ghost m0 = self.spec_map();
        let ghost hk = hash_key;
        let ghost hv = hash_key@;
        let ghost kv = tree_key@;
        match self.find_partition(&hash_key) {
            Some(i) => {
                let mut entry = self.map.remove(i);
                proof {
                    if pre.has(hv, kv) {
                        assert(entry.1.has(kv));
                    } else {
                        lemma_count_bound(m0, i as int);
                    }
                }
                let was_absent = entry.1.insert(tree_key, data);
                if was_absent {
                    self.total = self.total + 1;
                }
                let ghost pg = entry.1;
                self.map.insert(i, entry);
                proof {
                    assert(self.spec_map() =~= m0.update(i as int, (m0[i as int].0, pg)));
                    lemma_count_update(m0, i as int, (m0[i as int].0, pg));
                    assert(self.wf());
                    Self::lemma_put_at(pre, *self, i as int, hv, kv, data, was_absent);
                }
                Ok(was_absent)
            }
            None => {
                let config = self.config.duplicate();
                let mut pages: Pages<K, V> = Pages::new(config);
                let was_absent = pages.insert(tree_key, data);
                let ghost pg = pages;
                self.map.push((hash_key, pages));
                self.total = self.total + 1;
                proof {
                    assert(self.spec_map() =~= m0.push((hk, pg)));
                    lemma_count_push(m0, (hk, pg));
                    assert(forall|j: int|
                        0 <= j < m0.len() ==> (#[trigger] self.spec_map()[j]) == m0[j]);
                    assert(self.wf()) by {
                        assert forall|a: int, b: int|
                            0 <= a < b < self.spec_map().len() implies (
                        #[trigger] self.spec_map()[a]).0@ != (#[trigger] self.spec_map()[
                            b
                        ]).0@ by {
                            if b == m0.len() as int {
                                if m0[a].0@ == hv {
                                    assert(pre.has_partition(hv));
                                }
                            }
                        }
                    }
                    Self::lemma_put_new(pre, *self, hv, kv, data);
                }
                Ok(was_absent)
            }
        }
    }

    /// After an insert into existing partition `i`, the engine denotes the
    /// old contents extended by the new pair.
    proof fn lemma_put_at(
        pre: Database<H, K, V>,
        post: Database<H, K, V>,
        i: int,
        hv: H::V,
        kv: K::V,
        data: V,
        was_absent: bool,
    )
        requires
            pre.wf(),
            post.wf(),
            0 <= i < pre.spec_map().len(),
            pre.spec_map()[i].0@ == hv,
            pre.has_partition(hv) && pre.partition_of(hv) == i,
            post.spec_map().len() == pre.spec_map().len(),
            forall|j: int|
                0 <= j < pre.spec_map().len() && j != i ==> (#[trigger] post.spec_map()[j])
                    == pre.spec_map()[j],
            post.spec_map()[i].0 == pre.spec_map()[i].0,
            was_absent == !pre.spec_map()[i].1.has(kv),
            post.spec_map()[i].1.has(kv),
            post.spec_map()[i].1.val(kv) == data,
            forall|k: K::V|
                #[trigger] post.spec_map()[i].1.has(k) <==> pre.spec_map()[i].1.has(k) || k == kv,
            forall|k: K::V|
                k != kv && pre.spec_map()[i].1.has(k) ==> #[trigger] post.spec_map()[i].1.val(k)
                    == pre.spec_map()[i].1.val(k),
        ensures
            post.has(hv, kv),
            post.val(hv, kv) == data,
            was_absent == !pre.has(hv, kv),
            forall|h: H::V|
                #[trigger] post.has_partition(h) <==> pre.has_partition(h) || h == hv,
            forall|h: H::V, k: K::V|
                #[trigger] post.has(h, k) <==> pre.has(h, k) || (h == hv && k == kv),
            forall|h: H::V, k: K::V|
                !(h == hv && k == kv) && pre.has(h, k) ==> #[trigger] post.val(h, k) == pre.val(
                    h,
                    k,
                ),
    {
        assert forall|h: H::V| #[trigger] post.has_partition(h) <==> pre.has_partition(h) || h
            == hv by {
            if post.has_partition(h) {
                let j = post.partition_of(h);
                assert(pre.spec_map()[j].0@ == h);
                assert(pre.has_partition(h));
            }
            if pre.has_partition(h) {
                let j = pre.partition_of(h);
                assert(post.spec_map()[j].0@ == h);
                assert(post.has_partition(h));
            }
        }
        Self::lemma_unique_partition(pre, hv, i);
        Self::lemma_unique_partition(post, hv, i);
        assert forall|h: H::V, k: K::V| #[trigger] post.has(h, k) <==> pre.has(h, k) || (h == hv
            && k == kv) by {
            if h == hv {
                assert(post.partition_of(h) == i && pre.partition_of(h) == i);
            } else {
                if post.has_partition(h) {
                    let j = post.partition_of(h);
                    Self::lemma_unique_partition(post, h, j);
                    assert(j != i);
                    Self::lemma_unique_partition(pre, h, j);
                }
                if pre.has_partition(h) {
                    let j = pre.partition_of(h);
                    Self::lemma_unique_partition(pre, h, j);
                    assert(j != i);
                    Self::lemma_unique_partition(post, h, j);
                }
            }
        }
        assert(post.partition_of(hv) == i);
        assert forall|h: H::V, k: K::V|
            !(h == hv && k == kv) && pre.has(h, k) implies #[trigger] post.val(h, k) == pre.val(
            h,
            k,
        ) by {
            let j = pre.partition_of(h);
            Self::lemma_unique_partition(pre, h, j);
            Self::lemma_unique_partition(post, h, j);
        }
    }

    /// After creating a fresh partition for `hv` holding only the new pair,
    /// the engine denotes the old contents extended by that pair.
    proof fn lemma_put_new(
        pre: Database<H, K, V>,
        post: Database<H, K, V>,
        hv: H::V,
        kv: K::V,
        data: V,
    )
        requires
            pre.wf(),
            post.wf(),
            !pre.has_partition(hv),
            post.spec_map().len() == pre.spec_map().len() + 1,
            forall|j: int|
                0 <= j < pre.spec_map().len() ==> (#[trigger] post.spec_map()[j])
                    == pre.spec_map()[j],
            post.spec_map().last().0@ == hv,
            post.spec_map().last().1.has(kv),
            post.spec_map().last().1.val(kv) == data,
            forall|k: K::V| #[trigger] post.spec_map().last().1.has(k) <==> k == kv,
        ensures
            post.has(hv, kv),
            post.val(hv, kv) == data,
            !pre.has(hv, kv),
            forall|h: H::V|
                #[trigger] post.has_partition(h) <==> pre.has_partition(h) || h == hv,
            forall|h: H::V, k: K::V|
                #[trigger] post.has(h, k) <==> pre.has(h, k) || (h == hv && k == kv),
            forall|h: H::V, k: K::V|
                !(h == hv && k == kv) && pre.has(h, k) ==> #[trigger] post.val(h, k) == pre.val(
                    h,
                    k,
                ),
    {
        let n = pre.spec_map().len() as int;
        assert(post.spec_map()[n].0@ == hv);
        assert forall|h: H::V| #[trigger] post.has_partition(h) <==> pre.has_partition(h) || h
            == hv by {
            if post.has_partition(h) {
                let j = post.partition_of(h);
                if j < n {
                    assert(pre.spec_map()[j].0@ == h);
                    assert(pre.has_partition(h));
                } else {
                    assert(h == hv);
                }
            }
            if pre.has_partition(h) {
                let j = pre.partition_of(h);
                assert(post.spec_map()[j].0@ == h);
                assert(post.has_partition(h));
            }
            if h == hv {
                assert(post.spec_map()[n].0@ == h);
                assert(post.has_partition(h));
            }
        }
        Self::lemma_unique_partition(post, hv, n);
        assert forall|h: H::V, k: K::V| #[trigger] post.has(h, k) <==> pre.has(h, k) || (h == hv
            && k == kv) by {
            if h == hv {
                assert(post.partition_of(h) == n);
                assert(!pre.has_partition(h));
            } else {
                if post.has_partition(h) {
                    let j = post.partition_of(h);
                    Self::lemma_unique_partition(post, h, j);
                    assert(j < n);
                    Self::lemma_unique_partition(pre, h, j);
                }
                if pre.has_partition(h) {
                    let j = pre.partition_of(h);
                    Self::lemma_unique_partition(pre, h, j);
                    Self::lemma_unique_partition(post, h, j);
                }
            }
        }
        assert forall|h: H::V, k: K::V|
            !(h == hv && k == kv) && pre.has(h, k) implies #[trigger] post.val(h, k) == pre.val(
            h,
            k,
        ) by {
            let j = pre.partition_of(h);
            Self::lemma_unique_partition(pre, h, j);
            Self::lemma_unique_partition(post, h, j);
        }
    }

    /// In a well-formed engine the partition for a key view is unique.
    proof fn lemma_unique_partition(db: Database<H, K, V>, h: H::V, i: int)
        requires
            db.wf(),
            0 <= i < db.spec_map().len(),
            db.spec_map()[i].0@ == h,
        ensures
            db.has_partition(h),
            db.partition_of(h) == i,
    {
        assert(db.has_partition(h));
        let j = db.partition_of(h);
        if j < i {
            assert(db.spec_map()[j].0@ != db.spec_map()[i].0@);
        } else if j > i {
            assert(db.spec_map()[i].0@ != db.spec_map()[j].0@);
        }
    }

    /// Deletes the tree key from the partition; reports whether a removal
    /// occurred. The partition itself stays, even when emptied. Never errs.
    pub fn delete(&mut self, hash_key: &H, tree_key: &K) -> (r: Result<bool, DatabaseError>)
        requires
            old(self).wf(),
        ensures
            final(self).wf(),
            r == Ok::<bool, DatabaseError>(old(self).has(hash_key@, tree_key@)),
            !final(self).has(hash_key@, tree_key@),
            forall|h: H::V|
                #[trigger] final(self).has_partition(h) <==> old(self).has_partition(h),
            forall|h: H::V, k: K::V|
                #[trigger] final(self).has(h, k) <==> old(self).has(h, k) && !(h == hash_key@ && k
                    == tree_key@),
            forall|h: H::V, k: K::V|
                !(h == hash_key@ && k == tree_key@) && old(self).has(h, k)
                    ==> #[trigger] final(self).val(h, k) == old(self).val(h, k),
            final(self).spec_total() == old(self).spec_total() - (if r == Ok::<
                bool,
                DatabaseError,
            >(true) {
                1int
            } else {
                0int
            }),
            final(self).spec_max_page_size() == old(self).spec_max_page_size(),
            Self::delete_step(
                *old(self),
                *final(self),
                hash_key@,
                tree_key@,
                r == Ok::<bool, DatabaseError>(true),
            ),
    {
        let ghost pre = *old(self);
        let ghost m0 = self.spec_map();
        let ghost hv = hash_key@;
        let ghost kv = tree_key@;
        match self.find_partition(hash_key) {
            Some(i) => {
                let mut entry = self.map.remove(i);
                let removed = entry.1.remove(tree_key);
                if removed {
                    proof {
                        lemma_count_bound(m0, i as int);
                    }
                    self.total = self.total - 1;
                }
                let ghost pg = entry.1;
                self.map.insert(i, entry);
                proof {
                    assert(self.spec_map() =~= m0.update(i as int, (m0[i as int].0, pg)));
                    lemma_count_update(m0, i as int, (m0[i as int].0, pg));
                    assert(self.wf());
                    Self::lemma_delete_at(pre, *self, i as int, hv, kv, removed);
                }
                Ok(removed)
            }
            None => {
                proof {
                    assert forall|h: H::V, k: K::V|
                        #[trigger] self.has(h, k) <==> pre.has(h, k) && !(h == hv && k
                        == kv) by {
                        if h == hv {
                            assert(!pre.has_partition(h));
                        }
                    }
                }
                Ok(false)
            }
        }
    }

    /// After a removal in partition `i`, the engine denotes the old contents
    /// without the pair.
    proof fn lemma_delete_at(
        pre: Database<H, K, V>,
        post: Database<H, K, V>,
        i: int,
        hv: H::V,
        kv: K::V,
        removed: bool,
    )
        requires
            pre.wf(),
            post.wf(),
            0 <= i < pre.spec_map().len(),
            pre.spec_map()[i].0@ == hv,
            pre.has_partition(hv) && pre.partition_of(hv) == i,
            post.spec_map().len() == pre.spec_map().len(),
            forall|j: int|
                0 <= j < pre.spec_map().len() && j != i ==> (#[trigger] post.spec_map()[j])
                    == pre.spec_map()[j],
            post.spec_map()[i].0 == pre.spec_map()[i].0,
            removed == pre.spec_map()[i].1.has(kv),
            !post.spec_map()[i].1.has(kv),
            forall|k: K::V|
                #[trigger] post.spec_map()[i].1.has(k) <==> pre.spec_map()[i].1.has(k) && k != kv,
            forall|k: K::V|
                k != kv && pre.spec_map()[i].1.has(k) ==> #[trigger] post.spec_map()[i].1.val(k)
                    == pre.spec_map()[i].1.val(k),
        ensures
            !post.has(hv, kv),
            removed == pre.has(hv, kv),
            forall|h: H::V| #[trigger] post.has_partition(h) <==> pre.has_partition(h),
            forall|h: H::V, k: K::V|
                #[trigger] post.has(h, k) <==> pre.has(h, k) && !(h == hv && k == kv),
            forall|h: H::V, k: K::V|
                !(h == hv && k == kv) && pre.has(h, k) ==> #[trigger] post.val(h, k) == pre.val(
                    h,
                    k,
                ),
    {
        assert forall|h: H::V| #[trigger] post.has_partition(h) <==> pre.has_partition(h) by {
            if post.has_partition(h) {
                let j = post.partition_of(h);
                assert(pre.spec_map()[j].0@ == h);
            }
            if pre.has_partition(h) {
                let j = pre.partition_of(h);
                assert(post.spec_map()[j].0@ == h);
            }
        }
        Self::lemma_unique_partition(pre, hv, i);
        Self::lemma_unique_partition(post, hv, i);
        assert forall|h: H::V, k: K::V| #[trigger] post.has(h, k) <==> pre.has(h, k) && !(h == hv
            && k == kv) by {
            if h == hv {
                assert(post.partition_of(h) == i && pre.partition_of(h) == i);
            } else {
                if post.has_partition(h) {
                    let j = post.partition_of(h);
                    Self::lemma_unique_partition(post, h, j);
                    assert(j != i);
                    Self::lemma_unique_partition(pre, h, j);
                }
                if pre.has_partition(h) {
                    let j = pre.partition_of(h);
                    Self::lemma_unique_partition(pre, h, j);
                    Self::lemma_unique_partition(post, h, j);
                }
            }
        }
        assert forall|h: H::V, k: K::V|
            !(h == hv && k == kv) && pre.has(h, k) implies #[trigger] post.val(h, k) == pre.val(
            h,
            k,
        ) by {
            let j = pre.partition_of(h);
            Self::lemma_unique_partition(pre, h, j);
            Self::lemma_unique_partition(post, h, j);
        }
    }

    /// The total entry count across all partitions. Never errs.
    pub fn count(&self) -> (r: Result<usize, DatabaseError>)
        requires
            self.wf(),
        ensures
            r == Ok::<usize, DatabaseError>(self.spec_total()),
    {
        Ok(self.total)
    }

    /// The smallest entry strictly greater than the tree key within the
    /// partition, or absent. Never errs.
    pub fn succ(&self, hash_key: &H, tree_key: &K) -> (r: Result<
        Option<(&K, &V)>,
        DatabaseError,
    >)
        requires
            self.wf(),
        ensures
            match r {
                Ok(Some(e)) => self.has(hash_key@, e.0@) && self.val(hash_key@, e.0@) == *e.1
                    && key_lt::<K>(tree_key@, e.0@) && forall|k: K::V|
                    #[trigger] self.has(hash_key@, k) && key_lt::<K>(tree_key@, k) ==> K::key_le(
                        e.0@,
                        k,
                    ),
                Ok(None) => forall|k: K::V|
                    #[trigger] self.has(hash_key@, k) ==> !key_lt::<K>(tree_key@, k),
                Err(_) => false,
            },
    {
        match self.find_partition(hash_key) {
            Some(i) => Ok(self.map[i].1.succ(tree_key)),
            None => Ok(None),
        }
    }

    /// The greatest entry strictly less than the tree key within the
    /// partition, or absent. Never errs.
    pub fn pred(&self, hash_key: &H, tree_key: &K) -> (r: Result<
        Option<(&K, &V)>,
        DatabaseError,
    >)
        requires
            self.wf(),
        ensures
            match r {
                Ok(Some(e)) => self.has(hash_key@, e.0@) && self.val(hash_key@, e.0@) == *e.1
                    && key_lt::<K>(e.0@, tree_key@) && forall|k: K::V|
                    #[trigger] self.has(hash_key@, k) && key_lt::<K>(k, tree_key@) ==> K::key_le(
                        k,
                        e.0@,
                    ),
                Ok(None) => forall|k: K::V|
                    #[trigger] self.has(hash_key@, k) ==> !key_lt::<K>(k, tree_key@),
                Err(_) => false,
            },
    {
        match self.find_partition(hash_key) {
            Some(i) => Ok(self.map[i].1.pred(tree_key)),
            None => Ok(None),
        }
    }

    /// Visits entries with `key_first <= key <= key_last` in the partition,
    /// in ascending order, both ends inclusive; stops as soon as the callback
    /// returns `false`. Fails with `InvalidRange` exactly when the bounds are
    /// reversed; on that failure, and when the partition does not exist, the
    /// callback is never invoked (the body makes no call, though the trace
    /// idiom of `range_emits` cannot state a never-invoked claim).
    pub fn range<F: FnMut(&K, &V) -> bool>(
        &self,
        hash_key: &H,
        key_first: &K,
        key_last: &K,
        callback: F,
    ) -> (r: Result<(), DatabaseError>)
        requires
            self.wf(),
            forall|a: &K, b: &V| call_requires(callback, (a, b)),
        ensures
            r is Err <==> key_lt::<K>(key_last@, key_first@),
            r is Err ==> r.unwrap_err() is InvalidRange,
            r is Ok && self.has_partition(hash_key@) ==> exists|es: Seq<(K, V)>, stopped: bool|
                #[trigger] self.pages_of(hash_key@).range_emits(
                    key_first@,
                    key_last@,
                    callback,
                    stopped,
                    es,
                ),
    {
        let ghost cb = callback;
        match key_first.key_cmp(key_last) {
            KeyCmp::Greater => {
                return Err(
                    DatabaseError::invalid_range(
                        "key_first must be less than or equal to key_last".to_owned(),
                    ),
                );
            }
            KeyCmp::Less => {
                proof {
                    lemma_key_lt_asym::<K>(key_first@, key_last@);
                }
            }
            KeyCmp::Equal => {},
        }
        match self.find_partition(hash_key) {
            Some(i) => {
                let stopped = self.map[i].1.range(key_first, key_last, callback);
                proof {
                    let es = choose|es: Seq<(K, V)>|
                        #[trigger] self.spec_map()[i as int].1.range_emits(
                            key_first@,
                            key_last@,
                            cb,
                            stopped,
                            es,
                        );
                    assert(self.pages_of(hash_key@) == self.spec_map()[i as int].1);
                    assert(self.pages_of(hash_key@).range_emits(
                        key_first@,
                        key_last@,
                        cb,
                        stopped,
                        es,
                    ));
                }
                Ok(())
            }
            None => Ok(()),
        }
    }

    /// What one put promises: the pair is bound afterwards, every other
    /// binding is untouched, and the count grew exactly when the key was
    /// absent.
    pub open spec fn put_step(
        pre: Database<H, K, V>,
        post: Database<H, K, V>,
        h: H::V,
        k: K::V,
        v: V,
        was_absent: bool,
    ) -> bool {
        &&& post.has(h, k)
        &&& post.val(h, k) == v
        &&& was_absent == !pre.has(h, k)
        &&& forall|h2: H::V, k2: K::V|
            #[trigger] post.has(h2, k2) <==> pre.has(h2, k2) || (h2 == h && k2 == k)
        &&& forall|h2: H::V, k2: K::V|
            !(h2 == h && k2 == k) && pre.has(h2, k2) ==> #[trigger] post.val(h2, k2) == pre.val(
                h2,
                k2,
            )
        &&& post.spec_total() == pre.spec_total() + (if was_absent {
            1int
        } else {
            0int
        })
    }

    /// What one delete promises: the pair is gone afterwards, every other
    /// binding is untouched, and the count shrank exactly when the key was
    /// present.
    pub open spec fn delete_step(
        pre: Database<H, K, V>,
        post: Database<H, K, V>,
        h: H::V,
        k: K::V,
        removed: bool,
    ) -> bool {
        &&& !post.has(h, k)
        &&& removed == pre.has(h, k)
        &&& forall|h2: H::V, k2: K::V|
            #[trigger] post.has(h2, k2) <==> pre.has(h2, k2) && !(h2 == h && k2 == k)
        &&& forall|h2: H::V, k2: K::V|
            !(h2 == h && k2 == k) && pre.has(h2, k2) ==> #[trigger] post.val(h2, k2) == pre.val(
                h2,
                k2,
            )
        &&& post.spec_total() == pre.spec_total() - (if removed {
            1int
        } else {
            0int
        })
    }

    /// Idempotent put: putting twice under one pair of keys leaves the second
    /// value bound, and the second put does not change the count.
    pub proof fn lemma_put_idempotent(
        d0: Database<H, K, V>,
        d1: Database<H, K, V>,
        d2: Database<H, K, V>,
        h: H::V,
        k: K::V,
        v1: V,
        v2: V,
        r1: bool,
        r2: bool,
    )
        requires
            Self::put_step(d0, d1, h, k, v1, r1),
            Self::put_step(d1, d2, h, k, v2, r2),
        ensures
            d2.has(h, k),
            d2.val(h, k) == v2,
            d2.spec_total() == d1.spec_total(),
            !r2,
    {
        assert(d1.has(h, k));
    }

    /// Delete inverse: putting a previously-absent pair and deleting it again
    /// reports the pair absent and restores every prior binding and the prior
    /// count.
    pub proof fn lemma_delete_inverse(
        d0: Database<H, K, V>,
        d1: Database<H, K, V>,
        d2: Database<H, K, V>,
        h: H::V,
        k: K::V,
        v: V,
        r1: bool,
        r2: bool,
    )
        requires
            !d0.has(h, k),
            Self::put_step(d0, d1, h, k, v, r1),
            Self::delete_step(d1, d2, h, k, r2),
        ensures
            !d2.has(h, k),
            r2,
            d2.spec_total() == d0.spec_total(),
            forall|h2: H::V, k2: K::V| #[trigger] d2.has(h2, k2) <==> d0.has(h2, k2),
            forall|h2: H::V, k2: K::V|
                d0.has(h2, k2) ==> #[trigger] d2.val(h2, k2) == d0.val(h2, k2),
    {
        assert forall|h2: H::V, k2: K::V| #[trigger] d2.has(h2, k2) <==> d0.has(h2, k2) by {
            if d0.has(h2, k2) {
                assert(!(h2 == h && k2 == k));
            }
        }
        assert forall|h2: H::V, k2: K::V| d0.has(h2, k2) implies #[trigger] d2.val(h2, k2)
            == d0.val(h2, k2) by {
            assert(!(h2 == h && k2 == k));
            assert(d1.has(h2, k2));
            assert(d1.val(h2, k2) == d0.val(h2, k2));
        }
    }

    /// Drives the visitor over every partition, and within a partition over
    /// pages in order.
    pub fn visit<T: HashTreeVisiter<H, K, V> + TreeVisiter<K, V>>(&self, visiter: &mut T) {
        let mut i: usize = 0;
        while i < self.map.len()
            decreases self.map@.len() - i,
        {
            let entry = &self.map[i];
            visiter.visit_hash_before(&entry.0);
            entry.1.visit(visiter);
            visiter.visit_hash_after(&entry.0);
            i += 1;
        }
    }
}

} // verus!

verus! {

/// The snapshot model of one page: its envelope bounds and its entries, with
/// values taken at the view level.
pub open spec fn page_model<K: StoreKey + Codec, V: Codec>(p: Page<K, V>) -> PageModel<K, V> {
    (p.spec_range_start(), p.spec_range_end(), p@.map_values(|e: (K::V, V)| (e.0, e.1@)))
}

/// The snapshot model of one partition's pages.
pub open spec fn pages_model<K: StoreKey + Codec, V: Codec>(ps: Pages<K, V>) -> Seq<
    PageModel<K, V>,
> {
    ps.spec_pages().map_values(|p: Page<K, V>| page_model(p))
}

/// The snapshot model of a whole engine: its partitions in creation order.
pub open spec fn db_model<H: StoreKey + Codec, K: StoreKey + Codec, V: Codec>(
    d: Database<H, K, V>,
) -> SnapModel<H, K, V> {
    d.spec_map().map_values(|e: (H, Pages<K, V>)| (e.0@, pages_model(e.1)))
}

impl<H: StoreKey + Codec, K: StoreKey + Codec, V: Codec> Database<H, K, V> {
    /// The snapshot model of a well-formed engine reflects its contents
    /// exactly: the same pairs, and under each pair only the stored value.
    pub proof fn lemma_model_reflect(d: Database<H, K, V>)
        requires
            d.wf(),
        ensures
            forall|h: H::V, k: K::V|
                #[trigger] snap_has::<H, K, V>(db_model(d), h, k) <==> d.has(h, k),
            forall|h: H::V, k: K::V|
                #[trigger] d.has(h, k) ==> snap_val_ok::<H, K, V>(db_model(d), h, k, d.val(h, k)@),
            forall|h: H::V, k: K::V, v: V::V|
                #[trigger] snap_val_ok::<H, K, V>(db_model(d), h, k, v) ==> d.has(h, k) && v
                    == d.val(h, k)@,
    {
        let m = db_model(d);
        assert forall|h: H::V, k: K::V|
            #[trigger] snap_has::<H, K, V>(m, h, k) <==> d.has(h, k) by {
            if snap_has::<H, K, V>(m, h, k) {
                let i = choose|i: int|
                    0 <= i < m.len() && (#[trigger] m[i]).0 == h && pages_has::<K, V>(m[i].1, k);
                let j = choose|j: int|
                    0 <= j < m[i].1.len() && ents_has::<K, V>((#[trigger] m[i].1[j]).2, k);
                let l = choose|l: int|
                    0 <= l < m[i].1[j].2.len() && (#[trigger] m[i].1[j].2[l]).0 == k;
                let ps = d.spec_map()[i].1;
                let pg = ps.spec_pages()[j];
                assert(m[i].1[j] == page_model(pg));
                assert(m[i].1[j].2[l] == (pg@[l].0, pg@[l].1@));
                assert(pg.has(k));
                ps.lemma_val_at(j, k);
                Self::lemma_unique_partition(d, h, i);
                assert(d.has(h, k));
            }
            if d.has(h, k) {
                let i = d.partition_of(h);
                let ps = d.spec_map()[i].1;
                let j = ps.page_of(k);
                ps.lemma_val_at(j, k);
                let pg = ps.spec_pages()[j];
                let l = choose|l: int| 0 <= l < pg@.len() && pg@[l].0 == k;
                assert(m[i].1[j].2[l].0 == k);
                assert(ents_has::<K, V>(m[i].1[j].2, k));
                assert(pages_has::<K, V>(m[i].1, k));
                assert(snap_has::<H, K, V>(m, h, k));
            }
        }
        assert forall|h: H::V, k: K::V| #[trigger] d.has(h, k) implies snap_val_ok::<H, K, V>(
            m,
            h,
            k,
            d.val(h, k)@,
        ) by {
            let i = d.partition_of(h);
            let ps = d.spec_map()[i].1;
            let j = ps.page_of(k);
            ps.lemma_val_at(j, k);
            let pg = ps.spec_pages()[j];
            let l = index_of_key::<K, V>(pg@, k);
            let idx = choose|idx: int| 0 <= idx < pg@.len() && pg@[idx].0 == k;
            lemma_sorted_key_index::<K, V>(pg@, idx);
            assert(l == idx);
            assert(pg@[l].0 == k && pg@[l].1 == pg.val(k));
            assert(m[i].1[j].2[l] == (k, pg.val(k)@));
            assert(ents_val_ok::<K, V>(m[i].1[j].2, k, d.val(h, k)@));
            assert(pages_val_ok::<K, V>(m[i].1, k, d.val(h, k)@));
        }
        assert forall|h: H::V, k: K::V, v: V::V|
            #[trigger] snap_val_ok::<H, K, V>(m, h, k, v) implies d.has(h, k) && v == d.val(
            h,
            k,
        )@ by {
            let i = choose|i: int|
                0 <= i < m.len() && (#[trigger] m[i]).0 == h && pages_val_ok::<K, V>(m[i].1, k, v);
            let j = choose|j: int|
                0 <= j < m[i].1.len() && ents_val_ok::<K, V>((#[trigger] m[i].1[j]).2, k, v);
            let l = choose|l: int|
                0 <= l < m[i].1[j].2.len() && #[trigger] m[i].1[j].2[l] == (k, v);
            let ps = d.spec_map()[i].1;
            let pg = ps.spec_pages()[j];
            assert(m[i].1[j].2[l] == (pg@[l].0, pg@[l].1@));
            assert(pg@[l].0 == k && pg@[l].1@ == v);
            lemma_sorted_key_index::<K, V>(pg@, l);
            assert(pg.has(k) && pg.val(k) == pg@[l].1);
            ps.lemma_val_at(j, k);
            Self::lemma_unique_partition(d, h, i);
            assert(d.has(h, k));
            assert(d.val(h, k) == pg@[l].1);
        }
    }

    /// In the snapshot model of a well-formed engine no pair of keys occurs
    /// twice.
    pub proof fn lemma_model_distinct(d: Database<H, K, V>)
        requires
            d.wf(),
        ensures
            snap_distinct::<H, K, V>(db_model(d)),
    {
        let m = db_model(d);
        assert forall|i1: int, j1: int, l1: int, i2: int, j2: int, l2: int|
            #![trigger m[i1].1[j1].2[l1], m[i2].1[j2].2[l2]]
            0 <= i1 < m.len() && 0 <= j1 < m[i1].1.len() && 0 <= l1 < m[i1].1[j1].2.len() && 0
                <= i2 < m.len() && 0 <= j2 < m[i2].1.len() && 0 <= l2 < m[i2].1[j2].2.len()
                && m[i1].0 == m[i2].0 && m[i1].1[j1].2[l1].0 == m[i2].1[j2].2[l2].0 implies i1
            == i2 && j1 == j2 && l1 == l2 by {
            if i1 != i2 {
                assert(d.spec_map()[i1].0@ != d.spec_map()[i2].0@);
                assert(false);
            }
            let ps = d.spec_map()[i1].1;
            let pg1 = ps.spec_pages()[j1];
            let pg2 = ps.spec_pages()[j2];
            let k = pg1@[l1].0;
            assert(m[i1].1[j1].2[l1] == (pg1@[l1].0, pg1@[l1].1@));
            assert(m[i2].1[j2].2[l2] == (pg2@[l2].0, pg2@[l2].1@));
            lemma_sorted_key_index::<K, V>(pg1@, l1);
            lemma_sorted_key_index::<K, V>(pg2@, l2);
            assert(pg1.has(k) && pg2.has(k));
            if j1 != j2 {
                ps.lemma_at_most_one_page(k);
                if j1 < j2 {
                    assert(!(ps.spec_pages()[j1].has(k) && ps.spec_pages()[j2].has(k)));
                } else {
                    assert(!(ps.spec_pages()[j2].has(k) && ps.spec_pages()[j1].has(k)));
                }
                assert(false);
            }
            if l1 != l2 {
                assert(pg1 == pg2);
                if l1 < l2 {
                    assert(key_lt::<K>(pg1@[l1].0, pg1@[l2].0));
                } else {
                    assert(key_lt::<K>(pg1@[l2].0, pg1@[l1].0));
                }
                assert(false);
            }
        }
    }

    /// The snapshot model of a well-formed engine counts exactly the
    /// engine's entries.
    pub proof fn lemma_model_count(d: Database<H, K, V>)
        requires
            d.wf(),
        ensures
            snap_count::<H, K, V>(db_model(d)) == d.spec_total(),
    {
        Self::lemma_map_model_count(d.spec_map());
        assert(db_model(d) =~= d.spec_map().map_values(
            |e: (H, Pages<K, V>)| (e.0@, pages_model(e.1)),
        ));
    }

    /// The model of a partition sequence counts its entries.
    proof fn lemma_map_model_count(ms: Seq<(H, Pages<K, V>)>)
        requires
            forall|i: int| 0 <= i < ms.len() ==> (#[trigger] ms[i]).1.wf(),
        ensures
            snap_count::<H, K, V>(
                ms.map_values(|e: (H, Pages<K, V>)| (e.0@, pages_model(e.1))),
            ) == count_of(ms),
        decreases ms.len(),
    {
        let m = ms.map_values(|e: (H, Pages<K, V>)| (e.0@, pages_model(e.1)));
        if ms.len() == 0 {
        } else {
            Self::lemma_map_model_count(ms.drop_last());
            assert(m.drop_last() =~= ms.drop_last().map_values(
                |e: (H, Pages<K, V>)| (e.0@, pages_model(e.1)),
            ));
            Self::lemma_pages_model_count(ms.last().1.spec_pages());
            assert(ms.last().1.spec_count() == total_of(ms.last().1.spec_pages()));
            assert(m.last().1 == pages_model(ms.last().1));
        }
    }

    /// The model of a page sequence counts its entries.
    proof fn lemma_pages_model_count(s: Seq<Page<K, V>>)
        ensures
            pages_count::<K, V>(s.map_values(|p: Page<K, V>| page_model(p))) == total_of(s),
        decreases s.len(),
    {
        let m = s.map_values(|p: Page<K, V>| page_model(p));
        if s.len() == 0 {
        } else {
            Self::lemma_pages_model_count(s.drop_last());
            assert(m.drop_last() =~= s.drop_last().map_values(|p: Page<K, V>| page_model(p)));
            assert(m.last() == page_model(s.last()));
            assert(m.last().2.len() == s.last()@.len());
        }
    }

    /// A saved snapshot always loads: it satisfies every hypothesis under
    /// which `load_bytes` promises success — it is a well-formed encoding
    /// sitting at the start of its own stream, with a countable number of
    /// entries.
    pub proof fn lemma_snapshot_loadable(saved: Database<H, K, V>)
        requires
            saved.wf(),
        ensures
            enc_at(
                enc_snapshot::<H, K, V>(db_model(saved)),
                0,
                enc_snapshot::<H, K, V>(db_model(saved)),
            ),
            snap_count::<H, K, V>(db_model(saved)) <= usize::MAX,
    {
        Self::lemma_model_count(saved);
        let e = enc_snapshot::<H, K, V>(db_model(saved));
        assert(e.subrange(0, e.len() as int) =~= e);
    }

    /// Snapshot round trip: loading a stream that begins with a saved
    /// snapshot restores exactly the saved contents — the same pairs of keys
    /// present, the same value bytes under each, and the same entry count.
    pub proof fn lemma_snapshot_round_trip(
        saved: Database<H, K, V>,
        loaded: Database<H, K, V>,
        dm: SnapModel<H, K, V>,
        bytes: Seq<u8>,
    )
        requires
            saved.wf(),
            snapm_wf::<H, K, V>(db_model(saved)),
            bytes == enc_snapshot::<H, K, V>(db_model(saved)),
            snapm_wf::<H, K, V>(dm),
            enc_at(bytes, 0, enc_snapshot::<H, K, V>(dm)),
            loaded.matches_snapshot(dm),
        ensures
            forall|h: H::V, k: K::V| #[trigger] loaded.has(h, k) <==> saved.has(h, k),
            forall|h: H::V, k: K::V|
                #[trigger] saved.has(h, k) ==> loaded.val(h, k)@ == saved.val(h, k)@,
            loaded.spec_total() == saved.spec_total(),
    {
        let sm = db_model(saved);
        let e_dm = enc_snapshot::<H, K, V>(dm);
        let tail = bytes.skip(e_dm.len() as int);
        assert(e_dm + tail =~= bytes) by {
            assert(forall|q: int|
                0 <= q < e_dm.len() ==> e_dm[q] == bytes.subrange(0, e_dm.len() as int)[q]);
        }
        assert(enc_snapshot::<H, K, V>(sm) + Seq::<u8>::empty() =~= bytes);
        lemma_snapshot_prefix_inj::<H, K, V>(dm, sm, tail, Seq::empty());
        assert(dm == sm);
        Self::lemma_model_reflect(saved);
        Self::lemma_model_distinct(saved);
        Self::lemma_model_count(saved);
        assert forall|h: H::V, k: K::V|
            #[trigger] saved.has(h, k) implies loaded.val(h, k)@ == saved.val(h, k)@ by {
            assert(loaded.has(h, k));
            assert(snap_val_ok::<H, K, V>(sm, h, k, loaded.val(h, k)@));
        }
    }

    /// Appends the encoding of one page: envelope bounds, entry count,
    /// entries.
    fn encode_page(page: &Page<K, V>, out: &mut Vec<u8>)
        ensures
            final(out)@ == old(out)@ + enc_pagem::<K, V>(page_model(*page)),
            pagem_wf::<K, V>(page_model(*page)),
    {
        let ghost pm = page_model(*page);
        let ghost base = out@;
        page.range_start().encode(out);
        page.range_end().encode(out);
        let nents = page.size();
        let nents64: u64 = nents as u64;
        nents64.encode(out);
        proof {
            assert(pm.2.len() == page@.len());
        }
        let ghost mid = out@;
        let mut l: usize = 0;
        while l < nents
            invariant
                0 <= l <= nents,
                nents == page@.len(),
                pm == page_model(*page),
                pm.2.len() == nents,
                out@ + enc_ents_from::<K, V>(pm.2, l as int) == mid + enc_ents_from::<K, V>(
                    pm.2,
                    0,
                ),
                forall|q: int|
                    0 <= q < l ==> K::enc_wf((#[trigger] pm.2[q]).0) && V::enc_wf(pm.2[q].1),
            decreases nents - l,
        {
            let ghost before = out@;
            let e = page.entry_at(l);
            e.0.encode(out);
            e.1.encode(out);
            proof {
                assert(pm.2[l as int] == (page@[l as int].0, page@[l as int].1@));
                assert(e.0@ == pm.2[l as int].0);
                assert(e.1@ == pm.2[l as int].1);
                assert(out@ =~= before + enc_entry::<K, V>(pm.2[l as int]));
                assert(enc_ents_from::<K, V>(pm.2, l as int) == enc_entry::<K, V>(pm.2[l as int])
                    + enc_ents_from::<K, V>(pm.2, l + 1));
                assert(out@ + enc_ents_from::<K, V>(pm.2, l + 1) =~= before + enc_ents_from::<
                    K,
                    V,
                >(pm.2, l as int));
            }
            l += 1;
        }
        proof {
            assert(enc_ents_from::<K, V>(pm.2, nents as int) =~= Seq::<u8>::empty());
            assert(out@ + Seq::<u8>::empty() =~= out@);
            assert(out@ =~= mid + enc_ents_from::<K, V>(pm.2, 0));
            assert(out@ =~= base + enc_pagem::<K, V>(pm));
        }
    }

    /// Appends the encoding of one partition's pages: page count, pages.
    fn encode_pages(pages: &Pages<K, V>, out: &mut Vec<u8>)
        ensures
            final(out)@ == old(out)@ + spec_u64_to_le_bytes(pages_model(*pages).len() as u64)
                + enc_pages_from::<K, V>(pages_model(*pages), 0),
            pages_model(*pages).len() <= usize::MAX,
            forall|q: int|
                0 <= q < pages_model(*pages).len() ==> pagem_wf::<K, V>(
                    #[trigger] pages_model(*pages)[q],
                ),
    {
        let ghost psm = pages_model(*pages);
        let ghost base = out@;
        let npages = pages.page_count();
        let npages64: u64 = npages as u64;
        npages64.encode(out);
        proof {
            assert(psm.len() == npages);
        }
        let ghost mid = out@;
        let mut j: usize = 0;
        while j < npages
            invariant
                0 <= j <= npages,
                npages == pages.spec_pages().len(),
                psm == pages_model(*pages),
                psm.len() == npages,
                out@ + enc_pages_from::<K, V>(psm, j as int) == mid + enc_pages_from::<K, V>(
                    psm,
                    0,
                ),
                forall|q: int| 0 <= q < j ==> pagem_wf::<K, V>(#[trigger] psm[q]),
            decreases npages - j,
        {
            let ghost before = out@;
            let page = pages.page_at(j);
            Self::encode_page(page, out);
            proof {
                assert(psm[j as int] == page_model(*page));
                assert(enc_pages_from::<K, V>(psm, j as int) == enc_pagem::<K, V>(psm[j as int])
                    + enc_pages_from::<K, V>(psm, j + 1));
                assert(out@ + enc_pages_from::<K, V>(psm, j + 1) =~= before + enc_pages_from::<
                    K,
                    V,
                >(psm, j as int));
            }
            j += 1;
        }
        proof {
            assert(enc_pages_from::<K, V>(psm, npages as int) =~= Seq::<u8>::empty());
            assert(out@ + Seq::<u8>::empty() =~= out@);
            assert(out@ =~= base + spec_u64_to_le_bytes(npages as u64) + enc_pages_from::<K, V>(
                psm,
                0,
            ));
        }
    }

    /// Serializes the whole engine state, excluding the configuration, to a
    /// single byte stream in the snapshot format: a 64-bit partition count,
    /// then each partition as its key followed by its pages.
    pub fn save_bytes(&self) -> (r: Vec<u8>)
        requires
            self.wf(),
        ensures
            r@ == enc_snapshot::<H, K, V>(db_model(*self)),
            snapm_wf::<H, K, V>(db_model(*self)),
    {
        let ghost m = db_model(*self);
        let mut out: Vec<u8> = Vec::new();
        let nparts = self.map.len();
        let nparts64: u64 = nparts as u64;
        nparts64.encode(&mut out);
        proof {
            assert(m.len() == nparts);
        }
        let ghost mid = out@;
        let mut i: usize = 0;
        while i < nparts
            invariant
                0 <= i <= nparts,
                nparts == self.spec_map().len(),
                m == db_model(*self),
                m.len() == nparts,
                out@ + enc_parts_from::<H, K, V>(m, i as int) == mid + enc_parts_from::<H, K, V>(
                    m,
                    0,
                ),
                forall|q: int| 0 <= q < i ==> partm_wf::<H, K, V>(#[trigger] m[q]),
            decreases nparts - i,
        {
            let ghost before = out@;
            let entry = &self.map[i];
            entry.0.encode(&mut out);
            Self::encode_pages(&entry.1, &mut out);
            proof {
                assert(m[i as int] == (entry.0@, pages_model(entry.1)));
                assert(out@ =~= before + enc_partm::<H, K, V>(m[i as int]));
                assert(enc_parts_from::<H, K, V>(m, i as int) == enc_partm::<H, K, V>(
                    m[i as int],
                ) + enc_parts_from::<H, K, V>(m, i + 1));
                assert(out@ + enc_parts_from::<H, K, V>(m, i + 1) =~= before + enc_parts_from::<
                    H,
                    K,
                    V,
                >(m, i as int));
            }
            i += 1;
        }
        proof {
            assert(enc_parts_from::<H, K, V>(m, nparts as int) =~= Seq::<u8>::empty());
            assert(out@ + Seq::<u8>::empty() =~= out@);
            assert(out@ =~= mid + enc_parts_from::<H, K, V>(m, 0));
            assert(out@ =~= spec_u64_to_le_bytes(nparts as u64) + enc_parts_from::<H, K, V>(m, 0));
        }
        out
    }

    /// The engine holds exactly the bindings of the snapshot model: the
    /// same pairs of keys are present, each bound to one of the model's
    /// values for it, and a duplicate-free model pins the entry count.
    pub open spec fn matches_snapshot(&self, m: SnapModel<H, K, V>) -> bool {
        &&& forall|h: H::V, k: K::V| #[trigger] self.has(h, k) <==> snap_has::<H, K, V>(m, h, k)
        &&& forall|h: H::V, k: K::V|
            #[trigger] self.has(h, k) ==> snap_val_ok::<H, K, V>(m, h, k, self.val(h, k)@)
        &&& (snap_distinct::<H, K, V>(m) ==> self.spec_total() == snap_count::<H, K, V>(m))
    }

    /// Reads one page from the stream and replays its entries into the open
    /// partition.
    #[verifier::loop_isolation(false)]
    #[verifier::rlimit(100)]
    fn load_page(
        &mut self,
        bytes: &Vec<u8>,
        pos: &mut usize,
        hash_key: &H,
        Ghost(dm): Ghost<SnapModel<H, K, V>>,
        Ghost(pgs): Ghost<Seq<PageModel<K, V>>>,
    ) -> (r: Result<Ghost<PageModel<K, V>>, DatabaseError>)
        requires
            old(self).wf(),
            *old(pos) <= bytes@.len(),
            old(self).matches_snapshot(dm.push((hash_key@, pgs))),
        ensures
            final(self).wf(),
            final(self).spec_max_page_size() == old(self).spec_max_page_size(),
            match r {
                Ok(pm) => *old(pos) <= *final(pos) <= bytes@.len() && bytes@.subrange(
                    *old(pos) as int,
                    *final(pos) as int,
                ) == enc_pagem::<K, V>(pm@) && pagem_wf::<K, V>(pm@) && final(self).matches_snapshot(
                    dm.push((hash_key@, pgs.push(pm@))),
                ) && final(self).spec_total() <= old(self).spec_total() + pm@.2.len(),
                Err(e) => e is SerializeError,
            },
            forall|pm: PageModel<K, V>|
                pagem_wf::<K, V>(pm) && #[trigger] enc_at(
                    bytes@,
                    *old(pos) as int,
                    enc_pagem::<K, V>(pm),
                ) && old(self).spec_total() + pm.2.len() <= usize::MAX ==> r is Ok,
    {
        let ghost hv = hash_key@;
        let start = *pos;
        let range_start = match <K as Codec>::decode(bytes, pos) {
            Some(x) => x,
            None => {
                proof {
                    assert forall|pm: PageModel<K, V>|
                        pagem_wf::<K, V>(pm) && #[trigger] enc_at(
                            bytes@,
                            start as int,
                            enc_pagem::<K, V>(pm),
                        ) implies false by {
                        assert(enc_pagem::<K, V>(pm) =~= K::enc_of(pm.0) + (K::enc_of(pm.1)
                            + (spec_u64_to_le_bytes(pm.2.len() as u64) + enc_ents_from::<K, V>(
                            pm.2,
                            0,
                        ))));
                        lemma_enc_at_split(
                            bytes@,
                            start as int,
                            K::enc_of(pm.0),
                            K::enc_of(pm.1) + (spec_u64_to_le_bytes(pm.2.len() as u64)
                                + enc_ents_from::<K, V>(pm.2, 0)),
                        );
                    }
                }
                return Err(DatabaseError::serialize_error("snapshot stream ends early".to_owned()));
            }
        };
        let ghost q1 = *pos;
        proof {
            assert forall|pm: PageModel<K, V>|
                pagem_wf::<K, V>(pm) && #[trigger] enc_at(
                    bytes@,
                    start as int,
                    enc_pagem::<K, V>(pm),
                ) implies range_start@ == pm.0 && q1 == start + K::enc_of(pm.0).len() && enc_at(
                bytes@,
                q1 as int,
                K::enc_of(pm.1) + (spec_u64_to_le_bytes(pm.2.len() as u64) + enc_ents_from::<
                    K,
                    V,
                >(pm.2, 0)),
            ) by {
                assert(enc_pagem::<K, V>(pm) =~= K::enc_of(pm.0) + (K::enc_of(pm.1)
                    + (spec_u64_to_le_bytes(pm.2.len() as u64) + enc_ents_from::<K, V>(
                    pm.2,
                    0,
                ))));
                lemma_enc_at_split(
                    bytes@,
                    start as int,
                    K::enc_of(pm.0),
                    K::enc_of(pm.1) + (spec_u64_to_le_bytes(pm.2.len() as u64)
                        + enc_ents_from::<K, V>(pm.2, 0)),
                );
            }
        }
        let range_end = match <K as Codec>::decode(bytes, pos) {
            Some(x) => x,
            None => {
                proof {
                    assert forall|pm: PageModel<K, V>|
                        pagem_wf::<K, V>(pm) && #[trigger] enc_at(
                            bytes@,
                            start as int,
                            enc_pagem::<K, V>(pm),
                        ) implies false by {
                        lemma_enc_at_split(
                            bytes@,
                            q1 as int,
                            K::enc_of(pm.1),
                            spec_u64_to_le_bytes(pm.2.len() as u64) + enc_ents_from::<K, V>(
                                pm.2,
                                0,
                            ),
                        );
                    }
                }
                return Err(DatabaseError::serialize_error("snapshot stream ends early".to_owned()));
            }
        };
        let ghost q2 = *pos;
        proof {
            assert forall|pm: PageModel<K, V>|
                pagem_wf::<K, V>(pm) && #[trigger] enc_at(
                    bytes@,
                    start as int,
                    enc_pagem::<K, V>(pm),
                ) implies range_end@ == pm.1 && q2 == q1 + K::enc_of(pm.1).len() && enc_at(
                bytes@,
                q2 as int,
                spec_u64_to_le_bytes(pm.2.len() as u64) + enc_ents_from::<K, V>(pm.2, 0),
            ) by {
                lemma_enc_at_split(
                    bytes@,
                    q1 as int,
                    K::enc_of(pm.1),
                    spec_u64_to_le_bytes(pm.2.len() as u64) + enc_ents_from::<K, V>(pm.2, 0),
                );
            }
        }
        let nents64 = match <u64 as Codec>::decode(bytes, pos) {
            Some(x) => x,
            None => {
                proof {
                    assert forall|pm: PageModel<K, V>|
                        pagem_wf::<K, V>(pm) && #[trigger] enc_at(
                            bytes@,
                            start as int,
                            enc_pagem::<K, V>(pm),
                        ) implies false by {
                        lemma_enc_at_split(
                            bytes@,
                            q2 as int,
                            spec_u64_to_le_bytes(pm.2.len() as u64),
                            enc_ents_from::<K, V>(pm.2, 0),
                        );
                        assert(enc_at(bytes@, q2 as int, <u64 as Codec>::enc_of(
                            pm.2.len() as u64,
                        )));
                    }
                }
                return Err(DatabaseError::serialize_error("snapshot stream ends early".to_owned()));
            }
        };
        let ghost q3 = *pos;
        proof {
            assert forall|pm: PageModel<K, V>|
                pagem_wf::<K, V>(pm) && #[trigger] enc_at(
                    bytes@,
                    start as int,
                    enc_pagem::<K, V>(pm),
                ) implies nents64 == pm.2.len() as u64 && q3 == q2 + 8 && enc_at(
                bytes@,
                q3 as int,
                enc_ents_from::<K, V>(pm.2, 0),
            ) by {
                lemma_enc_at_split(
                    bytes@,
                    q2 as int,
                    spec_u64_to_le_bytes(pm.2.len() as u64),
                    enc_ents_from::<K, V>(pm.2, 0),
                );
                assert(enc_at(bytes@, q2 as int, <u64 as Codec>::enc_of(pm.2.len() as u64)));
                vstd::bytes::lemma_auto_spec_u64_to_from_le_bytes();
            }
        }
        if nents64 > usize::MAX as u64 {
            proof {
                assert forall|pm: PageModel<K, V>|
                    pagem_wf::<K, V>(pm) && #[trigger] enc_at(
                        bytes@,
                        start as int,
                        enc_pagem::<K, V>(pm),
                    ) implies false by {
                    assert(pm.2.len() <= usize::MAX);
                }
            }
            return Err(DatabaseError::serialize_error("entry count does not fit".to_owned()));
        }
        let nents = nents64 as usize;
        let ghost sv = range_start@;
        let ghost ev = range_end@;
        let ghost mut ents: Seq<(K::V, V::V)> = Seq::empty();
        proof {
            lemma_subrange_chain(bytes@, start as int, q1 as int, q2 as int);
            lemma_subrange_chain(bytes@, start as int, q2 as int, q3 as int);
            assert(bytes@.subrange(start as int, q3 as int) =~= K::enc_of(sv) + K::enc_of(ev)
                + spec_u64_to_le_bytes(nents64));
            assert(enc_ents_from::<K, V>(ents, 0) =~= Seq::<u8>::empty());
            assert(bytes@.subrange(start as int, q3 as int) + Seq::<u8>::empty()
                =~= bytes@.subrange(start as int, q3 as int));
            lemma_open_page::<H, K, V>(dm, hv, pgs, sv, ev);
            assert(self.matches_snapshot(open_model::<H, K, V>(dm, hv, pgs, sv, ev, ents)));
            assert forall|pm: PageModel<K, V>|
                pagem_wf::<K, V>(pm) && #[trigger] enc_at(
                    bytes@,
                    start as int,
                    enc_pagem::<K, V>(pm),
                ) implies ents == pm.2.take(0) by {
                assert(ents =~= pm.2.take(0));
            }
        }
        let mut l: usize = 0;
        while l < nents
            invariant
                0 <= l <= nents,
                ents.len() == l as int,
                start <= *pos <= bytes@.len(),
                self.wf(),
                self.spec_max_page_size() == old(self).spec_max_page_size(),
                bytes@.subrange(start as int, *pos as int) == K::enc_of(sv) + K::enc_of(ev)
                    + spec_u64_to_le_bytes(nents64) + enc_ents_from::<K, V>(ents, 0),
                forall|q: int|
                    0 <= q < ents.len() ==> K::enc_wf((#[trigger] ents[q]).0) && V::enc_wf(
                        ents[q].1,
                    ),
                self.matches_snapshot(open_model::<H, K, V>(dm, hv, pgs, sv, ev, ents)),
                self.spec_total() <= old(self).spec_total() + l,
                forall|pm: PageModel<K, V>|
                    pagem_wf::<K, V>(pm) && #[trigger] enc_at(
                        bytes@,
                        start as int,
                        enc_pagem::<K, V>(pm),
                    ) ==> l as int <= pm.2.len() && ents == pm.2.take(l as int) && enc_at(
                        bytes@,
                        *pos as int,
                        enc_ents_from::<K, V>(pm.2, l as int),
                    ),
            decreases nents - l,
        {
            let ghost qa = *pos;
            proof {
                assert forall|pm: PageModel<K, V>|
                    pagem_wf::<K, V>(pm) && #[trigger] enc_at(
                        bytes@,
                        start as int,
                        enc_pagem::<K, V>(pm),
                    ) implies enc_at(bytes@, qa as int, K::enc_of(pm.2[l as int].0)) && enc_at(
                    bytes@,
                    qa + K::enc_of(pm.2[l as int].0).len(),
                    V::enc_of(pm.2[l as int].1) + enc_ents_from::<K, V>(pm.2, l as int + 1),
                ) by {
                    assert(l < pm.2.len());
                    assert(enc_ents_from::<K, V>(pm.2, l as int) =~= K::enc_of(pm.2[l as int].0)
                        + (V::enc_of(pm.2[l as int].1) + enc_ents_from::<K, V>(
                        pm.2,
                        l as int + 1,
                    )));
                    lemma_enc_at_split(
                        bytes@,
                        qa as int,
                        K::enc_of(pm.2[l as int].0),
                        V::enc_of(pm.2[l as int].1) + enc_ents_from::<K, V>(pm.2, l as int + 1),
                    );
                }
            }
            let k = match <K as Codec>::decode(bytes, pos) {
                Some(x) => x,
                None => {
                    return Err(
                        DatabaseError::serialize_error("snapshot stream ends early".to_owned()),
                    );
                }
            };
            let ghost qb = *pos;
            proof {
                assert forall|pm: PageModel<K, V>|
                    pagem_wf::<K, V>(pm) && #[trigger] enc_at(
                        bytes@,
                        start as int,
                        enc_pagem::<K, V>(pm),
                    ) implies k@ == pm.2[l as int].0 && qb == qa + K::enc_of(
                    pm.2[l as int].0,
                ).len() && enc_at(bytes@, qb as int, V::enc_of(pm.2[l as int].1)) && enc_at(
                    bytes@,
                    qb + V::enc_of(pm.2[l as int].1).len(),
                    enc_ents_from::<K, V>(pm.2, l as int + 1),
                ) by {
                    lemma_enc_at_split(
                        bytes@,
                        qb as int,
                        V::enc_of(pm.2[l as int].1),
                        enc_ents_from::<K, V>(pm.2, l as int + 1),
                    );
                }
            }
            let v = match <V as Codec>::decode(bytes, pos) {
                Some(x) => x,
                None => {
                    return Err(
                        DatabaseError::serialize_error("snapshot stream ends early".to_owned()),
                    );
                }
            };
            let ghost qc = *pos;
            proof {
                assert forall|pm: PageModel<K, V>|
                    pagem_wf::<K, V>(pm) && #[trigger] enc_at(
                        bytes@,
                        start as int,
                        enc_pagem::<K, V>(pm),
                    ) implies v@ == pm.2[l as int].1 && qc as int == qb + V::enc_of(
                    pm.2[l as int].1,
                ).len() && enc_at(bytes@, qc as int, enc_ents_from::<K, V>(
                    pm.2,
                    l as int + 1,
                )) by {
                }
            }
            if self.total == usize::MAX {
                proof {
                    assert forall|pm: PageModel<K, V>|
                        pagem_wf::<K, V>(pm) && #[trigger] enc_at(
                            bytes@,
                            start as int,
                            enc_pagem::<K, V>(pm),
                        ) && old(self).spec_total() + pm.2.len() <= usize::MAX implies false by {
                        assert(l < pm.2.len());
                        assert(self.spec_total() < usize::MAX);
                    }
                }
                return Err(DatabaseError::serialize_error("too many entries to hold".to_owned()));
            }
            let ghost kv = k@;
            let ghost vv = v@;
            let ghost pre_put = *self;
            proof {
                lemma_push_entry::<H, K, V>(dm, hv, pgs, sv, ev, ents, kv, vv);
            }
            match self.put(hash_key.key_clone(), k, v) {
                Ok(_) => {},
                Err(e) => {
                    return Err(e);
                }
            }
            proof {
                let cur = open_model::<H, K, V>(dm, hv, pgs, sv, ev, ents);
                let cur2 = open_model::<H, K, V>(dm, hv, pgs, sv, ev, ents.push((kv, vv)));
                assert forall|h0: H::V, k0: K::V| #[trigger] self.has(h0, k0) <==> snap_has::<
                    H,
                    K,
                    V,
                >(cur2, h0, k0) by {
                    assert(self.has(h0, k0) <==> pre_put.has(h0, k0) || (h0 == hv && k0 == kv));
                    assert(pre_put.has(h0, k0) <==> snap_has::<H, K, V>(cur, h0, k0));
                }
                assert forall|h0: H::V, k0: K::V| #[trigger] self.has(h0, k0) implies
                    snap_val_ok::<H, K, V>(cur2, h0, k0, self.val(h0, k0)@) by {
                    if h0 == hv && k0 == kv {
                        assert(self.val(h0, k0) == v);
                        assert(snap_val_ok::<H, K, V>(cur2, hv, kv, vv));
                    } else {
                        assert(pre_put.has(h0, k0));
                        assert(self.val(h0, k0) == pre_put.val(h0, k0));
                        assert(snap_val_ok::<H, K, V>(cur, h0, k0, pre_put.val(h0, k0)@));
                    }
                }
                if snap_distinct::<H, K, V>(cur2) {
                    assert(snap_distinct::<H, K, V>(cur) && !snap_has::<H, K, V>(cur, hv, kv));
                    assert(!pre_put.has(hv, kv));
                    assert(self.spec_total() == pre_put.spec_total() + 1);
                    assert(pre_put.spec_total() == snap_count::<H, K, V>(cur));
                    assert(snap_count::<H, K, V>(cur2) == snap_count::<H, K, V>(cur) + 1);
                }
                assert(self.matches_snapshot(cur2));
                lemma_subrange_chain(bytes@, start as int, qa as int, qc as int);
                lemma_subrange_chain(bytes@, qa as int, qb as int, qc as int);
                assert(bytes@.subrange(qa as int, qc as int) =~= K::enc_of(kv) + V::enc_of(vv));
                lemma_enc_ents_push::<K, V>(ents, (kv, vv), 0);
                assert(bytes@.subrange(start as int, qc as int) =~= K::enc_of(sv) + K::enc_of(ev)
                    + spec_u64_to_le_bytes(nents64) + enc_ents_from::<K, V>(
                    ents.push((kv, vv)),
                    0,
                ));
                assert forall|pm: PageModel<K, V>|
                    pagem_wf::<K, V>(pm) && #[trigger] enc_at(
                        bytes@,
                        start as int,
                        enc_pagem::<K, V>(pm),
                    ) implies ents.push((kv, vv)) == pm.2.take(l as int + 1) by {
                    assert(pm.2.take(l as int + 1) =~= pm.2.take(l as int).push(
                        pm.2[l as int],
                    ));
                }
                ents = ents.push((kv, vv));
            }
            l += 1;
        }
        proof {
            assert(ents.len() as u64 == nents64);
            assert(enc_pagem::<K, V>((sv, ev, ents)) =~= bytes@.subrange(
                start as int,
                *pos as int,
            ));
            assert(pagem_wf::<K, V>((sv, ev, ents)));
        }
        Ok(Ghost((sv, ev, ents)))
    }

    /// Reads one partition from the stream and replays its pages.
    #[verifier::loop_isolation(false)]
    #[verifier::rlimit(100)]
    fn load_partition(
        &mut self,
        bytes: &Vec<u8>,
        pos: &mut usize,
        Ghost(dm): Ghost<SnapModel<H, K, V>>,
    ) -> (r: Result<Ghost<PartModel<H, K, V>>, DatabaseError>)
        requires
            old(self).wf(),
            *old(pos) <= bytes@.len(),
            old(self).matches_snapshot(dm),
        ensures
            final(self).wf(),
            final(self).spec_max_page_size() == old(self).spec_max_page_size(),
            match r {
                Ok(ptm) => *old(pos) <= *final(pos) <= bytes@.len() && bytes@.subrange(
                    *old(pos) as int,
                    *final(pos) as int,
                ) == enc_partm::<H, K, V>(ptm@) && partm_wf::<H, K, V>(ptm@) && final(self).matches_snapshot(
                    dm.push(ptm@),
                ) && final(self).spec_total() <= old(self).spec_total() + pages_count::<K, V>(
                    ptm@.1,
                ),
                Err(e) => e is SerializeError,
            },
            forall|ptm: PartModel<H, K, V>|
                partm_wf::<H, K, V>(ptm) && #[trigger] enc_at(
                    bytes@,
                    *old(pos) as int,
                    enc_partm::<H, K, V>(ptm),
                ) && old(self).spec_total() + pages_count::<K, V>(ptm.1) <= usize::MAX ==> r
                    is Ok,
    {
        let start = *pos;
        let hash_key = match <H as Codec>::decode(bytes, pos) {
            Some(x) => x,
            None => {
                proof {
                    assert forall|ptm: PartModel<H, K, V>|
                        partm_wf::<H, K, V>(ptm) && #[trigger] enc_at(
                            bytes@,
                            start as int,
                            enc_partm::<H, K, V>(ptm),
                        ) implies false by {
                        assert(enc_partm::<H, K, V>(ptm) =~= H::enc_of(ptm.0)
                            + (spec_u64_to_le_bytes(ptm.1.len() as u64) + enc_pages_from::<
                            K,
                            V,
                        >(ptm.1, 0)));
                        lemma_enc_at_split(
                            bytes@,
                            start as int,
                            H::enc_of(ptm.0),
                            spec_u64_to_le_bytes(ptm.1.len() as u64) + enc_pages_from::<K, V>(
                                ptm.1,
                                0,
                            ),
                        );
                    }
                }
                return Err(DatabaseError::serialize_error("snapshot stream ends early".to_owned()));
            }
        };
        let ghost q1 = *pos;
        proof {
            assert forall|ptm: PartModel<H, K, V>|
                partm_wf::<H, K, V>(ptm) && #[trigger] enc_at(
                    bytes@,
                    start as int,
                    enc_partm::<H, K, V>(ptm),
                ) implies hash_key@ == ptm.0 && q1 == start + H::enc_of(ptm.0).len() && enc_at(
                bytes@,
                q1 as int,
                spec_u64_to_le_bytes(ptm.1.len() as u64) + enc_pages_from::<K, V>(ptm.1, 0),
            ) by {
                assert(enc_partm::<H, K, V>(ptm) =~= H::enc_of(ptm.0) + (spec_u64_to_le_bytes(
                    ptm.1.len() as u64,
                ) + enc_pages_from::<K, V>(ptm.1, 0)));
                lemma_enc_at_split(
                    bytes@,
                    start as int,
                    H::enc_of(ptm.0),
                    spec_u64_to_le_bytes(ptm.1.len() as u64) + enc_pages_from::<K, V>(ptm.1, 0),
                );
            }
        }
        let npages64 = match <u64 as Codec>::decode(bytes, pos) {
            Some(x) => x,
            None => {
                proof {
                    assert forall|ptm: PartModel<H, K, V>|
                        partm_wf::<H, K, V>(ptm) && #[trigger] enc_at(
                            bytes@,
                            start as int,
                            enc_partm::<H, K, V>(ptm),
                        ) implies false by {
                        lemma_enc_at_split(
                            bytes@,
                            q1 as int,
                            spec_u64_to_le_bytes(ptm.1.len() as u64),
                            enc_pages_from::<K, V>(ptm.1, 0),
                        );
                        assert(enc_at(bytes@, q1 as int, <u64 as Codec>::enc_of(
                            ptm.1.len() as u64,
                        )));
                    }
                }
                return Err(DatabaseError::serialize_error("snapshot stream ends early".to_owned()));
            }
        };
        let ghost q2 = *pos;
        proof {
            assert forall|ptm: PartModel<H, K, V>|
                partm_wf::<H, K, V>(ptm) && #[trigger] enc_at(
                    bytes@,
                    start as int,
                    enc_partm::<H, K, V>(ptm),
                ) implies npages64 == ptm.1.len() as u64 && q2 == q1 + 8 && enc_at(
                bytes@,
                q2 as int,
                enc_pages_from::<K, V>(ptm.1, 0),
            ) by {
                lemma_enc_at_split(
                    bytes@,
                    q1 as int,
                    spec_u64_to_le_bytes(ptm.1.len() as u64),
                    enc_pages_from::<K, V>(ptm.1, 0),
                );
                assert(enc_at(bytes@, q1 as int, <u64 as Codec>::enc_of(ptm.1.len() as u64)));
                vstd::bytes::lemma_auto_spec_u64_to_from_le_bytes();
            }
        }
        if npages64 > usize::MAX as u64 {
            proof {
                assert forall|ptm: PartModel<H, K, V>|
                    partm_wf::<H, K, V>(ptm) && #[trigger] enc_at(
                        bytes@,
                        start as int,
                        enc_partm::<H, K, V>(ptm),
                    ) implies false by {
                    assert(ptm.1.len() <= usize::MAX);
                }
            }
            return Err(DatabaseError::serialize_error("page count does not fit".to_owned()));
        }
        let npages = npages64 as usize;
        let ghost hv = hash_key@;
        let ghost mut pgs: Seq<PageModel<K, V>> = Seq::empty();
        proof {
            lemma_subrange_chain(bytes@, start as int, q1 as int, q2 as int);
            assert(bytes@.subrange(start as int, q2 as int) =~= H::enc_of(hv)
                + spec_u64_to_le_bytes(npages64));
            assert(enc_pages_from::<K, V>(pgs, 0) =~= Seq::<u8>::empty());
            assert(bytes@.subrange(start as int, q2 as int) + Seq::<u8>::empty()
                =~= bytes@.subrange(start as int, q2 as int));
            lemma_open_part::<H, K, V>(dm, hv);
            assert(snap_count::<H, K, V>(dm.push((hv, pgs))) == snap_count::<H, K, V>(dm)) by {
                assert(dm.push((hv, pgs)).drop_last() =~= dm);
            }
            assert(self.matches_snapshot(dm.push((hv, pgs))));
            assert forall|ptm: PartModel<H, K, V>|
                partm_wf::<H, K, V>(ptm) && #[trigger] enc_at(
                    bytes@,
                    start as int,
                    enc_partm::<H, K, V>(ptm),
                ) implies pgs == ptm.1.take(0) by {
                assert(pgs =~= ptm.1.take(0));
            }
        }
        let mut j: usize = 0;
        while j < npages
            invariant
                0 <= j <= npages,
                pgs.len() == j as int,
                start <= *pos <= bytes@.len(),
                self.wf(),
                self.spec_max_page_size() == old(self).spec_max_page_size(),
                bytes@.subrange(start as int, *pos as int) == H::enc_of(hv)
                    + spec_u64_to_le_bytes(npages64) + enc_pages_from::<K, V>(pgs, 0),
                forall|q: int| 0 <= q < pgs.len() ==> pagem_wf::<K, V>(#[trigger] pgs[q]),
                H::enc_wf(hv),
                self.matches_snapshot(dm.push((hv, pgs))),
                self.spec_total() <= old(self).spec_total() + pages_count::<K, V>(pgs),
                forall|ptm: PartModel<H, K, V>|
                    partm_wf::<H, K, V>(ptm) && #[trigger] enc_at(
                        bytes@,
                        start as int,
                        enc_partm::<H, K, V>(ptm),
                    ) ==> j as int <= ptm.1.len() && pgs == ptm.1.take(j as int) && enc_at(
                        bytes@,
                        *pos as int,
                        enc_pages_from::<K, V>(ptm.1, j as int),
                    ),
            decreases npages - j,
        {
            let ghost qa = *pos;
            let ghost pre_total = self.spec_total();
            proof {
                assert forall|ptm: PartModel<H, K, V>|
                    partm_wf::<H, K, V>(ptm) && #[trigger] enc_at(
                        bytes@,
                        start as int,
                        enc_partm::<H, K, V>(ptm),
                    ) implies enc_at(bytes@, qa as int, enc_pagem::<K, V>(ptm.1[j as int]))
                    && enc_at(
                    bytes@,
                    qa + enc_pagem::<K, V>(ptm.1[j as int]).len(),
                    enc_pages_from::<K, V>(ptm.1, j as int + 1),
                ) && pre_total + ptm.1[j as int].2.len() <= old(self).spec_total()
                    + pages_count::<K, V>(ptm.1) by {
                    assert(j < ptm.1.len());
                    assert(enc_pages_from::<K, V>(ptm.1, j as int) =~= enc_pagem::<K, V>(
                        ptm.1[j as int],
                    ) + enc_pages_from::<K, V>(ptm.1, j as int + 1));
                    lemma_enc_at_split(
                        bytes@,
                        qa as int,
                        enc_pagem::<K, V>(ptm.1[j as int]),
                        enc_pages_from::<K, V>(ptm.1, j as int + 1),
                    );
                    lemma_pages_count_take::<K, V>(ptm.1, j as int);
                }
            }
            let pm = match self.load_page(bytes, pos, &hash_key, Ghost(dm), Ghost(pgs)) {
                Ok(pm) => pm,
                Err(e) => {
                    return Err(e);
                }
            };
            proof {
                assert forall|ptm: PartModel<H, K, V>|
                    partm_wf::<H, K, V>(ptm) && #[trigger] enc_at(
                        bytes@,
                        start as int,
                        enc_partm::<H, K, V>(ptm),
                    ) implies pm@ == ptm.1[j as int] && *pos == qa + enc_pagem::<K, V>(
                    ptm.1[j as int],
                ).len() && enc_at(bytes@, *pos as int, enc_pages_from::<K, V>(
                    ptm.1,
                    j as int + 1,
                )) && pgs.push(pm@) == ptm.1.take(j as int + 1) by {
                    let e1 = enc_pagem::<K, V>(pm@);
                    let e2 = enc_pagem::<K, V>(ptm.1[j as int]);
                    assert(bytes@.skip(qa as int) =~= e1 + bytes@.skip(*pos as int)) by {
                        assert(bytes@.subrange(qa as int, *pos as int) == e1);
                    }
                    assert(bytes@.skip(qa as int) =~= e2 + bytes@.skip(qa + e2.len())) by {
                        assert(bytes@.subrange(qa as int, qa + e2.len()) == e2);
                    }
                    lemma_pagem_prefix_inj::<K, V>(
                        pm@,
                        ptm.1[j as int],
                        bytes@.skip(*pos as int),
                        bytes@.skip(qa + e2.len()),
                    );
                    assert(pgs.push(pm@) =~= ptm.1.take(j as int + 1));
                }
                lemma_subrange_chain(bytes@, start as int, qa as int, *pos as int);
                lemma_enc_pages_push::<K, V>(pgs, pm@, 0);
                assert(bytes@.subrange(start as int, *pos as int) =~= H::enc_of(hv)
                    + spec_u64_to_le_bytes(npages64) + enc_pages_from::<K, V>(pgs.push(pm@), 0));
                assert(pgs.push(pm@).drop_last() =~= pgs);
                assert(pages_count::<K, V>(pgs.push(pm@)) == pages_count::<K, V>(pgs)
                    + pm@.2.len());
                pgs = pgs.push(pm@);
            }
            j += 1;
        }
        proof {
            assert(pgs.len() as u64 == npages64);
            assert(enc_partm::<H, K, V>((hv, pgs)) =~= bytes@.subrange(start as int, *pos as int));
            assert(partm_wf::<H, K, V>((hv, pgs)));
        }
        Ok(Ghost((hv, pgs)))
    }

    /// Clears the engine and rebuilds it from a snapshot stream, reattaching
    /// the current configuration. A successful load leaves the engine
    /// holding exactly the bindings of a snapshot model that the leading
    /// bytes encode. On a rejected stream the engine may be left partially
    /// loaded; callers should treat a failed load as engine loss.
    #[verifier::loop_isolation(false)]
    pub fn load_bytes(&mut self, bytes: &Vec<u8>) -> (r: Result<(), DatabaseError>)
        requires
            old(self).wf(),
        ensures
            final(self).wf(),
            final(self).spec_max_page_size() == old(self).spec_max_page_size(),
            r is Err ==> r.unwrap_err() is SerializeError,
            r is Ok ==> exists|dm: SnapModel<H, K, V>|
                {
                    &&& #[trigger] snapm_wf::<H, K, V>(dm)
                    &&& enc_at(bytes@, 0, enc_snapshot::<H, K, V>(dm))
                    &&& final(self).matches_snapshot(dm)
                },
            forall|dm: SnapModel<H, K, V>|
                snapm_wf::<H, K, V>(dm) && #[trigger] enc_at(
                    bytes@,
                    0,
                    enc_snapshot::<H, K, V>(dm),
                ) && snap_count::<H, K, V>(dm) <= usize::MAX ==> r is Ok,
    {
        self.map = Vec::new();
        self.total = 0;
        proof {
            assert(count_of(self.spec_map()) == 0);
            assert(self.wf());
            assert(self.matches_snapshot(Seq::empty())) by {
                assert(forall|h: H::V, k: K::V| !#[trigger] self.has(h, k));
                assert(forall|h: H::V, k: K::V|
                    !#[trigger] snap_has::<H, K, V>(Seq::empty(), h, k));
            }
        }
        let mut pos: usize = 0;
        let nparts64 = match <u64 as Codec>::decode(bytes, &mut pos) {
            Some(x) => x,
            None => {
                proof {
                    assert forall|dm0: SnapModel<H, K, V>|
                        snapm_wf::<H, K, V>(dm0) && #[trigger] enc_at(
                            bytes@,
                            0,
                            enc_snapshot::<H, K, V>(dm0),
                        ) implies false by {
                        lemma_enc_at_split(
                            bytes@,
                            0,
                            spec_u64_to_le_bytes(dm0.len() as u64),
                            enc_parts_from::<H, K, V>(dm0, 0),
                        );
                        assert(enc_at(bytes@, 0, <u64 as Codec>::enc_of(dm0.len() as u64)));
                    }
                }
                return Err(DatabaseError::serialize_error("snapshot stream ends early".to_owned()));
            }
        };
        let ghost q1 = pos;
        proof {
            assert forall|dm0: SnapModel<H, K, V>|
                snapm_wf::<H, K, V>(dm0) && #[trigger] enc_at(
                    bytes@,
                    0,
                    enc_snapshot::<H, K, V>(dm0),
                ) implies nparts64 == dm0.len() as u64 && q1 == 8 && enc_at(
                bytes@,
                q1 as int,
                enc_parts_from::<H, K, V>(dm0, 0),
            ) by {
                lemma_enc_at_split(
                    bytes@,
                    0,
                    spec_u64_to_le_bytes(dm0.len() as u64),
                    enc_parts_from::<H, K, V>(dm0, 0),
                );
                assert(enc_at(bytes@, 0, <u64 as Codec>::enc_of(dm0.len() as u64)));
                vstd::bytes::lemma_auto_spec_u64_to_from_le_bytes();
            }
        }
        if nparts64 > usize::MAX as u64 {
            proof {
                assert forall|dm0: SnapModel<H, K, V>|
                    snapm_wf::<H, K, V>(dm0) && #[trigger] enc_at(
                        bytes@,
                        0,
                        enc_snapshot::<H, K, V>(dm0),
                    ) implies false by {
                    assert(dm0.len() <= usize::MAX);
                }
            }
            return Err(DatabaseError::serialize_error("partition count does not fit".to_owned()));
        }
        let nparts = nparts64 as usize;
        let ghost mut dm: SnapModel<H, K, V> = Seq::empty();
        proof {
            assert(enc_parts_from::<H, K, V>(dm, 0) =~= Seq::<u8>::empty());
            assert(bytes@.subrange(0, q1 as int) + Seq::<u8>::empty() =~= bytes@.subrange(
                0,
                q1 as int,
            ));
            assert forall|dm0: SnapModel<H, K, V>|
                snapm_wf::<H, K, V>(dm0) && #[trigger] enc_at(
                    bytes@,
                    0,
                    enc_snapshot::<H, K, V>(dm0),
                ) implies dm == dm0.take(0) by {
                assert(dm =~= dm0.take(0));
            }
        }
        let mut i: usize = 0;
        while i < nparts
            invariant
                0 <= i <= nparts,
                dm.len() == i as int,
                pos <= bytes@.len(),
                self.wf(),
                self.spec_max_page_size() == old(self).spec_max_page_size(),
                bytes@.subrange(0, pos as int) == spec_u64_to_le_bytes(nparts64)
                    + enc_parts_from::<H, K, V>(dm, 0),
                forall|q: int| 0 <= q < dm.len() ==> partm_wf::<H, K, V>(#[trigger] dm[q]),
                self.matches_snapshot(dm),
                self.spec_total() <= snap_count::<H, K, V>(dm),
                forall|dm0: SnapModel<H, K, V>|
                    snapm_wf::<H, K, V>(dm0) && #[trigger] enc_at(
                        bytes@,
                        0,
                        enc_snapshot::<H, K, V>(dm0),
                    ) ==> i as int <= dm0.len() && dm == dm0.take(i as int) && enc_at(
                        bytes@,
                        pos as int,
                        enc_parts_from::<H, K, V>(dm0, i as int),
                    ),
            decreases nparts - i,
        {
            let ghost qa = pos;
            let ghost pre_total = self.spec_total();
            proof {
                assert forall|dm0: SnapModel<H, K, V>|
                    snapm_wf::<H, K, V>(dm0) && #[trigger] enc_at(
                        bytes@,
                        0,
                        enc_snapshot::<H, K, V>(dm0),
                    ) implies enc_at(bytes@, qa as int, enc_partm::<H, K, V>(dm0[i as int]))
                    && enc_at(
                    bytes@,
                    qa + enc_partm::<H, K, V>(dm0[i as int]).len(),
                    enc_parts_from::<H, K, V>(dm0, i as int + 1),
                ) && (snap_count::<H, K, V>(dm0) <= usize::MAX ==> pre_total + pages_count::<
                    K,
                    V,
                >(dm0[i as int].1) <= usize::MAX) by {
                    assert(i < dm0.len());
                    assert(enc_parts_from::<H, K, V>(dm0, i as int) =~= enc_partm::<H, K, V>(
                        dm0[i as int],
                    ) + enc_parts_from::<H, K, V>(dm0, i as int + 1));
                    lemma_enc_at_split(
                        bytes@,
                        qa as int,
                        enc_partm::<H, K, V>(dm0[i as int]),
                        enc_parts_from::<H, K, V>(dm0, i as int + 1),
                    );
                    lemma_snap_count_take::<H, K, V>(dm0, i as int);
                }
            }
            let ptm = match self.load_partition(bytes, &mut pos, Ghost(dm)) {
                Ok(ptm) => ptm,
                Err(e) => {
                    proof {
                        assert forall|dm0: SnapModel<H, K, V>|
                            snapm_wf::<H, K, V>(dm0) && #[trigger] enc_at(
                                bytes@,
                                0,
                                enc_snapshot::<H, K, V>(dm0),
                            ) && snap_count::<H, K, V>(dm0) <= usize::MAX implies false by {
                        }
                    }
                    return Err(e);
                }
            };
            proof {
                assert forall|dm0: SnapModel<H, K, V>|
                    snapm_wf::<H, K, V>(dm0) && #[trigger] enc_at(
                        bytes@,
                        0,
                        enc_snapshot::<H, K, V>(dm0),
                    ) implies ptm@ == dm0[i as int] && pos == qa + enc_partm::<H, K, V>(
                    dm0[i as int],
                ).len() && enc_at(bytes@, pos as int, enc_parts_from::<H, K, V>(
                    dm0,
                    i as int + 1,
                )) && dm.push(ptm@) == dm0.take(i as int + 1) by {
                    let e1 = enc_partm::<H, K, V>(ptm@);
                    let e2 = enc_partm::<H, K, V>(dm0[i as int]);
                    assert(bytes@.skip(qa as int) =~= e1 + bytes@.skip(pos as int)) by {
                        assert(bytes@.subrange(qa as int, pos as int) == e1);
                    }
                    assert(bytes@.skip(qa as int) =~= e2 + bytes@.skip(qa + e2.len())) by {
                        assert(bytes@.subrange(qa as int, qa + e2.len()) == e2);
                    }
                    lemma_partm_prefix_inj::<H, K, V>(
                        ptm@,
                        dm0[i as int],
                        bytes@.skip(pos as int),
                        bytes@.skip(qa + e2.len()),
                    );
                    assert(dm.push(ptm@) =~= dm0.take(i as int + 1));
                }
                lemma_subrange_chain(bytes@, 0, qa as int, pos as int);
                lemma_enc_parts_push::<H, K, V>(dm, ptm@, 0);
                assert(bytes@.subrange(0, pos as int) =~= spec_u64_to_le_bytes(nparts64)
                    + enc_parts_from::<H, K, V>(dm.push(ptm@), 0));
                assert(dm.push(ptm@).drop_last() =~= dm);
                assert(snap_count::<H, K, V>(dm.push(ptm@)) == snap_count::<H, K, V>(dm)
                    + pages_count::<K, V>(ptm@.1));
                dm = dm.push(ptm@);
            }
            i += 1;
        }
        proof {
            assert(dm.len() as u64 == nparts64);
            assert(snapm_wf::<H, K, V>(dm));
            assert(enc_snapshot::<H, K, V>(dm) == bytes@.subrange(0, pos as int));
            assert(enc_at(bytes@, 0, enc_snapshot::<H, K, V>(dm))) by {
                assert(bytes@.subrange(0, enc_snapshot::<H, K, V>(dm).len() as int)
                    == enc_snapshot::<H, K, V>(dm));
            }
        }
        Ok(())
    }
}

} // verus!
