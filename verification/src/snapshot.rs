//! The snapshot format, at the spec level: a length-prefixed map — a 64-bit
//! partition count, then each partition as its key, a 64-bit page count, and
//! each page as its envelope bounds, a 64-bit entry count and the entries.
//!
//! A snapshot model is the nested mathematical shape of that stream; this
//! module defines its encoding, its flattening to key/value triples, and the
//! lemmas that make the encoding invertible: no two well-formed models share
//! a stream prefix.

use vstd::bytes::lemma_auto_spec_u64_to_from_le_bytes;
use vstd::bytes::spec_u64_to_le_bytes;
use vstd::prelude::*;

use crate::codec::enc_at;
use crate::codec::lemma_concat_split;
use crate::codec::Codec;
use crate::keys::StoreKey;

verus! {

/// One page in a snapshot: envelope start, envelope end, entries.
pub type PageModel<K, V> = (<K as View>::V, <K as View>::V, Seq<(<K as View>::V, <V as View>::V)>);

/// One partition in a snapshot: its key and its pages.
pub type PartModel<H, K, V> = (<H as View>::V, Seq<PageModel<K, V>>);

/// A whole snapshot: the partitions in stream order.
pub type SnapModel<H, K, V> = Seq<PartModel<H, K, V>>;

/// The entries of a page are representable and countable.
pub open spec fn entries_wf<K: StoreKey + Codec, V: Codec>(
    es: Seq<(K::V, V::V)>,
) -> bool {
    &&& es.len() <= usize::MAX
    &&& forall|l: int|
        0 <= l < es.len() ==> K::enc_wf((#[trigger] es[l]).0) && V::enc_wf(es[l].1)
}

/// A page model is representable.
pub open spec fn pagem_wf<K: StoreKey + Codec, V: Codec>(p: PageModel<K, V>) -> bool {
    &&& K::enc_wf(p.0)
    &&& K::enc_wf(p.1)
    &&& entries_wf::<K, V>(p.2)
}

/// A partition model is representable.
pub open spec fn partm_wf<H: StoreKey + Codec, K: StoreKey + Codec, V: Codec>(
    pt: PartModel<H, K, V>,
) -> bool {
    &&& H::enc_wf(pt.0)
    &&& pt.1.len() <= usize::MAX
    &&& forall|j: int| 0 <= j < pt.1.len() ==> pagem_wf::<K, V>(#[trigger] pt.1[j])
}

/// A snapshot model is representable.
pub open spec fn snapm_wf<H: StoreKey + Codec, K: StoreKey + Codec, V: Codec>(
    m: SnapModel<H, K, V>,
) -> bool {
    &&& m.len() <= usize::MAX
    &&& forall|i: int| 0 <= i < m.len() ==> partm_wf::<H, K, V>(#[trigger] m[i])
}

/// The encoding of one entry: key then value.
pub open spec fn enc_entry<K: StoreKey + Codec, V: Codec>(e: (K::V, V::V)) -> Seq<u8> {
    K::enc_of(e.0) + V::enc_of(e.1)
}

/// The encoding of the entries from position `l` on.
pub open spec fn enc_ents_from<K: StoreKey + Codec, V: Codec>(
    es: Seq<(K::V, V::V)>,
    l: int,
) -> Seq<u8>
    decreases es.len() - l,
{
    if l < 0 || l >= es.len() {
        Seq::empty()
    } else {
        enc_entry::<K, V>(es[l]) + enc_ents_from::<K, V>(es, l + 1)
    }
}

/// The encoding of one page: both envelope bounds, the entry count, the
/// entries.
pub open spec fn enc_pagem<K: StoreKey + Codec, V: Codec>(p: PageModel<K, V>) -> Seq<u8> {
    K::enc_of(p.0) + K::enc_of(p.1) + spec_u64_to_le_bytes(p.2.len() as u64) + enc_ents_from::<
        K,
        V,
    >(p.2, 0)
}

/// The encoding of the pages from position `j` on.
pub open spec fn enc_pages_from<K: StoreKey + Codec, V: Codec>(
    ps: Seq<PageModel<K, V>>,
    j: int,
) -> Seq<u8>
    decreases ps.len() - j,
{
    if j < 0 || j >= ps.len() {
        Seq::empty()
    } else {
        enc_pagem::<K, V>(ps[j]) + enc_pages_from::<K, V>(ps, j + 1)
    }
}

/// The encoding of one partition: its key, the page count, the pages.
pub open spec fn enc_partm<H: StoreKey + Codec, K: StoreKey + Codec, V: Codec>(
    pt: PartModel<H, K, V>,
) -> Seq<u8> {
    H::enc_of(pt.0) + spec_u64_to_le_bytes(pt.1.len() as u64) + enc_pages_from::<K, V>(pt.1, 0)
}

/// The encoding of the partitions from position `i` on.
pub open spec fn enc_parts_from<H: StoreKey + Codec, K: StoreKey + Codec, V: Codec>(
    m: SnapModel<H, K, V>,
    i: int,
) -> Seq<u8>
    decreases m.len() - i,
{
    if i < 0 || i >= m.len() {
        Seq::empty()
    } else {
        enc_partm::<H, K, V>(m[i]) + enc_parts_from::<H, K, V>(m, i + 1)
    }
}

/// The encoding of a whole snapshot: the partition count, the partitions.
pub open spec fn enc_snapshot<H: StoreKey + Codec, K: StoreKey + Codec, V: Codec>(
    m: SnapModel<H, K, V>,
) -> Seq<u8> {
    spec_u64_to_le_bytes(m.len() as u64) + enc_parts_from::<H, K, V>(m, 0)
}

/// Appending an entry extends the entry-sequence encoding at the end.
pub proof fn lemma_enc_ents_push<K: StoreKey + Codec, V: Codec>(
    es: Seq<(K::V, V::V)>,
    e: (K::V, V::V),
    l: int,
)
    requires
        0 <= l <= es.len(),
    ensures
        enc_ents_from::<K, V>(es.push(e), l) == enc_ents_from::<K, V>(es, l) + enc_entry::<K, V>(
            e,
        ),
    decreases es.len() - l,
{
    let t = es.push(e);
    if l == es.len() {
        assert(t[l] == e);
        assert(enc_ents_from::<K, V>(t, l + 1) =~= Seq::<u8>::empty());
        assert(enc_entry::<K, V>(e) + Seq::<u8>::empty() =~= enc_entry::<K, V>(e));
        assert(Seq::<u8>::empty() + enc_entry::<K, V>(e) =~= enc_entry::<K, V>(e));
    } else {
        assert(t[l] == es[l]);
        lemma_enc_ents_push::<K, V>(es, e, l + 1);
        assert((enc_entry::<K, V>(es[l]) + enc_ents_from::<K, V>(es, l + 1)) + enc_entry::<K, V>(e)
            =~= enc_entry::<K, V>(es[l]) + (enc_ents_from::<K, V>(es, l + 1) + enc_entry::<K, V>(
            e,
        )));
    }
}

/// Appending a page extends the page-sequence encoding at the end.
pub proof fn lemma_enc_pages_push<K: StoreKey + Codec, V: Codec>(
    ps: Seq<PageModel<K, V>>,
    p: PageModel<K, V>,
    j: int,
)
    requires
        0 <= j <= ps.len(),
    ensures
        enc_pages_from::<K, V>(ps.push(p), j) == enc_pages_from::<K, V>(ps, j) + enc_pagem::<K, V>(
            p,
        ),
    decreases ps.len() - j,
{
    let t = ps.push(p);
    if j == ps.len() {
        assert(t[j] == p);
        assert(enc_pages_from::<K, V>(t, j + 1) =~= Seq::<u8>::empty());
        assert(enc_pagem::<K, V>(p) + Seq::<u8>::empty() =~= enc_pagem::<K, V>(p));
        assert(Seq::<u8>::empty() + enc_pagem::<K, V>(p) =~= enc_pagem::<K, V>(p));
    } else {
        assert(t[j] == ps[j]);
        lemma_enc_pages_push::<K, V>(ps, p, j + 1);
        assert((enc_pagem::<K, V>(ps[j]) + enc_pages_from::<K, V>(ps, j + 1)) + enc_pagem::<K, V>(
            p,
        ) =~= enc_pagem::<K, V>(ps[j]) + (enc_pages_from::<K, V>(ps, j + 1) + enc_pagem::<K, V>(
            p,
        )));
    }
}

/// Appending a partition extends the partition-sequence encoding at the end.
pub proof fn lemma_enc_parts_push<H: StoreKey + Codec, K: StoreKey + Codec, V: Codec>(
    m: SnapModel<H, K, V>,
    pt: PartModel<H, K, V>,
    i: int,
)
    requires
        0 <= i <= m.len(),
    ensures
        enc_parts_from::<H, K, V>(m.push(pt), i) == enc_parts_from::<H, K, V>(m, i) + enc_partm::<
            H,
            K,
            V,
        >(pt),
    decreases m.len() - i,
{
    let t = m.push(pt);
    if i == m.len() {
        assert(t[i] == pt);
        assert(enc_parts_from::<H, K, V>(t, i + 1) =~= Seq::<u8>::empty());
        assert(enc_partm::<H, K, V>(pt) + Seq::<u8>::empty() =~= enc_partm::<H, K, V>(pt));
        assert(Seq::<u8>::empty() + enc_partm::<H, K, V>(pt) =~= enc_partm::<H, K, V>(pt));
    } else {
        assert(t[i] == m[i]);
        lemma_enc_parts_push::<H, K, V>(m, pt, i + 1);
        assert((enc_partm::<H, K, V>(m[i]) + enc_parts_from::<H, K, V>(m, i + 1)) + enc_partm::<
            H,
            K,
            V,
        >(pt) =~= enc_partm::<H, K, V>(m[i]) + (enc_parts_from::<H, K, V>(m, i + 1) + enc_partm::<
            H,
            K,
            V,
        >(pt)));
    }
}

/// Equal streams headed by equal-length entry lists carry equal lists.
pub proof fn lemma_ents_prefix_inj<K: StoreKey + Codec, V: Codec>(
    es1: Seq<(K::V, V::V)>,
    es2: Seq<(K::V, V::V)>,
    r1: Seq<u8>,
    r2: Seq<u8>,
    l: int,
)
    requires
        entries_wf::<K, V>(es1),
        entries_wf::<K, V>(es2),
        es1.len() == es2.len(),
        0 <= l <= es1.len(),
        enc_ents_from::<K, V>(es1, l) + r1 == enc_ents_from::<K, V>(es2, l) + r2,
    ensures
        es1.skip(l) == es2.skip(l),
        r1 == r2,
    decreases es1.len() - l,
{
    if l == es1.len() {
        assert(Seq::<u8>::empty() + r1 =~= r1);
        assert(Seq::<u8>::empty() + r2 =~= r2);
        assert(es1.skip(l) =~= es2.skip(l));
    } else {
        let a1 = K::enc_of(es1[l].0);
        let b1 = V::enc_of(es1[l].1);
        let c1 = enc_ents_from::<K, V>(es1, l + 1);
        let a2 = K::enc_of(es2[l].0);
        let b2 = V::enc_of(es2[l].1);
        let c2 = enc_ents_from::<K, V>(es2, l + 1);
        assert(((a1 + b1) + c1) + r1 =~= a1 + (b1 + (c1 + r1)));
        assert(((a2 + b2) + c2) + r2 =~= a2 + (b2 + (c2 + r2)));
        K::enc_prefix_free(es1[l].0, es2[l].0, b1 + (c1 + r1), b2 + (c2 + r2));
        V::enc_prefix_free(es1[l].1, es2[l].1, c1 + r1, c2 + r2);
        lemma_ents_prefix_inj::<K, V>(es1, es2, r1, r2, l + 1);
        assert(es1.skip(l) =~= es2.skip(l)) by {
            assert(forall|q: int|
                0 <= q < es1.len() - l - 1 ==> #[trigger] es1.skip(l + 1)[q] == es2.skip(l + 1)[
                    q
                ]);
            assert(forall|q: int|
                1 <= q < es1.len() - l ==> #[trigger] es1.skip(l)[q] == es1.skip(l + 1)[q - 1]
                    && es2.skip(l)[q] == es2.skip(l + 1)[q - 1]);
        }
    }
}

/// Equal streams headed by page encodings carry equal pages.
pub proof fn lemma_pagem_prefix_inj<K: StoreKey + Codec, V: Codec>(
    p1: PageModel<K, V>,
    p2: PageModel<K, V>,
    r1: Seq<u8>,
    r2: Seq<u8>,
)
    requires
        pagem_wf::<K, V>(p1),
        pagem_wf::<K, V>(p2),
        enc_pagem::<K, V>(p1) + r1 == enc_pagem::<K, V>(p2) + r2,
    ensures
        p1 == p2,
        r1 == r2,
{
    lemma_auto_spec_u64_to_from_le_bytes();
    let s1 = K::enc_of(p1.0);
    let e1 = K::enc_of(p1.1);
    let n1 = spec_u64_to_le_bytes(p1.2.len() as u64);
    let t1 = enc_ents_from::<K, V>(p1.2, 0);
    let s2 = K::enc_of(p2.0);
    let e2 = K::enc_of(p2.1);
    let n2 = spec_u64_to_le_bytes(p2.2.len() as u64);
    let t2 = enc_ents_from::<K, V>(p2.2, 0);
    assert((s1 + e1 + n1 + t1) + r1 =~= s1 + (e1 + (n1 + (t1 + r1))));
    assert((s2 + e2 + n2 + t2) + r2 =~= s2 + (e2 + (n2 + (t2 + r2))));
    K::enc_prefix_free(p1.0, p2.0, e1 + (n1 + (t1 + r1)), e2 + (n2 + (t2 + r2)));
    K::enc_prefix_free(p1.1, p2.1, n1 + (t1 + r1), n2 + (t2 + r2));
    lemma_concat_split(n1, t1 + r1, n2, t2 + r2);
    assert(p1.2.len() as u64 == p2.2.len() as u64);
    assert(p1.2.len() == p2.2.len());
    lemma_ents_prefix_inj::<K, V>(p1.2, p2.2, r1, r2, 0);
    assert(p1.2.skip(0) =~= p1.2);
    assert(p2.2.skip(0) =~= p2.2);
}

/// Equal streams headed by equal-length page lists carry equal lists.
pub proof fn lemma_pages_prefix_inj<K: StoreKey + Codec, V: Codec>(
    ps1: Seq<PageModel<K, V>>,
    ps2: Seq<PageModel<K, V>>,
    r1: Seq<u8>,
    r2: Seq<u8>,
    j: int,
)
    requires
        forall|q: int| 0 <= q < ps1.len() ==> pagem_wf::<K, V>(#[trigger] ps1[q]),
        forall|q: int| 0 <= q < ps2.len() ==> pagem_wf::<K, V>(#[trigger] ps2[q]),
        ps1.len() == ps2.len(),
        0 <= j <= ps1.len(),
        enc_pages_from::<K, V>(ps1, j) + r1 == enc_pages_from::<K, V>(ps2, j) + r2,
    ensures
        ps1.skip(j) == ps2.skip(j),
        r1 == r2,
    decreases ps1.len() - j,
{
    if j == ps1.len() {
        assert(Seq::<u8>::empty() + r1 =~= r1);
        assert(Seq::<u8>::empty() + r2 =~= r2);
        assert(ps1.skip(j) =~= ps2.skip(j));
    } else {
        let a1 = enc_pagem::<K, V>(ps1[j]);
        let c1 = enc_pages_from::<K, V>(ps1, j + 1);
        let a2 = enc_pagem::<K, V>(ps2[j]);
        let c2 = enc_pages_from::<K, V>(ps2, j + 1);
        assert((a1 + c1) + r1 =~= a1 + (c1 + r1));
        assert((a2 + c2) + r2 =~= a2 + (c2 + r2));
        lemma_pagem_prefix_inj::<K, V>(ps1[j], ps2[j], c1 + r1, c2 + r2);
        lemma_pages_prefix_inj::<K, V>(ps1, ps2, r1, r2, j + 1);
        assert(ps1.skip(j) =~= ps2.skip(j)) by {
            assert(forall|q: int|
                0 <= q < ps1.len() - j - 1 ==> #[trigger] ps1.skip(j + 1)[q] == ps2.skip(j + 1)[
                    q
                ]);
            assert(forall|q: int|
                1 <= q < ps1.len() - j ==> #[trigger] ps1.skip(j)[q] == ps1.skip(j + 1)[q - 1]
                    && ps2.skip(j)[q] == ps2.skip(j + 1)[q - 1]);
        }
    }
}

/// Equal streams headed by partition encodings carry equal partitions.
pub proof fn lemma_partm_prefix_inj<H: StoreKey + Codec, K: StoreKey + Codec, V: Codec>(
    pt1: PartModel<H, K, V>,
    pt2: PartModel<H, K, V>,
    r1: Seq<u8>,
    r2: Seq<u8>,
)
    requires
        partm_wf::<H, K, V>(pt1),
        partm_wf::<H, K, V>(pt2),
        enc_partm::<H, K, V>(pt1) + r1 == enc_partm::<H, K, V>(pt2) + r2,
    ensures
        pt1 == pt2,
        r1 == r2,
{
    lemma_auto_spec_u64_to_from_le_bytes();
    let h1 = H::enc_of(pt1.0);
    let n1 = spec_u64_to_le_bytes(pt1.1.len() as u64);
    let t1 = enc_pages_from::<K, V>(pt1.1, 0);
    let h2 = H::enc_of(pt2.0);
    let n2 = spec_u64_to_le_bytes(pt2.1.len() as u64);
    let t2 = enc_pages_from::<K, V>(pt2.1, 0);
    assert((h1 + n1 + t1) + r1 =~= h1 + (n1 + (t1 + r1)));
    assert((h2 + n2 + t2) + r2 =~= h2 + (n2 + (t2 + r2)));
    H::enc_prefix_free(pt1.0, pt2.0, n1 + (t1 + r1), n2 + (t2 + r2));
    lemma_concat_split(n1, t1 + r1, n2, t2 + r2);
    assert(pt1.1.len() as u64 == pt2.1.len() as u64);
    assert(pt1.1.len() == pt2.1.len());
    lemma_pages_prefix_inj::<K, V>(pt1.1, pt2.1, r1, r2, 0);
    assert(pt1.1.skip(0) =~= pt1.1);
    assert(pt2.1.skip(0) =~= pt2.1);
}

/// Equal streams headed by equal-length partition lists carry equal lists.
pub proof fn lemma_parts_prefix_inj<H: StoreKey + Codec, K: StoreKey + Codec, V: Codec>(
    m1: SnapModel<H, K, V>,
    m2: SnapModel<H, K, V>,
    r1: Seq<u8>,
    r2: Seq<u8>,
    i: int,
)
    requires
        forall|q: int| 0 <= q < m1.len() ==> partm_wf::<H, K, V>(#[trigger] m1[q]),
        forall|q: int| 0 <= q < m2.len() ==> partm_wf::<H, K, V>(#[trigger] m2[q]),
        m1.len() == m2.len(),
        0 <= i <= m1.len(),
        enc_parts_from::<H, K, V>(m1, i) + r1 == enc_parts_from::<H, K, V>(m2, i) + r2,
    ensures
        m1.skip(i) == m2.skip(i),
        r1 == r2,
    decreases m1.len() - i,
{
    if i == m1.len() {
        assert(Seq::<u8>::empty() + r1 =~= r1);
        assert(Seq::<u8>::empty() + r2 =~= r2);
        assert(m1.skip(i) =~= m2.skip(i));
    } else {
        let a1 = enc_partm::<H, K, V>(m1[i]);
        let c1 = enc_parts_from::<H, K, V>(m1, i + 1);
        let a2 = enc_partm::<H, K, V>(m2[i]);
        let c2 = enc_parts_from::<H, K, V>(m2, i + 1);
        assert((a1 + c1) + r1 =~= a1 + (c1 + r1));
        assert((a2 + c2) + r2 =~= a2 + (c2 + r2));
        lemma_partm_prefix_inj::<H, K, V>(m1[i], m2[i], c1 + r1, c2 + r2);
        lemma_parts_prefix_inj::<H, K, V>(m1, m2, r1, r2, i + 1);
        assert(m1.skip(i) =~= m2.skip(i)) by {
            assert(forall|q: int|
                0 <= q < m1.len() - i - 1 ==> #[trigger] m1.skip(i + 1)[q] == m2.skip(i + 1)[
                    q
                ]);
            assert(forall|q: int|
                1 <= q < m1.len() - i ==> #[trigger] m1.skip(i)[q] == m1.skip(i + 1)[q - 1]
                    && m2.skip(i)[q] == m2.skip(i + 1)[q - 1]);
        }
    }
}

/// Two well-formed snapshot models that encode to the same stream prefix are
/// the same model: the snapshot codec loses nothing.
pub proof fn lemma_snapshot_prefix_inj<H: StoreKey + Codec, K: StoreKey + Codec, V: Codec>(
    m1: SnapModel<H, K, V>,
    m2: SnapModel<H, K, V>,
    r1: Seq<u8>,
    r2: Seq<u8>,
)
    requires
        snapm_wf::<H, K, V>(m1),
        snapm_wf::<H, K, V>(m2),
        enc_snapshot::<H, K, V>(m1) + r1 == enc_snapshot::<H, K, V>(m2) + r2,
    ensures
        m1 == m2,
        r1 == r2,
{
    lemma_auto_spec_u64_to_from_le_bytes();
    let n1 = spec_u64_to_le_bytes(m1.len() as u64);
    let t1 = enc_parts_from::<H, K, V>(m1, 0);
    let n2 = spec_u64_to_le_bytes(m2.len() as u64);
    let t2 = enc_parts_from::<H, K, V>(m2, 0);
    assert((n1 + t1) + r1 =~= n1 + (t1 + r1));
    assert((n2 + t2) + r2 =~= n2 + (t2 + r2));
    lemma_concat_split(n1, t1 + r1, n2, t2 + r2);
    assert(m1.len() as u64 == m2.len() as u64);
    assert(m1.len() == m2.len());
    lemma_parts_prefix_inj::<H, K, V>(m1, m2, r1, r2, 0);
    assert(m1.skip(0) =~= m1);
    assert(m2.skip(0) =~= m2);
}

/// Some entry of the list carries the key.
pub open spec fn ents_has<K: StoreKey + Codec, V: Codec>(es: Seq<(K::V, V::V)>, k: K::V) -> bool {
    exists|l: int| 0 <= l < es.len() && (#[trigger] es[l]).0 == k
}

/// The pair occurs in the entry list.
pub open spec fn ents_val_ok<K: StoreKey + Codec, V: Codec>(
    es: Seq<(K::V, V::V)>,
    k: K::V,
    v: V::V,
) -> bool {
    exists|l: int| 0 <= l < es.len() && #[trigger] es[l] == (k, v)
}

/// Some page of the list carries the key.
pub open spec fn pages_has<K: StoreKey + Codec, V: Codec>(
    ps: Seq<PageModel<K, V>>,
    k: K::V,
) -> bool {
    exists|j: int| 0 <= j < ps.len() && ents_has::<K, V>((#[trigger] ps[j]).2, k)
}

/// The pair occurs in some page of the list.
pub open spec fn pages_val_ok<K: StoreKey + Codec, V: Codec>(
    ps: Seq<PageModel<K, V>>,
    k: K::V,
    v: V::V,
) -> bool {
    exists|j: int| 0 <= j < ps.len() && ents_val_ok::<K, V>((#[trigger] ps[j]).2, k, v)
}

/// Some partition of the snapshot carries the pair of keys.
pub open spec fn snap_has<H: StoreKey + Codec, K: StoreKey + Codec, V: Codec>(
    m: SnapModel<H, K, V>,
    h: H::V,
    k: K::V,
) -> bool {
    exists|i: int|
        0 <= i < m.len() && (#[trigger] m[i]).0 == h && pages_has::<K, V>(m[i].1, k)
}

/// The binding occurs in the snapshot.
pub open spec fn snap_val_ok<H: StoreKey + Codec, K: StoreKey + Codec, V: Codec>(
    m: SnapModel<H, K, V>,
    h: H::V,
    k: K::V,
    v: V::V,
) -> bool {
    exists|i: int|
        0 <= i < m.len() && (#[trigger] m[i]).0 == h && pages_val_ok::<K, V>(m[i].1, k, v)
}

/// The number of entries across a page list.
pub open spec fn pages_count<K: StoreKey + Codec, V: Codec>(ps: Seq<PageModel<K, V>>) -> int
    decreases ps.len(),
{
    if ps.len() == 0 {
        0
    } else {
        pages_count::<K, V>(ps.drop_last()) + ps.last().2.len()
    }
}

/// The number of entries across a whole snapshot.
pub open spec fn snap_count<H: StoreKey + Codec, K: StoreKey + Codec, V: Codec>(
    m: SnapModel<H, K, V>,
) -> int
    decreases m.len(),
{
    if m.len() == 0 {
        0
    } else {
        snap_count::<H, K, V>(m.drop_last()) + pages_count::<K, V>(m.last().1)
    }
}

/// No pair of partition key and tree key occurs twice in the snapshot.
pub open spec fn snap_distinct<H: StoreKey + Codec, K: StoreKey + Codec, V: Codec>(
    m: SnapModel<H, K, V>,
) -> bool {
    forall|i1: int, j1: int, l1: int, i2: int, j2: int, l2: int|
        #![trigger m[i1].1[j1].2[l1], m[i2].1[j2].2[l2]]
        0 <= i1 < m.len() && 0 <= j1 < m[i1].1.len() && 0 <= l1 < m[i1].1[j1].2.len() && 0 <= i2
            < m.len() && 0 <= j2 < m[i2].1.len() && 0 <= l2 < m[i2].1[j2].2.len() && m[i1].0
            == m[i2].0 && m[i1].1[j1].2[l1].0 == m[i2].1[j2].2[l2].0 ==> i1 == i2 && j1 == j2 && l1
            == l2
}

/// The state a load is building: the completed partitions, then the open
/// partition with its completed pages, then the open page with its
/// completed entries.
pub open spec fn open_model<H: StoreKey + Codec, K: StoreKey + Codec, V: Codec>(
    dm: SnapModel<H, K, V>,
    hv: H::V,
    pgs: Seq<PageModel<K, V>>,
    sv: K::V,
    ev: K::V,
    es: Seq<(K::V, V::V)>,
) -> SnapModel<H, K, V> {
    dm.push((hv, pgs.push((sv, ev, es))))
}

/// Opening a fresh partition adds no binding and no entry.
pub proof fn lemma_open_part<H: StoreKey + Codec, K: StoreKey + Codec, V: Codec>(
    dm: SnapModel<H, K, V>,
    hv: H::V,
)
    ensures
        forall|h: H::V, k: K::V|
            #[trigger] snap_has::<H, K, V>(dm.push((hv, Seq::empty())), h, k) <==> snap_has::<
                H,
                K,
                V,
            >(dm, h, k),
        forall|h: H::V, k: K::V, v: V::V|
            #[trigger] snap_val_ok::<H, K, V>(dm.push((hv, Seq::empty())), h, k, v)
                <==> snap_val_ok::<H, K, V>(dm, h, k, v),
        snap_count::<H, K, V>(dm.push((hv, Seq::empty()))) == snap_count::<H, K, V>(dm),
        snap_distinct::<H, K, V>(dm.push((hv, Seq::empty()))) ==> snap_distinct::<H, K, V>(dm),
{
    let t = dm.push((hv, Seq::<PageModel<K, V>>::empty()));
    assert(t.drop_last() =~= dm);
    assert(pages_count::<K, V>(Seq::<PageModel<K, V>>::empty()) == 0);
    assert forall|h: H::V, k: K::V|
        #[trigger] snap_has::<H, K, V>(t, h, k) <==> snap_has::<H, K, V>(dm, h, k) by {
        if snap_has::<H, K, V>(t, h, k) {
            let i = choose|i: int|
                0 <= i < t.len() && (#[trigger] t[i]).0 == h && pages_has::<K, V>(t[i].1, k);
            if i < dm.len() {
                assert(dm[i] == t[i]);
                assert(snap_has::<H, K, V>(dm, h, k));
            } else {
                let j = choose|j: int|
                    0 <= j < t[i].1.len() && ents_has::<K, V>((#[trigger] t[i].1[j]).2, k);
                assert(false);
            }
        }
        if snap_has::<H, K, V>(dm, h, k) {
            let i = choose|i: int|
                0 <= i < dm.len() && (#[trigger] dm[i]).0 == h && pages_has::<K, V>(dm[i].1, k);
            assert(t[i] == dm[i]);
            assert(snap_has::<H, K, V>(t, h, k));
        }
    }
    assert forall|h: H::V, k: K::V, v: V::V|
        #[trigger] snap_val_ok::<H, K, V>(t, h, k, v) <==> snap_val_ok::<H, K, V>(
            dm,
            h,
            k,
            v,
        ) by {
        if snap_val_ok::<H, K, V>(t, h, k, v) {
            let i = choose|i: int|
                0 <= i < t.len() && (#[trigger] t[i]).0 == h && pages_val_ok::<K, V>(t[i].1, k, v);
            if i < dm.len() {
                assert(dm[i] == t[i]);
                assert(snap_val_ok::<H, K, V>(dm, h, k, v));
            } else {
                let j = choose|j: int|
                    0 <= j < t[i].1.len() && ents_val_ok::<K, V>((#[trigger] t[i].1[j]).2, k, v);
                assert(false);
            }
        }
        if snap_val_ok::<H, K, V>(dm, h, k, v) {
            let i = choose|i: int|
                0 <= i < dm.len() && (#[trigger] dm[i]).0 == h && pages_val_ok::<K, V>(
                    dm[i].1,
                    k,
                    v,
                );
            assert(t[i] == dm[i]);
            assert(snap_val_ok::<H, K, V>(t, h, k, v));
        }
    }
}

/// Opening a fresh page in the open partition adds no binding and no entry.
pub proof fn lemma_open_page<H: StoreKey + Codec, K: StoreKey + Codec, V: Codec>(
    dm: SnapModel<H, K, V>,
    hv: H::V,
    pgs: Seq<PageModel<K, V>>,
    sv: K::V,
    ev: K::V,
)
    ensures
        forall|h: H::V, k: K::V|
            #[trigger] snap_has::<H, K, V>(open_model::<H, K, V>(dm, hv, pgs, sv, ev, Seq::empty()), h, k)
                <==> snap_has::<H, K, V>(dm.push((hv, pgs)), h, k),
        forall|h: H::V, k: K::V, v: V::V|
            #[trigger] snap_val_ok::<H, K, V>(
                open_model::<H, K, V>(dm, hv, pgs, sv, ev, Seq::empty()),
                h,
                k,
                v,
            ) <==> snap_val_ok::<H, K, V>(dm.push((hv, pgs)), h, k, v),
        snap_count::<H, K, V>(open_model::<H, K, V>(dm, hv, pgs, sv, ev, Seq::empty())) == snap_count::<
            H,
            K,
            V,
        >(dm.push((hv, pgs))),
        snap_distinct::<H, K, V>(open_model::<H, K, V>(dm, hv, pgs, sv, ev, Seq::empty()))
            ==> snap_distinct::<H, K, V>(dm.push((hv, pgs))),
{
    let t = open_model::<H, K, V>(dm, hv, pgs, sv, ev, Seq::empty());
    let b = dm.push((hv, pgs));
    let n = dm.len() as int;
    let p = pgs.len() as int;
    assert(t.drop_last() =~= dm);
    assert(b.drop_last() =~= dm);
    assert(pages_count::<K, V>(pgs.push((sv, ev, Seq::empty()))) == pages_count::<K, V>(pgs))
        by {
        assert(pgs.push((sv, ev, Seq::<(K::V, V::V)>::empty())).drop_last() =~= pgs);
    }
    assert forall|h: H::V, k: K::V|
        #[trigger] snap_has::<H, K, V>(t, h, k) <==> snap_has::<H, K, V>(b, h, k) by {
        if snap_has::<H, K, V>(t, h, k) {
            let i = choose|i: int|
                0 <= i < t.len() && (#[trigger] t[i]).0 == h && pages_has::<K, V>(t[i].1, k);
            if i < n {
                assert(b[i] == t[i]);
                assert(snap_has::<H, K, V>(b, h, k));
            } else {
                let j = choose|j: int|
                    0 <= j < t[i].1.len() && ents_has::<K, V>((#[trigger] t[i].1[j]).2, k);
                if j < p {
                    assert(b[i].1[j] == t[i].1[j]);
                    assert(pages_has::<K, V>(b[i].1, k));
                    assert(snap_has::<H, K, V>(b, h, k));
                } else {
                    let l = choose|l: int|
                        0 <= l < t[i].1[j].2.len() && (#[trigger] t[i].1[j].2[l]).0 == k;
                    assert(false);
                }
            }
        }
        if snap_has::<H, K, V>(b, h, k) {
            let i = choose|i: int|
                0 <= i < b.len() && (#[trigger] b[i]).0 == h && pages_has::<K, V>(b[i].1, k);
            if i < n {
                assert(t[i] == b[i]);
                assert(snap_has::<H, K, V>(t, h, k));
            } else {
                let j = choose|j: int|
                    0 <= j < b[i].1.len() && ents_has::<K, V>((#[trigger] b[i].1[j]).2, k);
                assert(t[i].1[j] == b[i].1[j]);
                assert(pages_has::<K, V>(t[i].1, k));
                assert(snap_has::<H, K, V>(t, h, k));
            }
        }
    }
    assert forall|h: H::V, k: K::V, v: V::V|
        #[trigger] snap_val_ok::<H, K, V>(t, h, k, v) <==> snap_val_ok::<H, K, V>(
            b,
            h,
            k,
            v,
        ) by {
        if snap_val_ok::<H, K, V>(t, h, k, v) {
            let i = choose|i: int|
                0 <= i < t.len() && (#[trigger] t[i]).0 == h && pages_val_ok::<K, V>(t[i].1, k, v);
            if i < n {
                assert(b[i] == t[i]);
                assert(snap_val_ok::<H, K, V>(b, h, k, v));
            } else {
                let j = choose|j: int|
                    0 <= j < t[i].1.len() && ents_val_ok::<K, V>((#[trigger] t[i].1[j]).2, k, v);
                if j < p {
                    assert(b[i].1[j] == t[i].1[j]);
                    assert(pages_val_ok::<K, V>(b[i].1, k, v));
                    assert(snap_val_ok::<H, K, V>(b, h, k, v));
                } else {
                    let l = choose|l: int|
                        0 <= l < t[i].1[j].2.len() && #[trigger] t[i].1[j].2[l] == (k, v);
                    assert(false);
                }
            }
        }
        if snap_val_ok::<H, K, V>(b, h, k, v) {
            let i = choose|i: int|
                0 <= i < b.len() && (#[trigger] b[i]).0 == h && pages_val_ok::<K, V>(b[i].1, k, v);
            if i < n {
                assert(t[i] == b[i]);
                assert(snap_val_ok::<H, K, V>(t, h, k, v));
            } else {
                let j = choose|j: int|
                    0 <= j < b[i].1.len() && ents_val_ok::<K, V>((#[trigger] b[i].1[j]).2, k, v);
                assert(t[i].1[j] == b[i].1[j]);
                assert(pages_val_ok::<K, V>(t[i].1, k, v));
                assert(snap_val_ok::<H, K, V>(t, h, k, v));
            }
        }
    }
    if snap_distinct::<H, K, V>(t) {
        assert(snap_distinct::<H, K, V>(b)) by {
            assert forall|i1: int, j1: int, l1: int, i2: int, j2: int, l2: int|
                #![trigger b[i1].1[j1].2[l1], b[i2].1[j2].2[l2]]
                0 <= i1 < b.len() && 0 <= j1 < b[i1].1.len() && 0 <= l1 < b[i1].1[j1].2.len() && 0
                    <= i2 < b.len() && 0 <= j2 < b[i2].1.len() && 0 <= l2 < b[i2].1[j2].2.len()
                    && b[i1].0 == b[i2].0 && b[i1].1[j1].2[l1].0 == b[i2].1[j2].2[l2].0 implies i1
                == i2 && j1 == j2 && l1 == l2 by {
                assert(t[i1].0 == b[i1].0 && t[i2].0 == b[i2].0);
                assert(t[i1].1[j1].2[l1] == b[i1].1[j1].2[l1]);
                assert(t[i2].1[j2].2[l2] == b[i2].1[j2].2[l2]);
            }
        }
    }
}

/// Emitting one decoded entry binds exactly that pair, grows the entry count
/// by one, and — when the grown snapshot is duplicate-free — the pair was
/// absent before.
pub proof fn lemma_push_entry<H: StoreKey + Codec, K: StoreKey + Codec, V: Codec>(
    dm: SnapModel<H, K, V>,
    hv: H::V,
    pgs: Seq<PageModel<K, V>>,
    sv: K::V,
    ev: K::V,
    es: Seq<(K::V, V::V)>,
    kv: K::V,
    vv: V::V,
)
    ensures
        forall|h: H::V, k: K::V|
            #[trigger] snap_has::<H, K, V>(
                open_model::<H, K, V>(dm, hv, pgs, sv, ev, es.push((kv, vv))),
                h,
                k,
            ) <==> snap_has::<H, K, V>(open_model::<H, K, V>(dm, hv, pgs, sv, ev, es), h, k) || (h == hv && k
                == kv),
        forall|h: H::V, k: K::V, v: V::V|
            #[trigger] snap_val_ok::<H, K, V>(
                open_model::<H, K, V>(dm, hv, pgs, sv, ev, es.push((kv, vv))),
                h,
                k,
                v,
            ) <==> snap_val_ok::<H, K, V>(open_model::<H, K, V>(dm, hv, pgs, sv, ev, es), h, k, v) || (h == hv
                && k == kv && v == vv),
        snap_count::<H, K, V>(open_model::<H, K, V>(dm, hv, pgs, sv, ev, es.push((kv, vv)))) == snap_count::<
            H,
            K,
            V,
        >(open_model::<H, K, V>(dm, hv, pgs, sv, ev, es)) + 1,
        snap_distinct::<H, K, V>(open_model::<H, K, V>(dm, hv, pgs, sv, ev, es.push((kv, vv)))) ==> (
        snap_distinct::<H, K, V>(open_model::<H, K, V>(dm, hv, pgs, sv, ev, es)) && !snap_has::<H, K, V>(
            open_model::<H, K, V>(dm, hv, pgs, sv, ev, es),
            hv,
            kv,
        )),
{
    let t = open_model::<H, K, V>(dm, hv, pgs, sv, ev, es.push((kv, vv)));
    let b = open_model::<H, K, V>(dm, hv, pgs, sv, ev, es);
    let n = dm.len() as int;
    let p = pgs.len() as int;
    let e = es.len() as int;
    assert(t.drop_last() =~= dm);
    assert(b.drop_last() =~= dm);
    assert(t[n].1[p].2 == es.push((kv, vv)));
    assert(b[n].1[p].2 == es);
    assert(snap_count::<H, K, V>(t) == snap_count::<H, K, V>(b) + 1) by {
        assert(t[n].1.drop_last() =~= pgs);
        assert(b[n].1.drop_last() =~= pgs);
    }
    assert forall|h: H::V, k: K::V|
        #[trigger] snap_has::<H, K, V>(t, h, k) <==> snap_has::<H, K, V>(b, h, k) || (h == hv && k
            == kv) by {
        if snap_has::<H, K, V>(t, h, k) {
            let i = choose|i: int|
                0 <= i < t.len() && (#[trigger] t[i]).0 == h && pages_has::<K, V>(t[i].1, k);
            if i < n {
                assert(b[i] == t[i]);
                assert(snap_has::<H, K, V>(b, h, k));
            } else {
                let j = choose|j: int|
                    0 <= j < t[i].1.len() && ents_has::<K, V>((#[trigger] t[i].1[j]).2, k);
                if j < p {
                    assert(b[i].1[j] == t[i].1[j]);
                    assert(pages_has::<K, V>(b[i].1, k));
                    assert(snap_has::<H, K, V>(b, h, k));
                } else {
                    let l = choose|l: int|
                        0 <= l < t[i].1[j].2.len() && (#[trigger] t[i].1[j].2[l]).0 == k;
                    if l < e {
                        assert(b[i].1[j].2[l] == t[i].1[j].2[l]);
                        assert(ents_has::<K, V>(b[i].1[j].2, k));
                        assert(pages_has::<K, V>(b[i].1, k));
                        assert(snap_has::<H, K, V>(b, h, k));
                    } else {
                        assert(h == hv && k == kv);
                    }
                }
            }
        }
        if snap_has::<H, K, V>(b, h, k) {
            let i = choose|i: int|
                0 <= i < b.len() && (#[trigger] b[i]).0 == h && pages_has::<K, V>(b[i].1, k);
            if i < n {
                assert(t[i] == b[i]);
                assert(snap_has::<H, K, V>(t, h, k));
            } else {
                let j = choose|j: int|
                    0 <= j < b[i].1.len() && ents_has::<K, V>((#[trigger] b[i].1[j]).2, k);
                if j < p {
                    assert(t[i].1[j] == b[i].1[j]);
                } else {
                    let l = choose|l: int|
                        0 <= l < b[i].1[j].2.len() && (#[trigger] b[i].1[j].2[l]).0 == k;
                    assert(t[i].1[j].2[l] == b[i].1[j].2[l]);
                    assert(ents_has::<K, V>(t[i].1[j].2, k));
                }
                assert(pages_has::<K, V>(t[i].1, k));
                assert(snap_has::<H, K, V>(t, h, k));
            }
        }
        if h == hv && k == kv {
            assert((t[n].1[p].2[e]).0 == kv);
            assert(ents_has::<K, V>(t[n].1[p].2, k));
            assert(pages_has::<K, V>(t[n].1, k));
            assert(snap_has::<H, K, V>(t, h, k));
        }
    }
    assert forall|h: H::V, k: K::V, v: V::V|
        #[trigger] snap_val_ok::<H, K, V>(t, h, k, v) <==> snap_val_ok::<H, K, V>(b, h, k, v) || (
        h == hv && k == kv && v == vv) by {
        if snap_val_ok::<H, K, V>(t, h, k, v) {
            let i = choose|i: int|
                0 <= i < t.len() && (#[trigger] t[i]).0 == h && pages_val_ok::<K, V>(t[i].1, k, v);
            if i < n {
                assert(b[i] == t[i]);
                assert(snap_val_ok::<H, K, V>(b, h, k, v));
            } else {
                let j = choose|j: int|
                    0 <= j < t[i].1.len() && ents_val_ok::<K, V>((#[trigger] t[i].1[j]).2, k, v);
                if j < p {
                    assert(b[i].1[j] == t[i].1[j]);
                    assert(pages_val_ok::<K, V>(b[i].1, k, v));
                    assert(snap_val_ok::<H, K, V>(b, h, k, v));
                } else {
                    let l = choose|l: int|
                        0 <= l < t[i].1[j].2.len() && #[trigger] t[i].1[j].2[l] == (k, v);
                    if l < e {
                        assert(b[i].1[j].2[l] == t[i].1[j].2[l]);
                        assert(ents_val_ok::<K, V>(b[i].1[j].2, k, v));
                        assert(pages_val_ok::<K, V>(b[i].1, k, v));
                        assert(snap_val_ok::<H, K, V>(b, h, k, v));
                    } else {
                        assert(h == hv && k == kv && v == vv);
                    }
                }
            }
        }
        if snap_val_ok::<H, K, V>(b, h, k, v) {
            let i = choose|i: int|
                0 <= i < b.len() && (#[trigger] b[i]).0 == h && pages_val_ok::<K, V>(b[i].1, k, v);
            if i < n {
                assert(t[i] == b[i]);
                assert(snap_val_ok::<H, K, V>(t, h, k, v));
            } else {
                let j = choose|j: int|
                    0 <= j < b[i].1.len() && ents_val_ok::<K, V>((#[trigger] b[i].1[j]).2, k, v);
                if j < p {
                    assert(t[i].1[j] == b[i].1[j]);
                } else {
                    let l = choose|l: int|
                        0 <= l < b[i].1[j].2.len() && #[trigger] b[i].1[j].2[l] == (k, v);
                    assert(t[i].1[j].2[l] == b[i].1[j].2[l]);
                    assert(ents_val_ok::<K, V>(t[i].1[j].2, k, v));
                }
                assert(pages_val_ok::<K, V>(t[i].1, k, v));
                assert(snap_val_ok::<H, K, V>(t, h, k, v));
            }
        }
        if h == hv && k == kv && v == vv {
            assert(t[n].1[p].2[e] == (k, v));
            assert(ents_val_ok::<K, V>(t[n].1[p].2, k, v));
            assert(pages_val_ok::<K, V>(t[n].1, k, v));
            assert(snap_val_ok::<H, K, V>(t, h, k, v));
        }
    }
    if snap_distinct::<H, K, V>(t) {
        assert(snap_distinct::<H, K, V>(b)) by {
            assert forall|i1: int, j1: int, l1: int, i2: int, j2: int, l2: int|
                #![trigger b[i1].1[j1].2[l1], b[i2].1[j2].2[l2]]
                0 <= i1 < b.len() && 0 <= j1 < b[i1].1.len() && 0 <= l1 < b[i1].1[j1].2.len() && 0
                    <= i2 < b.len() && 0 <= j2 < b[i2].1.len() && 0 <= l2 < b[i2].1[j2].2.len()
                    && b[i1].0 == b[i2].0 && b[i1].1[j1].2[l1].0 == b[i2].1[j2].2[l2].0 implies i1
                == i2 && j1 == j2 && l1 == l2 by {
                assert(t[i1].0 == b[i1].0 && t[i2].0 == b[i2].0);
                assert(t[i1].1[j1].2[l1] == b[i1].1[j1].2[l1]);
                assert(t[i2].1[j2].2[l2] == b[i2].1[j2].2[l2]);
            }
        }
        if snap_has::<H, K, V>(b, hv, kv) {
            let i = choose|i: int|
                0 <= i < b.len() && (#[trigger] b[i]).0 == hv && pages_has::<K, V>(b[i].1, kv);
            let j = choose|j: int|
                0 <= j < b[i].1.len() && ents_has::<K, V>((#[trigger] b[i].1[j]).2, kv);
            let l = choose|l: int|
                0 <= l < b[i].1[j].2.len() && (#[trigger] b[i].1[j].2[l]).0 == kv;
            assert(t[i].0 == hv);
            assert(t[i].1[j].2[l] == b[i].1[j].2[l]);
            assert(t[n].0 == hv && (t[n].1[p].2[e]).0 == kv);
            assert(!(i == n && j == p && l == e));
            assert(false);
        }
    }
}

/// Entry counts of page lists are non-negative, and a prefix plus one page
/// stays within the whole.
pub proof fn lemma_pages_count_take<K: StoreKey + Codec, V: Codec>(
    ps: Seq<PageModel<K, V>>,
    j: int,
)
    requires
        0 <= j <= ps.len(),
    ensures
        pages_count::<K, V>(ps.take(j)) + (if j < ps.len() {
            ps[j].2.len() as int
        } else {
            0
        }) <= pages_count::<K, V>(ps),
        pages_count::<K, V>(ps.take(j)) >= 0,
    decreases ps.len(),
{
    if ps.len() == 0 {
        assert(ps.take(j) =~= ps);
    } else if j == ps.len() {
        assert(ps.take(j) =~= ps);
        lemma_pages_count_take::<K, V>(ps.drop_last(), ps.len() - 1);
        assert(ps.drop_last().take(ps.len() - 1) =~= ps.drop_last());
    } else {
        lemma_pages_count_take::<K, V>(ps.drop_last(), j);
        assert(ps.drop_last().take(j) =~= ps.take(j));
    }
}

/// Entry counts of snapshots are non-negative, and a prefix plus one
/// partition stays within the whole.
pub proof fn lemma_snap_count_take<H: StoreKey + Codec, K: StoreKey + Codec, V: Codec>(
    m: SnapModel<H, K, V>,
    i: int,
)
    requires
        0 <= i <= m.len(),
    ensures
        snap_count::<H, K, V>(m.take(i)) + (if i < m.len() {
            pages_count::<K, V>(m[i].1)
        } else {
            0
        }) <= snap_count::<H, K, V>(m),
        snap_count::<H, K, V>(m.take(i)) >= 0,
    decreases m.len(),
{
    if m.len() == 0 {
        assert(m.take(i) =~= m);
    } else if i == m.len() {
        assert(m.take(i) =~= m);
        lemma_snap_count_take::<H, K, V>(m.drop_last(), m.len() - 1);
        assert(m.drop_last().take(m.len() - 1) =~= m.drop_last());
        lemma_pages_count_take::<K, V>(m.last().1, 0);
        assert(m.last().1.take(0) =~= Seq::<PageModel<K, V>>::empty());
    } else {
        lemma_snap_count_take::<H, K, V>(m.drop_last(), i);
        assert(m.drop_last().take(i) =~= m.take(i));
        lemma_pages_count_take::<K, V>(m.last().1, 0);
        assert(m.last().1.take(0) =~= Seq::<PageModel<K, V>>::empty());
    }
}

/// A byte string occurring at an offset splits into its two halves.
pub proof fn lemma_enc_at_split(s: Seq<u8>, pos: int, a: Seq<u8>, b: Seq<u8>)
    requires
        enc_at(s, pos, a + b),
    ensures
        enc_at(s, pos, a),
        enc_at(s, pos + a.len(), b),
{
    assert(s.subrange(pos, pos + a.len()) =~= a) by {
        assert(forall|q: int|
            0 <= q < a.len() ==> s[pos + q] == (a + b)[q] && (a + b)[q] == a[q]);
    }
    assert(s.subrange(pos + a.len(), pos + a.len() + b.len()) =~= b) by {
        assert(forall|q: int|
            0 <= q < b.len() ==> s[pos + a.len() + q] == (a + b)[a.len() + q] && (a + b)[a.len()
                + q] == b[q]);
    }
}

} // verus!
