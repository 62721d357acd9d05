//! Total order over the opaque key types the engine stores.
//!
//! The engine treats partition keys and tree keys as opaque tokens: all it
//! ever needs is a decidable total order (and, for partition keys, the
//! equality that order induces). `StoreKey` packages the order together with
//! the laws the verification relies on. The order is stated over each key
//! type's mathematical view, so every contract in the crate speaks of views.

use vstd::prelude::*;

verus! {

/// Result of a three-way comparison of two keys.
pub enum KeyCmp {
    Less,
    Equal,
    Greater,
}

/// A key type with a decidable total order on its views.
///
/// `key_le` is the mathematical order; the proof obligations make it a total
/// order that respects view equality, and `key_cmp` decides it at run time.
pub trait StoreKey: View + Sized {
    /// The total order on key views.
    spec fn key_le(a: Self::V, b: Self::V) -> bool;

    /// Any two keys are comparable.
    proof fn key_le_total(a: Self::V, b: Self::V)
        ensures
            Self::key_le(a, b) || Self::key_le(b, a),
    ;

    /// Keys below each other are equal.
    proof fn key_le_antisymmetric(a: Self::V, b: Self::V)
        requires
            Self::key_le(a, b),
            Self::key_le(b, a),
        ensures
            a == b,
    ;

    /// The order composes.
    proof fn key_le_transitive(a: Self::V, b: Self::V, c: Self::V)
        requires
            Self::key_le(a, b),
            Self::key_le(b, c),
        ensures
            Self::key_le(a, c),
    ;

    /// Decides the order.
    fn key_cmp(&self, other: &Self) -> (c: KeyCmp)
        ensures
            match c {
                KeyCmp::Less => Self::key_le(self@, other@) && self@ != other@,
                KeyCmp::Equal => self@ == other@,
                KeyCmp::Greater => Self::key_le(other@, self@) && self@ != other@,
            },
    ;

    /// Duplicates the key.
    fn key_clone(&self) -> (r: Self)
        ensures
            r@ == self@,
    ;
}

/// Strictly-below relation induced by the order.
pub open spec fn key_lt<K: StoreKey>(a: K::V, b: K::V) -> bool {
    K::key_le(a, b) && a != b
}

/// The order is reflexive (a consequence of totality).
pub proof fn lemma_key_le_refl<K: StoreKey>(a: K::V)
    ensures
        K::key_le(a, a),
{
    K::key_le_total(a, a);
}

/// A strict step followed by a weak step stays strict.
pub proof fn lemma_key_lt_le<K: StoreKey>(a: K::V, b: K::V, c: K::V)
    requires
        key_lt::<K>(a, b),
        K::key_le(b, c),
    ensures
        key_lt::<K>(a, c),
{
    K::key_le_transitive(a, b, c);
    if a == c {
        K::key_le_antisymmetric(a, b);
    }
}

/// A weak step followed by a strict step stays strict.
pub proof fn lemma_key_le_lt<K: StoreKey>(a: K::V, b: K::V, c: K::V)
    requires
        K::key_le(a, b),
        key_lt::<K>(b, c),
    ensures
        key_lt::<K>(a, c),
{
    K::key_le_transitive(a, b, c);
    if a == c {
        K::key_le_antisymmetric(b, c);
    }
}

/// Strict steps compose.
pub proof fn lemma_key_lt_lt<K: StoreKey>(a: K::V, b: K::V, c: K::V)
    requires
        key_lt::<K>(a, b),
        key_lt::<K>(b, c),
    ensures
        key_lt::<K>(a, c),
{
    lemma_key_lt_le::<K>(a, b, c);
}

/// The strict order is asymmetric.
pub proof fn lemma_key_lt_asym<K: StoreKey>(a: K::V, b: K::V)
    requires
        key_lt::<K>(a, b),
    ensures
        !key_lt::<K>(b, a),
{
    if key_lt::<K>(b, a) {
        K::key_le_antisymmetric(a, b);
    }
}

impl StoreKey for usize {
    open spec fn key_le(a: usize, b: usize) -> bool {
        a <= b
    }

    proof fn key_le_total(a: usize, b: usize) {
    }

    proof fn key_le_antisymmetric(a: usize, b: usize) {
    }

    proof fn key_le_transitive(a: usize, b: usize, c: usize) {
    }

    fn key_cmp(&self, other: &Self) -> (c: KeyCmp) {
        if *self < *other {
            KeyCmp::Less
        } else if *self == *other {
            KeyCmp::Equal
        } else {
            KeyCmp::Greater
        }
    }

    fn key_clone(&self) -> (r: Self) {
        *self
    }
}

impl StoreKey for u64 {
    open spec fn key_le(a: u64, b: u64) -> bool {
        a <= b
    }

    proof fn key_le_total(a: u64, b: u64) {
    }

    proof fn key_le_antisymmetric(a: u64, b: u64) {
    }

    proof fn key_le_transitive(a: u64, b: u64, c: u64) {
    }

    fn key_cmp(&self, other: &Self) -> (c: KeyCmp) {
        if *self < *other {
            KeyCmp::Less
        } else if *self == *other {
            KeyCmp::Equal
        } else {
            KeyCmp::Greater
        }
    }

    fn key_clone(&self) -> (r: Self) {
        *self
    }
}

/// Lexicographic order on byte strings: the usual dictionary order, with a
/// proper prefix ordered before every extension of it.
pub open spec fn bytes_le(a: Seq<u8>, b: Seq<u8>) -> bool
    decreases a.len(),
{
    if a.len() == 0 {
        true
    } else if b.len() == 0 {
        false
    } else if a[0] < b[0] {
        true
    } else if a[0] == b[0] {
        bytes_le(a.skip(1), b.skip(1))
    } else {
        false
    }
}

proof fn lemma_bytes_le_total(a: Seq<u8>, b: Seq<u8>)
    ensures
        bytes_le(a, b) || bytes_le(b, a),
    decreases a.len(),
{
    if a.len() == 0 || b.len() == 0 {
    } else if a[0] == b[0] {
        lemma_bytes_le_total(a.skip(1), b.skip(1));
    }
}

proof fn lemma_bytes_le_antisymmetric(a: Seq<u8>, b: Seq<u8>)
    requires
        bytes_le(a, b),
        bytes_le(b, a),
    ensures
        a == b,
    decreases a.len(),
{
    if a.len() == 0 {
        assert(b.len() == 0);
        assert(a =~= b);
    } else {
        assert(a[0] == b[0]);
        lemma_bytes_le_antisymmetric(a.skip(1), b.skip(1));
        assert(a.len() == b.len());
        assert forall|i: int| 0 <= i < a.len() implies a[i] == b[i] by {
            if i >= 1 {
                assert(a[i] == a.skip(1)[i - 1]);
                assert(b[i] == b.skip(1)[i - 1]);
            }
        }
        assert(a =~= b);
    }
}

proof fn lemma_bytes_le_transitive(a: Seq<u8>, b: Seq<u8>, c: Seq<u8>)
    requires
        bytes_le(a, b),
        bytes_le(b, c),
    ensures
        bytes_le(a, c),
    decreases a.len(),
{
    if a.len() == 0 || b.len() == 0 || c.len() == 0 {
    } else if a[0] == b[0] && b[0] == c[0] {
        lemma_bytes_le_transitive(a.skip(1), b.skip(1), c.skip(1));
    }
}

/// Skipping a common prefix does not change the order.
proof fn lemma_bytes_le_skip_prefix(a: Seq<u8>, b: Seq<u8>, i: int)
    requires
        0 <= i <= a.len(),
        i <= b.len(),
        forall|j: int| 0 <= j < i ==> a[j] == b[j],
    ensures
        bytes_le(a, b) == bytes_le(a.skip(i), b.skip(i)),
    decreases i,
{
    if i == 0 {
        assert(a.skip(0) =~= a);
        assert(b.skip(0) =~= b);
    } else {
        assert(a[0] == b[0]);
        lemma_bytes_le_skip_prefix(a.skip(1), b.skip(1), i - 1);
        assert(a.skip(1).skip(i - 1) =~= a.skip(i));
        assert(b.skip(1).skip(i - 1) =~= b.skip(i));
        assert(forall|j: int| 0 <= j < i - 1 ==> #[trigger] a.skip(1)[j] == b.skip(1)[j]);
    }
}

impl StoreKey for Vec<u8> {
    open spec fn key_le(a: Seq<u8>, b: Seq<u8>) -> bool {
        bytes_le(a, b)
    }

    proof fn key_le_total(a: Seq<u8>, b: Seq<u8>) {
        lemma_bytes_le_total(a, b);
    }

    proof fn key_le_antisymmetric(a: Seq<u8>, b: Seq<u8>) {
        lemma_bytes_le_antisymmetric(a, b);
    }

    proof fn key_le_transitive(a: Seq<u8>, b: Seq<u8>, c: Seq<u8>) {
        lemma_bytes_le_transitive(a, b, c);
    }

    fn key_cmp(&self, other: &Self) -> (c: KeyCmp) {
        let a_len = self.len();
        let b_len = other.len();
        let n = if a_len < b_len {
            a_len
        } else {
            b_len
        };
        let mut i: usize = 0;
        while i < n
            invariant
                0 <= i <= n,
                n <= self@.len(),
                n <= other@.len(),
                n == if self@.len() < other@.len() {
                    self@.len()
                } else {
                    other@.len()
                },
                forall|j: int| 0 <= j < i ==> self@[j] == other@[j],
            decreases n - i,
        {
            let x = self[i];
            let y = other[i];
            if x < y {
                proof {
                    lemma_bytes_le_skip_prefix(self@, other@, i as int);
                    assert(self@.skip(i as int)[0] == self@[i as int]);
                    assert(other@.skip(i as int)[0] == other@[i as int]);
                }
                return KeyCmp::Less;
            }
            if x > y {
                proof {
                    lemma_bytes_le_skip_prefix(other@, self@, i as int);
                    assert(self@.skip(i as int)[0] == self@[i as int]);
                    assert(other@.skip(i as int)[0] == other@[i as int]);
                }
                return KeyCmp::Greater;
            }
            i += 1;
        }
        if a_len == b_len {
            proof {
                assert(self@ =~= other@);
            }
            KeyCmp::Equal
        } else if a_len < b_len {
            proof {
                lemma_bytes_le_skip_prefix(self@, other@, n as int);
                assert(self@.skip(n as int).len() == 0);
            }
            KeyCmp::Less
        } else {
            proof {
                lemma_bytes_le_skip_prefix(other@, self@, n as int);
                assert(other@.skip(n as int).len() == 0);
            }
            KeyCmp::Greater
        }
    }

    fn key_clone(&self) -> (r: Self) {
        let mut r: Vec<u8> = Vec::new();
        let mut i: usize = 0;
        while i < self.len()
            invariant
                0 <= i <= self@.len(),
                r@ == self@.take(i as int),
            decreases self@.len() - i,
        {
            r.push(self[i]);
            proof {
                assert(r@ =~= self@.take(i + 1));
            }
            i += 1;
        }
        proof {
            assert(self@.take(self@.len() as int) =~= self@);
        }
        r
    }
}

} // verus!
