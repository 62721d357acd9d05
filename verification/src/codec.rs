//! Self-delimiting binary encodings for the primitive key and value types,
//! in compact fixed-endianness form: integers as eight little-endian bytes,
//! byte strings length-prefixed with a 64-bit count.
//!
//! The decoding contract is two-sided: whatever comes back was encoded in
//! the consumed bytes, and whenever some representable value's encoding
//! occurs at the read position, exactly that value comes back. Together with
//! prefix-freedom this makes composite encodings invertible.

use vstd::bytes::lemma_auto_spec_u64_to_from_le_bytes;
use vstd::bytes::spec_u64_to_le_bytes;
use vstd::bytes::u64_from_le_bytes;
use vstd::bytes::u64_to_le_bytes;
use vstd::prelude::*;
use vstd::slice::slice_subrange;

verus! {

/// The byte string `e` occurs in `s` at offset `pos`.
pub open spec fn enc_at(s: Seq<u8>, pos: int, e: Seq<u8>) -> bool {
    &&& 0 <= pos
    &&& pos + e.len() <= s.len()
    &&& s.subrange(pos, pos + e.len()) == e
}

/// A type with a self-delimiting binary encoding of its views.
pub trait Codec: View + Sized {
    /// The views the encoding can represent.
    spec fn enc_wf(m: Self::V) -> bool;

    /// The encoding of a view.
    spec fn enc_of(m: Self::V) -> Seq<u8>;

    /// No encoding is a proper prefix of another: streams that agree split
    /// into equal encodings and equal remainders.
    proof fn enc_prefix_free(m1: Self::V, m2: Self::V, r1: Seq<u8>, r2: Seq<u8>)
        requires
            Self::enc_wf(m1),
            Self::enc_wf(m2),
            Self::enc_of(m1) + r1 == Self::enc_of(m2) + r2,
        ensures
            m1 == m2,
            r1 == r2,
    ;

    /// Appends the value's encoding.
    fn encode(&self, out: &mut Vec<u8>)
        ensures
            final(out)@ == old(out)@ + Self::enc_of(self@),
            Self::enc_wf(self@),
    ;

    /// Reads one value at `*pos`, advancing past its encoding. Whatever
    /// comes back was encoded in the consumed bytes; and whenever a
    /// representable view's encoding occurs at `*pos`, exactly that view's
    /// value comes back.
    fn decode(bytes: &Vec<u8>, pos: &mut usize) -> (r: Option<Self>)
        requires
            *old(pos) <= bytes@.len(),
        ensures
            match r {
                Some(v) => *old(pos) <= *final(pos) <= bytes@.len() && bytes@.subrange(
                    *old(pos) as int,
                    *final(pos) as int,
                ) == Self::enc_of(v@) && Self::enc_wf(v@),
                None => *final(pos) == *old(pos),
            },
            forall|m: Self::V|
                Self::enc_wf(m) && #[trigger] enc_at(bytes@, *old(pos) as int, Self::enc_of(m))
                    ==> r is Some && r.unwrap()@ == m && *final(pos) == *old(pos) + Self::enc_of(
                    m,
                ).len(),
    ;
}

/// A consumed region splits at any midpoint into its two halves.
pub proof fn lemma_subrange_chain(s: Seq<u8>, a: int, b: int, c: int)
    requires
        0 <= a <= b <= c <= s.len(),
    ensures
        s.subrange(a, c) == s.subrange(a, b) + s.subrange(b, c),
{
    assert(s.subrange(a, c) =~= s.subrange(a, b) + s.subrange(b, c));
}

/// Streams that agree and start with equal-length segments split into equal
/// segments and equal remainders.
pub proof fn lemma_concat_split(a1: Seq<u8>, r1: Seq<u8>, a2: Seq<u8>, r2: Seq<u8>)
    requires
        a1.len() == a2.len(),
        a1 + r1 == a2 + r2,
    ensures
        a1 == a2,
        r1 == r2,
{
    assert(a1 =~= a2) by {
        assert(forall|i: int| 0 <= i < a1.len() ==> a1[i] == (a1 + r1)[i] && a2[i] == (a2 + r2)[i]);
    }
    assert((a1 + r1).len() == (a2 + r2).len());
    assert((a1 + r1).len() == a1.len() + r1.len());
    assert((a2 + r2).len() == a2.len() + r2.len());
    assert(r1.len() == r2.len());
    assert forall|i: int| 0 <= i < r1.len() implies r1[i] == r2[i] by {
        assert((a1 + r1)[a1.len() + i] == r1[i]);
        assert((a2 + r2)[a2.len() + i] == r2[i]);
    }
    assert(r1 =~= r2);
}

impl Codec for u64 {
    open spec fn enc_wf(m: u64) -> bool {
        true
    }

    open spec fn enc_of(m: u64) -> Seq<u8> {
        spec_u64_to_le_bytes(m)
    }

    proof fn enc_prefix_free(m1: u64, m2: u64, r1: Seq<u8>, r2: Seq<u8>) {
        lemma_auto_spec_u64_to_from_le_bytes();
        lemma_concat_split(spec_u64_to_le_bytes(m1), r1, spec_u64_to_le_bytes(m2), r2);
    }

    fn encode(&self, out: &mut Vec<u8>) {
        let mut tmp = u64_to_le_bytes(*self);
        out.append(&mut tmp);
    }

    fn decode(bytes: &Vec<u8>, pos: &mut usize) -> (r: Option<u64>) {
        proof {
            lemma_auto_spec_u64_to_from_le_bytes();
        }
        if bytes.len() - *pos < 8 {
            return None;
        }
        let s = slice_subrange(bytes.as_slice(), *pos, *pos + 8);
        let x = u64_from_le_bytes(s);
        proof {
            assert(s@ == bytes@.subrange(*pos as int, *pos + 8));
            assert(spec_u64_to_le_bytes(x) == s@);
            assert forall|m: u64|
                #[trigger] enc_at(bytes@, *pos as int, spec_u64_to_le_bytes(m)) implies m
                == x by {
                assert(bytes@.subrange(*pos as int, *pos + 8) == spec_u64_to_le_bytes(m));
            }
        }
        *pos = *pos + 8;
        Some(x)
    }
}

impl Codec for usize {
    open spec fn enc_wf(m: usize) -> bool {
        true
    }

    open spec fn enc_of(m: usize) -> Seq<u8> {
        spec_u64_to_le_bytes(m as u64)
    }

    proof fn enc_prefix_free(m1: usize, m2: usize, r1: Seq<u8>, r2: Seq<u8>) {
        lemma_auto_spec_u64_to_from_le_bytes();
        lemma_concat_split(
            spec_u64_to_le_bytes(m1 as u64),
            r1,
            spec_u64_to_le_bytes(m2 as u64),
            r2,
        );
    }

    fn encode(&self, out: &mut Vec<u8>) {
        let mut tmp = u64_to_le_bytes(*self as u64);
        out.append(&mut tmp);
    }

    fn decode(bytes: &Vec<u8>, pos: &mut usize) -> (r: Option<usize>) {
        let start = *pos;
        let x = match <u64 as Codec>::decode(bytes, pos) {
            Some(x) => x,
            None => {
                proof {
                    assert forall|m: usize|
                        Self::enc_wf(m) && #[trigger] enc_at(
                            bytes@,
                            *old(pos) as int,
                            Self::enc_of(m),
                        ) implies false by {
                        assert(enc_at(
                            bytes@,
                            *old(pos) as int,
                            <u64 as Codec>::enc_of(m as u64),
                        ));
                    }
                }
                return None;
            }
        };
        if x <= usize::MAX as u64 {
            proof {
                assert forall|m: usize|
                    Self::enc_wf(m) && #[trigger] enc_at(
                        bytes@,
                        *old(pos) as int,
                        Self::enc_of(m),
                    ) implies m == x as usize && *pos == *old(pos) + Self::enc_of(m).len() by {
                    assert(enc_at(bytes@, *old(pos) as int, <u64 as Codec>::enc_of(m as u64)));
                    assert(x == m as u64);
                }
            }
            Some(x as usize)
        } else {
            proof {
                assert forall|m: usize|
                    Self::enc_wf(m) && #[trigger] enc_at(
                        bytes@,
                        *old(pos) as int,
                        Self::enc_of(m),
                    ) implies false by {
                    assert(enc_at(bytes@, *old(pos) as int, <u64 as Codec>::enc_of(m as u64)));
                    assert(x == m as u64);
                }
            }
            *pos = start;
            None
        }
    }
}

impl Codec for Vec<u8> {
    open spec fn enc_wf(m: Seq<u8>) -> bool {
        m.len() <= usize::MAX
    }

    open spec fn enc_of(m: Seq<u8>) -> Seq<u8> {
        spec_u64_to_le_bytes(m.len() as u64) + m
    }

    proof fn enc_prefix_free(m1: Seq<u8>, m2: Seq<u8>, r1: Seq<u8>, r2: Seq<u8>) {
        lemma_auto_spec_u64_to_from_le_bytes();
        let h1 = spec_u64_to_le_bytes(m1.len() as u64);
        let h2 = spec_u64_to_le_bytes(m2.len() as u64);
        assert((h1 + m1) + r1 =~= h1 + (m1 + r1));
        assert((h2 + m2) + r2 =~= h2 + (m2 + r2));
        lemma_concat_split(h1, m1 + r1, h2, m2 + r2);
        assert(m1.len() as u64 == m2.len() as u64);
        assert(m1.len() == m2.len());
        lemma_concat_split(m1, r1, m2, r2);
    }

    fn encode(&self, out: &mut Vec<u8>) {
        let n = self.len();
        let mut tmp = u64_to_le_bytes(n as u64);
        out.append(&mut tmp);
        let ghost mid = out@;
        let mut i: usize = 0;
        while i < n
            invariant
                0 <= i <= n,
                n == self@.len(),
                out@ == mid + self@.take(i as int),
            decreases n - i,
        {
            out.push(self[i]);
            proof {
                assert(mid + self@.take(i as int + 1) =~= (mid + self@.take(i as int)).push(
                    self@[i as int],
                ));
            }
            i += 1;
        }
        proof {
            assert(self@.take(n as int) =~= self@);
            assert(out@ =~= old(out)@ + (spec_u64_to_le_bytes(n as u64) + self@));
        }
    }

    #[verifier::loop_isolation(false)]
    fn decode(bytes: &Vec<u8>, pos: &mut usize) -> (r: Option<Vec<u8>>) {
        proof {
            lemma_auto_spec_u64_to_from_le_bytes();
        }
        let start = *pos;
        let n64 = match <u64 as Codec>::decode(bytes, pos) {
            Some(x) => x,
            None => {
                proof {
                    assert forall|m: Seq<u8>|
                        Self::enc_wf(m) && #[trigger] enc_at(
                            bytes@,
                            start as int,
                            Self::enc_of(m),
                        ) implies false by {
                        let e = Self::enc_of(m);
                        let h = spec_u64_to_le_bytes(m.len() as u64);
                        assert(e.subrange(0, 8) =~= h);
                        assert(bytes@.subrange(start as int, start as int + 8) =~= e.subrange(
                            0,
                            8,
                        ));
                        assert(enc_at(bytes@, start as int, <u64 as Codec>::enc_of(
                            m.len() as u64,
                        )));
                    }
                }
                return None;
            }
        };
        let avail = bytes.len() - *pos;
        if n64 > avail as u64 {
            proof {
                assert forall|m: Seq<u8>|
                    Self::enc_wf(m) && #[trigger] enc_at(
                        bytes@,
                        start as int,
                        Self::enc_of(m),
                    ) implies false by {
                    let e = Self::enc_of(m);
                    let h = spec_u64_to_le_bytes(m.len() as u64);
                    assert(e.subrange(0, 8) =~= h);
                    assert(bytes@.subrange(start as int, start as int + 8) =~= e.subrange(0, 8));
                    assert(enc_at(bytes@, start as int, <u64 as Codec>::enc_of(m.len() as u64)));
                    assert(n64 == m.len() as u64);
                    assert(start + 8 + m.len() <= bytes@.len());
                }
            }
            *pos = start;
            return None;
        }
        let n = n64 as usize;
        let data_start = *pos;
        let mut out: Vec<u8> = Vec::new();
        let mut i: usize = 0;
        while i < n
            invariant
                0 <= i <= n,
                data_start + n <= bytes@.len(),
                out@ == bytes@.subrange(data_start as int, data_start as int + i as int),
            decreases n - i,
        {
            out.push(bytes[data_start + i]);
            proof {
                assert(bytes@.subrange(data_start as int, data_start as int + i + 1)
                    =~= bytes@.subrange(data_start as int, data_start as int + i).push(
                    bytes@[data_start + i],
                ));
            }
            i += 1;
        }
        *pos = data_start + n;
        proof {
            assert(bytes@.subrange(start as int, *pos as int) =~= spec_u64_to_le_bytes(n64)
                + out@) by {
                assert(bytes@.subrange(start as int, data_start as int) == spec_u64_to_le_bytes(
                    n64,
                ));
            }
            assert(out@.len() as u64 == n64);
            assert(Self::enc_of(out@) == bytes@.subrange(start as int, *pos as int));
            assert forall|m: Seq<u8>|
                Self::enc_wf(m) && #[trigger] enc_at(bytes@, start as int, Self::enc_of(m))
                    implies m == out@ && *pos == start + Self::enc_of(m).len() by {
                let e = Self::enc_of(m);
                let h = spec_u64_to_le_bytes(m.len() as u64);
                assert(e.subrange(0, 8) =~= h);
                assert(bytes@.subrange(start as int, start as int + 8) =~= e.subrange(0, 8));
                assert(enc_at(bytes@, start as int, <u64 as Codec>::enc_of(m.len() as u64)));
                assert(n64 == m.len() as u64);
                assert(m.len() == n);
                assert(m =~= bytes@.subrange(data_start as int, data_start as int + n as int)) by {
                    assert(forall|q: int|
                        0 <= q < m.len() ==> m[q] == e[8 + q] && e[8 + q] == bytes@[start + 8 + q]);
                }
            }
        }
        Some(out)
    }
}

} // verus!
