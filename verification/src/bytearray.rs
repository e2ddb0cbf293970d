//! Owned byte buffers used for key material, ciphertexts and encodings.
//!
//! Bit positions use the little-endian order within each byte: bit `i` of
//! byte `j` has the global index `8 * j + i`.

use vstd::prelude::*;

verus! {

/// A byte at position `pos / 8`, read at bit `pos % 8`.
pub open spec fn spec_bit_of_bytes(bs: Seq<u8>, pos: int) -> bool
    recommends
        0 <= pos < 8 * bs.len(),
{
    ((bs[pos / 8] as int) / (vstd::arithmetic::power2::pow2((pos % 8) as nat) as int)) % 2 == 1
}

/// An array of bytes.
#[derive(Debug, Eq)]
pub struct ByteArray {
    /// The bytes, in order.
    pub data: Vec<u8>,
}

impl Clone for ByteArray {
    /// An exact copy of the bytes.
    fn clone(&self) -> (r: Self)
        ensures
            r@ == self@,
    {
        Self::from_bytes(self.data.as_slice())
    }
}

impl View for ByteArray {
    type V = Seq<u8>;

    open spec fn view(&self) -> Seq<u8> {
        self.data@
    }
}

impl PartialEq for ByteArray {
    /// Byte-for-byte equality.  The comparison scans the whole common
    /// prefix, so its running time depends only on the buffer lengths.
    fn eq(&self, other: &Self) -> (r: bool) {
        let mut diff: u8 = 0;
        if self.data.len() != other.data.len() {
            return false;
        }
        let n = self.data.len();
        let mut i: usize = 0;
        while i < n
            invariant
                n == self@.len(),
                n == other@.len(),
                0 <= i <= n,
                diff == 0 <==> self@.take(i as int) =~= other@.take(i as int),
            decreases n - i,
        {
            let a = self.data[i];
            let b = other.data[i];
            proof {
                assert(self@.take(i + 1).drop_last() =~= self@.take(i as int));
                assert(other@.take(i + 1).drop_last() =~= other@.take(i as int));
                assert(a == self@.take(i + 1).last());
                assert(b == other@.take(i + 1).last());
                if diff == 0 && a == b {
                    assert(self@.take(i + 1) =~= other@.take(i + 1));
                }
                assert((a ^ b) == 0 <==> a == b) by (bit_vector);
                assert(diff | (a ^ b) == 0 <==> diff == 0 && (a ^ b) == 0) by (bit_vector);
            }
            diff = diff | (a ^ b);
            i = i + 1;
        }
        proof {
            assert(self@.take(n as int) =~= self@);
            assert(other@.take(n as int) =~= other@);
        }
        diff == 0
    }
}

impl vstd::std_specs::cmp::PartialEqSpecImpl for ByteArray {
    open spec fn obeys_eq_spec() -> bool {
        true
    }

    open spec fn eq_spec(&self, other: &Self) -> bool {
        self@ == other@
    }
}

impl ByteArray {
    /// An empty byte array.
    pub fn new() -> (r: Self)
        ensures
            r@ == Seq::<u8>::empty(),
    {
        let r = Self { data: Vec::new() };
        proof {
            assert(r@ =~= Seq::<u8>::empty());
        }
        r
    }

    /// A copy of the given bytes.
    pub fn from_bytes(data: &[u8]) -> (r: Self)
        ensures
            r@ == data@,
    {
        let mut v: Vec<u8> = Vec::new();
        let mut i: usize = 0;
        while i < data.len()
            invariant
                0 <= i <= data@.len(),
                v@ =~= data@.take(i as int),
            decreases data@.len() - i,
        {
            v.push(data[i]);
            proof {
                assert(v@ =~= data@.take(i + 1));
            }
            i = i + 1;
        }
        proof {
            assert(data@.take(data@.len() as int) =~= data@);
        }
        Self { data: v }
    }

    /// A buffer of `len` fresh random bytes.
    ///
    /// Relies on `rand::fill` with the thread-local generator to fill the
    /// buffer; nothing is assumed about the values drawn.
    #[verifier::external_body]
    pub fn random(len: usize) -> (r: Self)
        ensures
            r@.len() == len,
    {
        let mut data = vec![0u8; len];
        rand::fill(&mut data[..]);
        Self { data }
    }

    /// The concatenation of `self` and `other`.
    pub fn append(&self, other: &Self) -> (r: Self)
        ensures
            r@ == self@ + other@,
    {
        let mut v: Vec<u8> = Vec::new();
        let mut i: usize = 0;
        while i < self.data.len()
            invariant
                0 <= i <= self@.len(),
                v@ =~= self@.take(i as int),
            decreases self@.len() - i,
        {
            v.push(self.data[i]);
            proof {
                assert(v@ =~= self@.take(i + 1));
            }
            i = i + 1;
        }
        let mut j: usize = 0;
        while j < other.data.len()
            invariant
                0 <= j <= other@.len(),
                v@ =~= self@ + other@.take(j as int),
            decreases other@.len() - j,
        {
            v.push(other.data[j]);
            proof {
                assert(v@ =~= self@ + other@.take(j + 1));
            }
            j = j + 1;
        }
        proof {
            assert(self@.take(self@.len() as int) =~= self@);
            assert(other@.take(other@.len() as int) =~= other@);
            assert(self@ + Seq::<u8>::empty() =~= self@);
        }
        Self { data: v }
    }

    /// The concatenation of a list of byte arrays, in order.
    pub fn concat(items: &[&Self]) -> (r: Self)
        ensures
            r@ == items@.map_values(|b: &Self| b@).flatten(),
    {
        let ghost views = items@.map_values(|b: &Self| b@);
        let mut acc = Self::new();
        let mut i: usize = 0;
        proof {
            assert(views.take(0) =~= Seq::<Seq<u8>>::empty());
            assert(acc@ =~= views.take(0).flatten());
        }
        while i < items.len()
            invariant
                0 <= i <= items@.len(),
                views == items@.map_values(|b: &ByteArray| b@),
                acc@ == views.take(i as int).flatten(),
            decreases items@.len() - i,
        {
            acc = acc.append(items[i]);
            proof {
                assert(views.take(i + 1) =~= views.take(i as int).push(views[i as int]));
                views.take(i as int).lemma_flatten_push(views[i as int]);
            }
            i = i + 1;
        }
        proof {
            assert(views.take(views.len() as int) =~= views);
        }
        acc
    }

    /// The bit at global position `pos`, little-endian within each byte.
    pub fn get_bit(&self, pos: usize) -> (r: bool)
        requires
            pos < 8 * self@.len(),
        ensures
            r == spec_bit_of_bytes(self@, pos as int),
    {
        let index = pos / 8;
        let offset = pos % 8;
        let byte = self.data[index];
        proof {
            vstd::bits::lemma_u8_shr_is_div(byte, (offset as u8));
            vstd::bits::lemma_u8_low_bits_mask_is_mod(byte >> (offset as u8), 1);
            vstd::bits::lemma_low_bits_mask_values();
            vstd::arithmetic::power2::lemma2_to64();
        }
        ((byte >> (offset as u8)) & 1) == 1
    }

    /// The buffer without its first `num` bytes; empty when `num` is not
    /// smaller than the length.
    pub fn skip(&self, num: usize) -> (r: Self)
        ensures
            num <= self@.len() ==> r@ == self@.skip(num as int),
            num > self@.len() ==> r@ == Seq::<u8>::empty(),
    {
        let mut v: Vec<u8> = Vec::new();
        if num >= self.data.len() {
            proof {
                if num <= self@.len() {
                    assert(v@ =~= self@.skip(num as int));
                }
                assert(v@ =~= Seq::<u8>::empty());
            }
            return Self { data: v };
        }
        let mut i: usize = num;
        while i < self.data.len()
            invariant
                num <= i <= self@.len(),
                v@ =~= self@.subrange(num as int, i as int),
            decreases self@.len() - i,
        {
            v.push(self.data[i]);
            proof {
                assert(v@ =~= self@.subrange(num as int, i + 1));
            }
            i = i + 1;
        }
        proof {
            assert(v@ =~= self@.skip(num as int));
        }
        Self { data: v }
    }

    /// The two buffers whose concatenation is `self`, cut at `pos`.
    pub fn split_at(&self, pos: usize) -> (r: (Self, Self))
        requires
            pos <= self@.len(),
        ensures
            r.0@ == self@.take(pos as int),
            r.1@ == self@.skip(pos as int),
    {
        let head = self.truncate(pos);
        let tail = self.skip(pos);
        (head, tail)
    }

    /// The first `len` bytes; the whole buffer when `len` exceeds its length.
    pub fn truncate(&self, len: usize) -> (r: Self)
        ensures
            len <= self@.len() ==> r@ == self@.take(len as int),
            len > self@.len() ==> r@ == self@,
    {
        let n = if len <= self.data.len() {
            len
        } else {
            self.data.len()
        };
        let mut v: Vec<u8> = Vec::new();
        let mut i: usize = 0;
        while i < n
            invariant
                0 <= i <= n <= self@.len(),
                v@ =~= self@.take(i as int),
            decreases n - i,
        {
            v.push(self.data[i]);
            proof {
                assert(v@ =~= self@.take(i + 1));
            }
            i = i + 1;
        }
        proof {
            if len > self@.len() {
                assert(v@ =~= self@);
            }
        }
        Self { data: v }
    }

    /// The number of bytes held.
    pub fn len(&self) -> (r: usize)
        ensures
            r == self@.len(),
    {
        self.data.len()
    }
}

} // verus!
