//! Per-user probabilistic seen-item set: a fixed-size bit array probed by
//! a fixed number of hash functions. Membership tests may report a false
//! positive, but an id that was added is always reported as present.

use vstd::prelude::*;

verus! {

/// Size of the bit array in bytes (2^14 bytes = 2^17 bits, sized for
/// roughly ten thousand entries per user at a false-positive rate
/// comfortably under one percent).
pub const FILTER_BYTES: usize = 16384;

/// Number of bits in the array.
pub const FILTER_BITS: u64 = 131072;

/// Number of hash probes per id.
pub const FILTER_HASHES: u64 = 7;

/// 64-bit product reduced modulo 2^64.
pub open spec fn mul_mod64(a: u64, b: u64) -> u64 {
    ((a as int * b as int) % 0x1_0000_0000_0000_0000) as u64
}

/// Integer mixing step: spread the bits of `x` over the whole word.
pub open spec fn spec_mix(x: u64) -> u64 {
    let a = mul_mod64(x ^ (x >> 30), 0xbf58476d1ce4e5b9);
    let b = mul_mod64(a ^ (a >> 27), 0x94d049bb133111eb);
    b ^ (b >> 31)
}

/// Bit position probed for `id` by hash function `k`.
#[verifier::opaque]
pub open spec fn probe_pos(id: u64, k: int) -> int {
    let h1 = spec_mix(id);
    let h2 = spec_mix(id ^ 0x9e3779b97f4a7c15);
    (h1 as int + k * h2 as int) % (FILTER_BITS as int)
}

/// Whether bit `pos` of the array is set.
pub open spec fn bit_set(bits: Seq<u8>, pos: int) -> bool {
    (bits[pos / 8] >> ((pos % 8) as u8)) & 1u8 == 1u8
}

/// Whether every probe position for `id` is set: the membership test.
pub open spec fn contains_spec(bits: Seq<u8>, id: u64) -> bool {
    forall|k: int| 0 <= k < FILTER_HASHES ==> bit_set(bits, #[trigger] probe_pos(id, k))
}

/// Every bit set in `pre` is still set in `post`.
pub open spec fn covers(post: Seq<u8>, pre: Seq<u8>) -> bool {
    &&& post.len() == pre.len()
    &&& forall|p: int| 0 <= p < 8 * pre.len() && bit_set(pre, p) ==> bit_set(post, p)
}

/// A bit array that grew monotonically keeps every id it contained:
/// the filter admits no false negatives across later insertions.
pub proof fn lemma_covers_preserves_contains(pre: Seq<u8>, post: Seq<u8>, id: u64)
    requires
        pre.len() == FILTER_BYTES,
        covers(post, pre),
        contains_spec(pre, id),
    ensures
        contains_spec(post, id),
{
    assert forall|k: int| 0 <= k < FILTER_HASHES implies bit_set(
        post,
        #[trigger] probe_pos(id, k),
    ) by {
        assert(bit_set(pre, probe_pos(id, k)));
        assert(0 <= probe_pos(id, k) < 8 * pre.len()) by {
            reveal(probe_pos);
        }
    }
}

/// Growing monotonically is transitive.
pub proof fn lemma_covers_trans(a: Seq<u8>, b: Seq<u8>, c: Seq<u8>)
    requires
        covers(b, a),
        covers(c, b),
    ensures
        covers(c, a),
{
}

/// Per-user seen-item filter: a bit array of `FILTER_BYTES` bytes.
pub struct SeenFilter {
    bits: Vec<u8>,
}

impl View for SeenFilter {
    type V = Seq<u8>;

    closed spec fn view(&self) -> Seq<u8> {
        self.bits@
    }
}

impl SeenFilter {
    /// The bit array always has its fixed size.
    pub open spec fn wf(&self) -> bool {
        self@.len() == FILTER_BYTES
    }

    /// Fresh filter with every bit clear: it contains nothing yet.
    pub fn new() -> (r: SeenFilter)
        ensures
            r.wf(),
            forall|p: int| 0 <= p < 8 * FILTER_BYTES ==> !bit_set(r@, p),
    {
        let mut bits: Vec<u8> = Vec::new();
        let mut i: usize = 0;
        while i < FILTER_BYTES
            invariant
                0 <= i <= FILTER_BYTES,
                bits@.len() == i,
                forall|j: int| 0 <= j < i ==> bits@[j] == 0u8,
            decreases FILTER_BYTES - i,
        {
            bits.push(0u8);
            i = i + 1;
        }
        proof {
            assert forall|p: int| 0 <= p < 8 * FILTER_BYTES implies !bit_set(bits@, p) by {
                assert(bits@[p / 8] == 0u8);
                let sh = (p % 8) as u8;
                assert((0u8 >> sh) & 1u8 == 0u8) by (bit_vector);
            }
        }
        SeenFilter { bits }
    }

    /// Mixing step used by both probes (and by the index's seedable
    /// layer-draw generator).
    pub(crate) fn mix(x: u64) -> (r: u64)
        ensures
            r == spec_mix(x),
    {
        let a = (((x ^ (x >> 30)) as u128 * 0xbf58476d1ce4e5b9u128)
            % 0x1_0000_0000_0000_0000u128) as u64;
        let b = (((a ^ (a >> 27)) as u128 * 0x94d049bb133111ebu128)
            % 0x1_0000_0000_0000_0000u128) as u64;
        b ^ (b >> 31)
    }

    /// Probe position for `id` under hash function `k`.
    fn probe(id: u64, k: u64) -> (r: usize)
        requires
            k < FILTER_HASHES,
        ensures
            r == probe_pos(id, k as int),
            r < 8 * FILTER_BYTES,
    {
        let h1 = Self::mix(id);
        let h2 = Self::mix(id ^ 0x9e3779b97f4a7c15);
        proof {
            reveal(probe_pos);
            assert((k as int) * (h2 as int) <= 6 * 0xffff_ffff_ffff_ffff) by (nonlinear_arith)
                requires
                    0 <= k as int <= 6,
                    0 <= h2 as int <= 0xffff_ffff_ffff_ffff,
            {}
        }
        let pos = ((h1 as u128 + (k as u128) * (h2 as u128)) % (FILTER_BITS as u128)) as u64;
        pos as usize
    }

    /// Set the bit at position `pos`; every previously set bit stays set.
    fn set_bit(&mut self, pos: usize)
        requires
            old(self).wf(),
            pos < 8 * FILTER_BYTES,
        ensures
            final(self).wf(),
            covers(final(self)@, old(self)@),
            bit_set(final(self)@, pos as int),
    {
        let byte_index = pos / 8;
        let shift = (pos % 8) as u8;
        let old_byte = self.bits[byte_index];
        let new_byte = old_byte | (1u8 << shift);
        self.bits.set(byte_index, new_byte);
        proof {
            let ob = old_byte;
            let sh = shift;
            assert((ob | (1u8 << sh)) >> sh & 1u8 == 1u8) by (bit_vector)
                requires
                    sh < 8,
            ;
            assert forall|p: int|
                0 <= p < 8 * FILTER_BYTES && bit_set(old(self)@, p) implies bit_set(
                self@,
                p,
            ) by {
                if p / 8 == byte_index as int {
                    let s2 = (p % 8) as u8;
                    assert(ob >> s2 & 1u8 == 1u8 ==> (ob | (1u8 << sh)) >> s2 & 1u8 == 1u8)
                        by (bit_vector);
                }
            }
        }
    }

    /// Add `id` to the filter. The id becomes (and every id previously
    /// added stays) visible to `might_contain`.
    pub fn add(&mut self, id: u64)
        requires
            old(self).wf(),
        ensures
            final(self).wf(),
            covers(final(self)@, old(self)@),
            contains_spec(final(self)@, id),
    {
        let ghost pre = self@;
        let mut k: u64 = 0;
        while k < FILTER_HASHES
            invariant
                0 <= k <= FILTER_HASHES,
                self.wf(),
                covers(self@, pre),
                forall|j: int| 0 <= j < k ==> bit_set(self@, #[trigger] probe_pos(id, j)),
            decreases FILTER_HASHES - k,
        {
            let ghost mid = self@;
            let pos = Self::probe(id, k);
            self.set_bit(pos);
            proof {
                lemma_covers_trans(pre, mid, self@);
                assert forall|j: int|
                    0 <= j < k + 1 implies bit_set(self@, #[trigger] probe_pos(id, j)) by {
                    if j < k {
                        assert(bit_set(mid, probe_pos(id, j)));
                        assert(0 <= probe_pos(id, j) < 8 * FILTER_BYTES) by {
                            reveal(probe_pos);
                        }
                    }
                }
            }
            k = k + 1;
        }
    }

    /// Add every id in `ids`: the read-modify-write core of marking a
    /// batch of items as seen for one user.
    pub fn add_all(&mut self, ids: &Vec<u64>)
        requires
            old(self).wf(),
        ensures
            final(self).wf(),
            covers(final(self)@, old(self)@),
            forall|i: int| 0 <= i < ids@.len() ==> contains_spec(final(self)@, #[trigger] ids@[i]),
    {
        let ghost pre = self@;
        let mut i: usize = 0;
        while i < ids.len()
            invariant
                0 <= i <= ids@.len(),
                self.wf(),
                covers(self@, pre),
                forall|j: int| 0 <= j < i ==> contains_spec(self@, #[trigger] ids@[j]),
            decreases ids@.len() - i,
        {
            let ghost mid = self@;
            self.add(ids[i]);
            proof {
                lemma_covers_trans(pre, mid, self@);
                assert forall|j: int|
                    0 <= j < i + 1 implies contains_spec(self@, #[trigger] ids@[j]) by {
                    if j < i {
                        lemma_covers_preserves_contains(mid, self@, ids@[j]);
                    }
                }
            }
            i = i + 1;
        }
    }

    /// Membership test: true whenever `id` was added (no false
    /// negatives), possibly true for an id that never was.
    pub fn might_contain(&self, id: u64) -> (r: bool)
        requires
            self.wf(),
        ensures
            r == contains_spec(self@, id),
    {
        let mut k: u64 = 0;
        while k < FILTER_HASHES
            invariant
                0 <= k <= FILTER_HASHES,
                self.wf(),
                forall|j: int| 0 <= j < k ==> bit_set(self@, #[trigger] probe_pos(id, j)),
            decreases FILTER_HASHES - k,
        {
            let pos = Self::probe(id, k);
            let byte = self.bits[pos / 8];
            let shift = (pos % 8) as u8;
            if (byte >> shift) & 1u8 != 1u8 {
                return false;
            }
            k = k + 1;
        }
        true
    }

    /// The persisted form: the raw bytes of the bit array.
    pub fn to_bytes(&self) -> (r: Vec<u8>)
        requires
            self.wf(),
        ensures
            r@ == self@,
    {
        self.bits.clone()
    }

    /// Rebuild a filter from its persisted bytes; rejected exactly when
    /// the record does not have the fixed size.
    pub fn from_bytes(bytes: Vec<u8>) -> (r: Option<SeenFilter>)
        ensures
            match r {
                Some(f) => bytes@.len() == FILTER_BYTES && f.wf() && f@ == bytes@,
                None => bytes@.len() != FILTER_BYTES,
            },
    {
        if bytes.len() == FILTER_BYTES {
            Some(SeenFilter { bits: bytes })
        } else {
            None
        }
    }
}

} // verus!
