//! The probabilistic membership filter over raw-key fingerprints: a bit
//! array probed at positions derived from a 32-bit hash by repeated
//! rotate-and-add. Fast negative answers, never a false negative.

use vstd::prelude::*;

verus! {

/// Is bit `i` of the bit array set?
pub open spec fn spec_bit(filter: Seq<u8>, i: int) -> bool {
    (filter[i / 8] >> ((i % 8) as u8)) & 1 == 1
}

/// The probe delta derived from a hash: rotate right by 17.
pub open spec fn spec_delta(h: u32) -> u32 {
    (h >> 17) | (h << 15)
}

/// The hash after `j` probe steps.
pub open spec fn spec_probe(h: u32, delta: u32, j: int) -> u32
    decreases j,
{
    if j <= 0 {
        h
    } else {
        vstd::wrapping::u32_specs::wrapping_add(spec_probe(h, delta, j - 1), delta)
    }
}

/// Does the filter answer "possibly present" for hash `h`?
pub open spec fn spec_may_contain(filter: Seq<u8>, k: u8, h: u32) -> bool {
    filter.len() > 0 && forall|j: int|
        0 <= j < k ==> spec_bit(
            filter,
            (#[trigger] spec_probe(h, spec_delta(h), j)) as int % (filter.len() * 8) as int,
        )
}

/// The bit array with bit `i` set.
pub open spec fn spec_set_bit(f: Seq<u8>, i: int) -> Seq<u8> {
    f.update(i / 8, f[i / 8] | (1u8 << ((i % 8) as u8)))
}

/// The bit array after the first `j` probes of hash `h` are set.
pub open spec fn spec_bloom_probe(f: Seq<u8>, h: u32, delta: u32, j: int, nbits: int) -> Seq<u8>
    decreases j,
{
    if j <= 0 {
        f
    } else {
        spec_set_bit(
            spec_bloom_probe(f, h, delta, j - 1, nbits),
            spec_probe(h, delta, j - 1) as int % nbits,
        )
    }
}

/// The bit array after every key's probes, in order.
pub open spec fn spec_bloom_keys(f: Seq<u8>, keys: Seq<u32>, k: u8, nbits: int) -> Seq<u8>
    decreases keys.len(),
{
    if keys.len() == 0 {
        f
    } else {
        spec_bloom_keys(
            spec_bloom_probe(f, keys[0], spec_delta(keys[0]), k as int, nbits),
            keys.skip(1),
            k,
            nbits,
        )
    }
}

/// The configured probe count for a bit budget.
pub open spec fn spec_bloom_k(bits_per_key: int) -> int {
    let k = bits_per_key * 69 / 100;
    if k < 1 {
        1
    } else if k > 30 {
        30
    } else {
        k
    }
}

/// The whole deterministic construction: size the zeroed bit array for the
/// budget, then set every key's probe bits.
pub open spec fn spec_bloom_build(keys: Seq<u32>, bits_per_key: int) -> (Seq<u8>, u8) {
    let k = spec_bloom_k(bits_per_key) as u8;
    let wanted: int = if keys.len() * bits_per_key < 64 {
        64
    } else {
        keys.len() * bits_per_key
    };
    let nbytes = (wanted + 7) / 8;
    (spec_bloom_keys(Seq::new(nbytes as nat, |i: int| 0u8), keys, k, nbytes * 8), k)
}

/// Every set bit of `a` is set in `b`.
pub open spec fn spec_bits_le(a: Seq<u8>, b: Seq<u8>) -> bool {
    a.len() == b.len() && forall|i: int|
        0 <= i < a.len() * 8 && spec_bit(a, i) ==> spec_bit(b, i)
}

/// A positive answer survives setting more bits.
proof fn lemma_may_contain_monotone(a: Seq<u8>, b: Seq<u8>, k: u8, h: u32)
    requires
        spec_bits_le(a, b),
        spec_may_contain(a, k, h),
    ensures
        spec_may_contain(b, k, h),
{
    assert forall|j: int|
        0 <= j < k implies spec_bit(
        b,
        (#[trigger] spec_probe(h, spec_delta(h), j)) as int % (b.len() * 8) as int,
    ) by {
        let pos = spec_probe(h, spec_delta(h), j) as int % (a.len() * 8) as int;
        assert(spec_bit(a, pos));
        assert(0 <= pos < a.len() * 8) by {
            assert(a.len() * 8 > 0) by (nonlinear_arith)
                requires
                    a.len() > 0,
            ;
        }
    }
}

/// The membership filter.
pub struct Bloom {
    /// The bit array, packed eight bits per byte.
    pub filter: Vec<u8>,
    /// How many probes per key.
    pub k: u8,
}

impl Bloom {
    /// A usable filter: non-empty, its bit count fits 32 bits, a sane
    /// probe count.
    pub open spec fn wf(&self) -> bool {
        0 < self.filter@.len() && self.filter@.len() * 8 <= 0xFFFFFFFF && 1 <= self.k <= 30
    }
}

/// Set bit `i` of the bit array.
fn set_bit(filter: &mut Vec<u8>, i: usize)
    requires
        i < old(filter)@.len() * 8,
    ensures
        final(filter)@.len() == old(filter)@.len(),
        spec_bits_le(old(filter)@, final(filter)@),
        spec_bit(final(filter)@, i as int),
        final(filter)@ == spec_set_bit(old(filter)@, i as int),
    {
    let byte_idx = i / 8;
    let shift = (i % 8) as u8;
    proof {
        let ghost flen = filter@.len();
        assert(i / 8 < flen) by (nonlinear_arith)
            requires
                i < flen * 8,
                i >= 0,
        ;
    }
    let b = filter[byte_idx];
    let nb = b | (1u8 << shift);
    filter.set(byte_idx, nb);
    proof {
        let s = shift;
        assert(((b | (1u8 << s)) >> s) & 1 == 1) by (bit_vector)
            requires
                s < 8,
        ;
        assert(forall|t: u8|
            t < 8 && t != s ==> ((b | (1u8 << s)) >> t) & 1 == (b >> t) & 1) by (bit_vector)
            requires
                s < 8,
        ;
        let ghost flen = filter@.len();
        assert forall|j: int|
            0 <= j < old(filter)@.len() * 8 && spec_bit(old(filter)@, j) implies spec_bit(
            filter@,
            j,
        ) by {
            assert(0 <= j / 8 < flen) by (nonlinear_arith)
                requires
                    0 <= j < flen * 8,
            ;
            if j / 8 == byte_idx {
                assert(0 <= j % 8 < 8);
                if j % 8 != s {
                    assert(((b | (1u8 << s)) >> ((j % 8) as u8)) & 1 == (b >> ((j % 8) as u8))
                        & 1);
                }
            }
        }
    }
}

/// Is bit `i` of the bit array set?
fn get_bit(filter: &Vec<u8>, i: usize) -> (r: bool)
    requires
        i < filter@.len() * 8,
    ensures
        r == spec_bit(filter@, i as int),
{
    proof {
        assert(i / 8 < filter@.len()) by (nonlinear_arith)
            requires
                i < filter@.len() * 8,
                i >= 0,
        ;
    }
    let b = filter[i / 8];
    (b >> (i % 8) as u8) & 1 == 1
}

impl Bloom {
    /// Probes per key for a bit budget: about seven tenths of the bits per
    /// key, kept between 1 and 30.
    pub fn bloom_bits_per_key_probes(bits_per_key: usize) -> (r: u8)
        requires
            bits_per_key <= 1000,
        ensures
            1 <= r <= 30,
            r as int == spec_bloom_k(bits_per_key as int),
    {
        let k = bits_per_key * 69 / 100;
        if k < 1 {
            1
        } else if k > 30 {
            30
        } else {
            k as u8
        }
    }

    /// Build a filter over the given key hashes. No inserted key is ever
    /// reported absent: membership testing answers positively for every
    /// hash the filter was built from.
    pub fn build_from_key_hashes(keys: &Vec<u32>, bits_per_key: usize) -> (r: Bloom)
        requires
            bits_per_key <= 1000,
            keys@.len() * bits_per_key + 71 <= 0xFFFFFFFF,
        ensures
            r.wf(),
            8 * r.filter@.len() <= keys@.len() * bits_per_key + 71,
            (r.filter@, r.k) == spec_bloom_build(keys@, bits_per_key as int),
            forall|i: int|
                0 <= i < keys@.len() ==> spec_may_contain(r.filter@, r.k, #[trigger] keys@[i]),
    {
        let k = Bloom::bloom_bits_per_key_probes(bits_per_key);
        proof {
            assert(keys@.len() * bits_per_key >= 0) by (nonlinear_arith);
        }
        let nbits_wanted = {
            let n = keys.len() * bits_per_key;
            if n < 64 {
                64
            } else {
                n
            }
        };
        let nbytes = (nbits_wanted + 7) / 8;
        let nbits = nbytes * 8;
        let mut filter: Vec<u8> = Vec::new();
        let mut z: usize = 0;
        while z < nbytes
            invariant
                filter@.len() == z,
                0 <= z <= nbytes,
                filter@ == Seq::new(z as nat, |t: int| 0u8),
            decreases nbytes - z,
        {
            filter.push(0);
            proof {
                assert(filter@ =~= Seq::new(z as nat + 1, |t: int| 0u8));
            }
            z += 1;
        }
        let ghost zeros = filter@;
        let mut i: usize = 0;
        proof {
            assert(keys@.skip(0) =~= keys@);
        }
        while i < keys.len()
            invariant
                0 <= i <= keys@.len(),
                filter@.len() == nbytes,
                nbytes >= 8,
                nbits == nbytes * 8,
                nbits <= 0xFFFFFFFF,
                1 <= k <= 30,
                spec_bloom_keys(zeros, keys@, k, nbits as int) == spec_bloom_keys(
                    filter@,
                    keys@.skip(i as int),
                    k,
                    nbits as int,
                ),
                forall|t: int|
                    0 <= t < i ==> spec_may_contain(filter@, k, #[trigger] keys@[t]),
            decreases keys@.len() - i,
        {
            let ghost before_key = filter@;
            let h0 = keys[i];
            let delta = (h0 >> 17) | (h0 << 15);
            let mut h = h0;
            let mut j: u8 = 0;
            while j < k
                invariant
                    0 <= j <= k,
                    k <= 30,
                    filter@.len() == nbytes,
                    nbytes >= 8,
                    nbits == nbytes * 8,
                    nbits <= 0xFFFFFFFF,
                    delta == spec_delta(h0),
                    h == spec_probe(h0, delta, j as int),
                    filter@ == spec_bloom_probe(before_key, h0, delta, j as int, nbits as int),
                    spec_bits_le(before_key, filter@),
                    forall|t: int|
                        0 <= t < j ==> spec_bit(
                            filter@,
                            (#[trigger] spec_probe(h0, delta, t)) as int % (nbytes * 8) as int,
                        ),
                decreases k - j,
            {
                proof {
                    assert(nbits > 0);
                }
                let bit_pos = (h % (nbits as u32)) as usize;
                proof {
                    assert(h % (nbits as u32) < nbits as u32) by (nonlinear_arith)
                        requires
                            nbits as u32 > 0,
                    ;
                    assert(h as int % (filter@.len() * 8) as int == bit_pos as int) by {
                        assert(nbits as u32 as int == nbits as int);
                    }
                }
                let ghost before = filter@;
                set_bit(&mut filter, bit_pos);
                proof {
                    assert forall|t: int|
                        0 <= t < j + 1 implies spec_bit(
                        filter@,
                        (#[trigger] spec_probe(h0, delta, t)) as int % (nbytes * 8) as int,
                    ) by {
                        if t < j {
                            let pos = spec_probe(h0, delta, t) as int % (nbytes * 8) as int;
                            assert(spec_bit(before, pos));
                            assert(0 <= pos < nbytes * 8) by (nonlinear_arith)
                                requires
                                    nbytes >= 8,
                                    pos == spec_probe(h0, delta, t) as int % (nbytes * 8) as int,
                            ;
                        } else {
                            assert(spec_probe(h0, delta, t) == h);
                        }
                    }
                }
                h = h.wrapping_add(delta);
                j += 1;
            }
            proof {
                assert forall|t: int|
                    0 <= t < i + 1 implies spec_may_contain(filter@, k, #[trigger] keys@[t]) by {
                    if t < i {
                        lemma_may_contain_monotone(before_key, filter@, k, keys@[t]);
                    } else {
                        assert(filter@.len() * 8 == nbytes * 8);
                    }
                }
                assert(keys@.skip(i as int)[0] == keys@[i as int]);
                assert(keys@.skip(i as int).skip(1) =~= keys@.skip(i + 1));
                assert(h0 == keys@[i as int]);
                assert(filter@ == spec_bloom_probe(
                    before_key,
                    keys@[i as int],
                    spec_delta(keys@[i as int]),
                    k as int,
                    nbits as int,
                ));
                assert(spec_bloom_keys(before_key, keys@.skip(i as int), k, nbits as int)
                    == spec_bloom_keys(filter@, keys@.skip(i + 1), k, nbits as int));
            }
            i += 1;
        }
        Bloom { filter, k }
    }

    /// Probe the filter: `false` means the key was certainly never
    /// inserted; `true` means it may have been.
    pub fn may_contain(&self, h0: u32) -> (r: bool)
        requires
            self.wf(),
        ensures
            r == spec_may_contain(self.filter@, self.k, h0),
    {
        let nbits = self.filter.len() * 8;
        proof {
            assert(self.filter@.len() * 8 > 0) by (nonlinear_arith)
                requires
                    self.filter@.len() > 0,
            ;
        }
        let delta = (h0 >> 17) | (h0 << 15);
        let mut h = h0;
        let mut j: u8 = 0;
        let mut ok = true;
        while j < self.k
            invariant
                0 <= j <= self.k,
                nbits == self.filter@.len() * 8,
                0 < nbits <= 0xFFFFFFFF,
                delta == spec_delta(h0),
                h == spec_probe(h0, delta, j as int),
                ok,
                forall|t: int|
                    0 <= t < j ==> spec_bit(
                        self.filter@,
                        (#[trigger] spec_probe(h0, delta, t)) as int % (self.filter@.len()
                            * 8) as int,
                    ),
            decreases self.k - j,
        {
            let bit_pos = (h % (nbits as u32)) as usize;
            proof {
                assert(h % (nbits as u32) < nbits as u32) by (nonlinear_arith)
                    requires
                        nbits as u32 > 0,
                ;
                assert(nbits as u32 as int == nbits as int);
            }
            if !get_bit(&self.filter, bit_pos) {
                return false;
            }
            h = h.wrapping_add(delta);
            j += 1;
        }
        true
    }

    /// Encode the filter: the bit array followed by the probe count.
    pub fn encode(&self) -> (r: Vec<u8>)
        ensures
            r@ == self.filter@.push(self.k),
    {
        let mut out = self.filter.clone();
        out.push(self.k);
        out
    }

    /// Decode a filter: the final byte is the probe count.
    pub fn decode(bytes: &[u8]) -> (r: Option<Bloom>)
        ensures
            bytes@.len() == 0 ==> r is None,
            bytes@.len() > 0 ==> (r matches Some(b) && b.filter@ == bytes@.take(
                bytes@.len() - 1,
            ) && b.k == bytes@.last()),
    {
        let n = bytes.len();
        if n == 0 {
            return None;
        }
        let k = bytes[n - 1];
        let filter = crate::encoding::copy_range(bytes, 0, n - 1);
        proof {
            assert(bytes@.subrange(0, n - 1) =~= bytes@.take(bytes@.len() - 1));
        }
        Some(Bloom { filter, k })
    }
}

} // verus!
