//! A growable sequence of bits stored in bytes, least significant bit first.
use vstd::prelude::*;

verus! {

/// Bit `r` (0 is the least significant) of the byte `b`.
pub open spec fn byte_bit(b: u8, r: u8) -> bool {
    (b >> r) & 1u8 == 1u8
}

/// Bit `k` of a byte sequence: bit `k % 8` of byte `k / 8`.
pub open spec fn bit_at(s: Seq<u8>, k: int) -> bool {
    byte_bit(s[k / 8], (k % 8) as u8)
}

/// Every bit of a byte sequence, byte 0 first and each byte from its lowest bit.
pub open spec fn bits_of(s: Seq<u8>) -> Seq<bool> {
    Seq::new((8 * s.len()) as nat, |k: int| bit_at(s, k))
}

/// The eight bits of one byte, lowest first.
pub open spec fn byte_bits(b: u8) -> Seq<bool> {
    Seq::new(8, |r: int| byte_bit(b, r as u8))
}

/// How many entries of `bs` are `true`.
pub open spec fn count_true(bs: Seq<bool>) -> nat
    decreases bs.len(),
{
    if bs.len() == 0 {
        0
    } else {
        count_true(bs.drop_last()) + if bs.last() {
            1nat
        } else {
            0nat
        }
    }
}

/// Bit `k` of a byte sequence, where bits past its end read as clear.
pub open spec fn mask_bit(s: Seq<u8>, k: int) -> bool {
    0 <= k < 8 * s.len() && bit_at(s, k)
}

/// The number of set bits in a byte sequence.
pub open spec fn ones(s: Seq<u8>) -> nat {
    count_true(bits_of(s))
}

/// `n` zero bytes.
pub open spec fn zeros(n: int) -> Seq<u8> {
    Seq::new(n as nat, |i: int| 0u8)
}

/// `s` cut, or padded with zero bytes, to exactly `n` bytes.
pub open spec fn fit_bytes(s: Seq<u8>, n: int) -> Seq<u8> {
    if s.len() > n {
        s.take(n)
    } else {
        s + zeros(n - s.len())
    }
}

/// The number of bytes needed to hold `n` bits.
pub open spec fn bytes_for_bits(n: int) -> int {
    (n + 7) / 8
}

/// The bytes of a mask in which only bit `index` is set.
pub open spec fn single_bit_bytes(index: u16) -> Seq<u8> {
    zeros((index / 8) as int).push(1u8 << ((index % 8) as u8))
}

/// The bytes of `s` once bit `index` is set: padded with zero bytes up to byte
/// `index / 8` where `s` is shorter, and that byte with the bit set.
pub open spec fn set_bit_bytes(s: Seq<u8>, index: u16) -> Seq<u8> {
    let n = if s.len() > index / 8 {
        s.len() as int
    } else {
        index / 8 + 1
    };
    let padded = fit_bytes(s, n);
    padded.update((index / 8) as int, padded[(index / 8) as int] | (1u8 << ((index % 8) as u8)))
}

/// The bytes of `s` once bit `index` is cleared.
pub open spec fn reset_bit_bytes(s: Seq<u8>, index: u16) -> Seq<u8> {
    s.update((index / 8) as int, s[(index / 8) as int] & (0xffu8 ^ (1u8 << ((index % 8) as u8))))
}

/// The bits `bs` once bit `id` is removed: the higher bits move down one place
/// and a clear bit comes in at the top.
pub open spec fn discarded(bs: Seq<bool>, id: int) -> Seq<bool> {
    bs.remove(id).push(false)
}

/// A sequence of bits kept in bytes; bit `k` lives in byte `k / 8`.
#[derive(Debug, PartialEq, Clone)]
pub struct BitMask(Vec<u8>);

impl View for BitMask {
    type V = Seq<u8>;

    closed spec fn view(&self) -> Seq<u8> {
        self.0@
    }
}

impl BitMask {
    /// The bits of the mask.
    pub open spec fn bits(&self) -> Seq<bool> {
        bits_of(self@)
    }

    /// Appends `extension` zero bytes.
    pub fn extend_by_bytes(&mut self, extension: u16)
        ensures
            final(self)@ == old(self)@ + zeros(extension as int),
    {
        let mut i: u16 = 0;
        while i < extension
            invariant
                i <= extension,
                self@ == old(self)@ + zeros(i as int),
            decreases extension - i,
        {
            self.0.push(0u8);
            i = i + 1;
            assert(self@ =~= old(self)@ + zeros(i as int));
        }
    }

    /// Drops the last `shrinkage` bytes.
    pub(crate) fn shrink_by_bytes(&mut self, shrinkage: u16)
        requires
            old(self)@.len() >= shrinkage,
        ensures
            final(self)@ == old(self)@.take(old(self)@.len() - shrinkage),
    {
        let mut i: u16 = 0;
        while i < shrinkage
            invariant
                i <= shrinkage,
                old(self)@.len() >= shrinkage,
                self@ == old(self)@.take(old(self)@.len() - i),
            decreases shrinkage - i,
        {
            let _ = self.0.pop();
            i = i + 1;
            assert(self@ =~= old(self)@.take(old(self)@.len() - i));
        }
    }

    /// Cuts or zero-pads the mask to the bytes needed for `size` bits.
    pub fn fit_to_number_of_bits(&mut self, size: u16)
        requires
            old(self)@.len() <= u16::MAX,
        ensures
            final(self)@ == fit_bytes(old(self)@, bytes_for_bits(size as int)),
    {
        assert(size >> 3 <= 8191) by (bit_vector);
        let bytes: u16 = (size >> 3) + if size & 0b111 != 0 {
            1
        } else {
            0
        };
        assert(bytes == (size + 7) / 8) by (bit_vector)
            requires
                bytes == (size >> 3) + if size & 0b111 != 0 {
                    1u16
                } else {
                    0u16
                },
        ;
        self.fit_to_bytes(bytes);
    }

    /// Cuts or zero-pads the mask to exactly `bytes` bytes.
    pub fn fit_to_bytes(&mut self, bytes: u16)
        requires
            old(self)@.len() <= u16::MAX,
        ensures
            final(self)@ == fit_bytes(old(self)@, bytes as int),
    {
        let len = self.0.len();
        if len > bytes as usize {
            let len16 = len as u16;
            self.shrink_by_bytes(len16 - bytes);
        } else if len < bytes as usize {
            let len16 = len as u16;
            self.extend_by_bytes(bytes - len16);
        } else {
            assert(self@ =~= fit_bytes(old(self)@, bytes as int));
        }
    }

    /// Removes bit `id`: every higher bit moves down one place and the top bit becomes 0.
    pub fn discard_bit(&mut self, id: u16)
        requires
            (id / 8) < old(self)@.len(),
        ensures
            final(self)@.len() == old(self)@.len(),
            final(self).bits() == discarded(old(self).bits(), id as int),
            ones(final(self)@) + (if bit_at(old(self)@, id as int) {
                1int
            } else {
                0int
            }) == ones(old(self)@),
    {
        let div = id >> 3;
        let rem = (id & 7) as u8;
        proof {
            lemma_div_rem(id);
        }
        let len = self.0.len();
        let ghost o = old(self)@;
        let mut prev_carry: u8 = 0;
        let mut i: usize = len;
        while i > div as usize + 1
            invariant
                div as usize + 1 <= i <= len,
                len == o.len(),
                o == old(self)@,
                self@.len() == len,
                prev_carry == if i < len {
                    o[i as int] & 1
                } else {
                    0u8
                },
                forall|j: int| 0 <= j < i ==> self@[j] == o[j],
                forall|j: int|
                    i <= j < len ==> #[trigger] self@[j] == ((o[j] >> 1u8) | ((if j + 1 < len {
                        o[j + 1] & 1
                    } else {
                        0u8
                    }) << 7u8)),
            decreases i,
        {
            i = i - 1;
            let b = self.0[i];
            let new_carry = b & 1;
            self.0[i] = (b >> 1) | (prev_carry << 7);
            prev_carry = new_carry;
        }
        let b = self.0[div as usize];
        let hi: u8 = if rem < 7 {
            0xffu8 << (rem + 1)
        } else {
            0
        };
        let lo: u8 = if rem > 0 {
            0xffu8 >> (8 - rem)
        } else {
            0
        };
        self.0[div as usize] = ((b & hi) >> 1) | (b & lo) | (prev_carry << 7);
        proof {
            let n = self@;
            let d = div as int;
            if d + 1 < len {
                lemma_low_bit(o[d + 1]);
            }
            assert forall|k: int| 0 <= k < 8 * len implies #[trigger] bits_of(n)[k] == removed_bit(
                o,
                id as int,
                k,
            ) by {
                let q = k / 8;
                let r = (k % 8) as u8;
                if q < d {
                } else if q == d {
                    lemma_discard_byte(b, hi, lo, rem, prev_carry, r);
                    if r == 7 && q + 1 < len {
                        assert(bit_at(o, k + 1) == byte_bit(o[q + 1], 0));
                        lemma_low_bit(o[q + 1]);
                    }
                } else {
                    let c: u8 = if q + 1 < len {
                        o[q + 1] & 1
                    } else {
                        0u8
                    };
                    lemma_low_bit(o[q + 1]);
                    lemma_shift_byte(o[q], c, r);
                    if r == 7 && q + 1 < len {
                        assert(bit_at(o, k + 1) == byte_bit(o[q + 1], 0));
                    }
                }
            }
            assert forall|k: int| 0 <= k < 8 * len implies #[trigger] bits_of(o).remove(
                id as int,
            ).push(false)[k] == removed_bit(o, id as int, k) by {}
            assert(bits_of(n) =~= bits_of(o).remove(id as int).push(false));
            law_discard_count(o, id as int);
        }
    }

    /// The number of set bits.
    pub fn get_num_ones(&self) -> (n: u16)
        requires
            ones(self@) <= u16::MAX,
        ensures
            n == ones(self@),
    {
        let mut acc: u16 = 0;
        let mut i: usize = 0;
        while i < self.0.len()
            invariant
                i <= self@.len(),
                ones(self@) <= u16::MAX,
                acc == count_true(bits_of(self@).take(8 * i)),
            decreases self@.len() - i,
        {
            let b = self.0[i];
            let c = byte_count_ones(b);
            proof {
                let bs = bits_of(self@);
                assert(bs.take(8 * (i + 1)) =~= bs.take(8 * i) + byte_bits(b));
                lemma_count_true_append(bs.take(8 * i), byte_bits(b));
                lemma_count_true_prefix(bs, 8 * (i + 1));
            }
            acc = acc + c as u16;
            i = i + 1;
        }
        assert(bits_of(self@).take(8 * i) =~= bits_of(self@));
        acc
    }

    /// Whether bit `rhs` is set.
    pub fn check_bit(&self, rhs: u16) -> (set: bool)
        requires
            (rhs / 8) < self@.len(),
        ensures
            set == bit_at(self@, rhs as int),
            set == self.bits()[rhs as int],
    {
        let div = rhs >> 3;
        let rem = (rhs & 7) as u8;
        proof {
            lemma_div_rem(rhs);
        }
        (self.0[div as usize] >> rem) & 1 == 1
    }

    /// Sets bit `index`, first padding the mask with zero bytes up to byte `index / 8`.
    pub fn set_bit(&mut self, index: u16)
        ensures
            final(self)@.len() == if old(self)@.len() > index / 8 {
                old(self)@.len() as int
            } else {
                index / 8 + 1
            },
            final(self)@ == set_bit_bytes(old(self)@, index),
            final(self).bits() == bits_of(fit_bytes(old(self)@, final(self)@.len() as int)).update(
                index as int,
                true,
            ),
            forall|k: int| #[trigger] mask_bit(final(self)@, k) == (k == index || mask_bit(old(self)@, k)),
    {
        let div = index >> 3;
        let rem = (index & 7) as u8;
        proof {
            lemma_div_rem(index);
        }
        if self.0.len() <= div as usize {
            let len16 = self.0.len() as u16;
            self.extend_by_bytes(div + 1 - len16);
        }
        let ghost padded = self@;
        assert(padded =~= fit_bytes(old(self)@, padded.len() as int));
        let b = self.0[div as usize];
        self.0[div as usize] = b | (1u8 << rem);
        proof {
            assert forall|r: u8| r < 8 implies #[trigger] byte_bit(b | (1u8 << rem), r) == (r
                == rem || byte_bit(b, r)) by {
                lemma_byte_or(b, rem, r);
            }
            lemma_update_byte_bits(padded, div as int, b | (1u8 << rem), rem, true);
            assert forall|k: int| #[trigger] mask_bit(self@, k) == (k == index || mask_bit(old(self)@, k)) by {
                if 0 <= k < 8 * self@.len() {
                    assert(self.bits()[k] == bit_at(self@, k));
                    if k != index {
                        lemma_fit_bit(old(self)@, padded.len() as int, k);
                        assert(bits_of(padded)[k] == bit_at(padded, k));
                    }
                }
            }
        }
    }

    /// Clears bit `index`.
    pub fn reset_bit(&mut self, index: u16)
        requires
            (index / 8) < old(self)@.len(),
        ensures
            final(self)@ == reset_bit_bytes(old(self)@, index),
            final(self)@.len() == old(self)@.len(),
            final(self).bits() == old(self).bits().update(index as int, false),
            forall|k: int| #[trigger] mask_bit(final(self)@, k) == (k != index && mask_bit(old(self)@, k)),
    {
        let div = index >> 3;
        let rem = (index & 7) as u8;
        proof {
            lemma_div_rem(index);
        }
        let b = self.0[div as usize];
        self.0[div as usize] = b & (0xffu8 ^ (1u8 << rem));
        proof {
            assert forall|r: u8| r < 8 implies #[trigger] byte_bit(b & (0xffu8 ^ (1u8 << rem)), r)
                == (r != rem && byte_bit(b, r)) by {
                lemma_byte_clear(b, rem, r);
            }
            lemma_update_byte_bits(old(self)@, div as int, b & (0xffu8 ^ (1u8 << rem)), rem, false);
            assert forall|k: int| #[trigger] mask_bit(self@, k) == (k != index && mask_bit(old(self)@, k)) by {
                if 0 <= k < 8 * self@.len() {
                    assert(self.bits()[k] == bit_at(self@, k));
                    assert(old(self).bits()[k] == bit_at(old(self)@, k));
                }
            }
        }
    }

    /// The bytes of the mask.
    pub fn ref_vec(&self) -> (v: &Vec<u8>)
        ensures
            v@ == self@,
    {
        &self.0
    }
}

impl BitMask {
    /// A mask of `index / 8 + 1` bytes in which only bit `index` is set.
    pub fn from_index(index: u16) -> (m: BitMask)
        ensures
            m@ == single_bit_bytes(index),
            m.bits() == Seq::new((8 * (index / 8 + 1)) as nat, |k: int| k == index),
    {
        let div = index >> 3;
        let rem = (index & 7) as u8;
        proof {
            lemma_div_rem(index);
        }
        let mut v: Vec<u8> = Vec::new();
        let mut i: u16 = 0;
        while i < div
            invariant
                i <= div,
                v@ == zeros(i as int),
            decreases div - i,
        {
            v.push(0u8);
            i = i + 1;
            assert(v@ =~= zeros(i as int));
        }
        v.push(1u8 << rem);
        let m = BitMask(v);
        proof {
            assert(m@ =~= single_bit_bytes(index));
            assert forall|k: int| 0 <= k < 8 * (index / 8 + 1) implies #[trigger] bits_of(m@)[k]
                == (k == index) by {
                let q = k / 8;
                let r = (k % 8) as u8;
                lemma_single_bit(rem, r);
                lemma_zero_bit(r);
            }
            assert(m.bits() =~= Seq::new((8 * (index / 8 + 1)) as nat, |k: int| k == index));
        }
        m
    }
}

impl From<u16> for BitMask {
    fn from(value: u16) -> (m: Self)
        ensures
            m@ == single_bit_bytes(value),
    {
        Self::from_index(value)
    }
}

impl vstd::std_specs::convert::FromSpecImpl<u16> for BitMask {
    open spec fn obeys_from_spec() -> bool {
        false
    }

    open spec fn from_spec(v: u16) -> Self {
        arbitrary()
    }
}

impl From<Vec<u8>> for BitMask {
    fn from(value: Vec<u8>) -> (m: Self)
        ensures
            m@ == value@,
    {
        BitMask(value)
    }
}

impl vstd::std_specs::convert::FromSpecImpl<Vec<u8>> for BitMask {
    open spec fn obeys_from_spec() -> bool {
        true
    }

    closed spec fn from_spec(v: Vec<u8>) -> Self {
        BitMask(v)
    }
}

proof fn lemma_single_bit(rem: u8, r: u8)
    requires
        rem < 8,
        r < 8,
    ensures
        byte_bit(1u8 << rem, r) == (r == rem),
{
    assert((((1u8 << rem) >> r) & 1u8 == 1u8) == (r == rem)) by (bit_vector)
        requires
            rem < 8,
            r < 8,
    ;
}

proof fn lemma_zero_bit(r: u8)
    requires
        r < 8,
    ensures
        !byte_bit(0u8, r),
{
    assert(!((0u8 >> r) & 1u8 == 1u8)) by (bit_vector);
}

/// The number of set bits of one byte.
pub(crate) fn byte_count_ones(b: u8) -> (n: u8)
    ensures
        n == count_true(byte_bits(b)),
        n <= 8,
{
    let mut n: u8 = 0;
    let mut r: u8 = 0;
    while r < 8
        invariant
            r <= 8,
            n == count_true(byte_bits(b).take(r as int)),
            n <= r,
        decreases 8 - r,
    {
        proof {
            let bs = byte_bits(b);
            assert(bs.take(r + 1).drop_last() =~= bs.take(r as int));
        }
        if (b >> r) & 1 == 1 {
            n = n + 1;
        }
        r = r + 1;
    }
    assert(byte_bits(b).take(8) =~= byte_bits(b));
    n
}

/// Bit `k` of `s` after bit `id` is removed and a zero is shifted in at the top.
spec fn removed_bit(s: Seq<u8>, id: int, k: int) -> bool {
    if k < id {
        bit_at(s, k)
    } else if k + 1 < 8 * s.len() {
        bit_at(s, k + 1)
    } else {
        false
    }
}

proof fn lemma_low_bit(x: u8)
    ensures
        (x & 1 == 1) == byte_bit(x, 0),
        x & 1 <= 1,
{
    assert((x & 1 == 1) == ((x >> 0u8) & 1u8 == 1u8)) by (bit_vector);
    assert(x & 1 <= 1) by (bit_vector);
}

proof fn lemma_shift_byte(b: u8, c: u8, r: u8)
    requires
        c <= 1,
        r < 8,
    ensures
        byte_bit((b >> 1u8) | (c << 7u8), r) == if r < 7 {
            byte_bit(b, (r + 1) as u8)
        } else {
            c == 1
        },
{
    assert((((b >> 1u8) | (c << 7u8)) >> r) & 1u8 == 1u8 <==> if r < 7 {
        (b >> ((r + 1) as u8)) & 1u8 == 1u8
    } else {
        c == 1
    }) by (bit_vector)
        requires
            c <= 1,
            r < 8,
    ;
}

proof fn lemma_discard_byte(b: u8, hi: u8, lo: u8, rem: u8, c: u8, r: u8)
    requires
        rem < 8,
        r < 8,
        c <= 1,
        hi == if rem < 7 {
            0xffu8 << ((rem + 1) as u8)
        } else {
            0u8
        },
        lo == if rem > 0 {
            0xffu8 >> ((8 - rem) as u8)
        } else {
            0u8
        },
    ensures
        byte_bit(((b & hi) >> 1u8) | (b & lo) | (c << 7u8), r) == if r < rem {
            byte_bit(b, r)
        } else if r < 7 {
            byte_bit(b, (r + 1) as u8)
        } else {
            c == 1
        },
{
    assert((((((b & hi) >> 1u8) | (b & lo) | (c << 7u8)) >> r) & 1u8 == 1u8) <==> if r < rem {
        (b >> r) & 1u8 == 1u8
    } else if r < 7 {
        (b >> ((r + 1) as u8)) & 1u8 == 1u8
    } else {
        c == 1
    }) by (bit_vector)
        requires
            rem < 8,
            r < 8,
            c <= 1,
            hi == if rem < 7 {
                0xffu8 << ((rem + 1) as u8)
            } else {
                0u8
            },
            lo == if rem > 0 {
                0xffu8 >> ((8 - rem) as u8)
            } else {
                0u8
            },
    ;
}

proof fn lemma_div_rem(x: u16)
    ensures
        x >> 3 == x / 8,
        x & 7 == x % 8,
        (x / 8) * 8 <= x,
{
    assert(x >> 3 == x / 8) by (bit_vector);
    assert(x & 7 == x % 8) by (bit_vector);
}

proof fn lemma_byte_or(b: u8, rem: u8, r: u8)
    requires
        rem < 8,
        r < 8,
    ensures
        byte_bit(b | (1u8 << rem), r) == (r == rem || byte_bit(b, r)),
{
    assert(((b | (1u8 << rem)) >> r) & 1u8 == 1u8 <==> (r == rem || (b >> r) & 1u8 == 1u8))
        by (bit_vector)
        requires
            rem < 8,
            r < 8,
    ;
}

proof fn lemma_byte_clear(b: u8, rem: u8, r: u8)
    requires
        rem < 8,
        r < 8,
    ensures
        byte_bit(b & (0xffu8 ^ (1u8 << rem)), r) == (r != rem && byte_bit(b, r)),
{
    assert(((b & (0xffu8 ^ (1u8 << rem))) >> r) & 1u8 == 1u8 <==> (r != rem && (b >> r) & 1u8
        == 1u8)) by (bit_vector)
        requires
            rem < 8,
            r < 8,
    ;
}

/// Replacing byte `j` by one that differs from it only in bit `rem` changes only bit `8 * j + rem`.
proof fn lemma_update_byte_bits(s: Seq<u8>, j: int, nb: u8, rem: u8, v: bool)
    requires
        0 <= j < s.len(),
        rem < 8,
        forall|r: u8| r < 8 ==> #[trigger] byte_bit(nb, r) == if r == rem {
            v
        } else {
            byte_bit(s[j], r)
        },
    ensures
        bits_of(s.update(j, nb)) == bits_of(s).update(8 * j + rem, v),
{
    let t = s.update(j, nb);
    assert forall|k: int| 0 <= k < 8 * s.len() implies #[trigger] bits_of(t)[k] == bits_of(
        s,
    ).update(8 * j + rem, v)[k] by {
        let q = k / 8;
        let r = (k % 8) as u8;
        if q == j {
            assert(byte_bit(nb, r) == if r == rem {
                v
            } else {
                byte_bit(s[j], r)
            });
        }
    }
    assert(bits_of(t) =~= bits_of(s).update(8 * j + rem, v));
}

/// Cutting or padding keeps every bit below the new end; bits past it read as clear.
pub proof fn lemma_fit_bit(s: Seq<u8>, n: int, k: int)
    requires
        n >= 0,
    ensures
        mask_bit(fit_bytes(s, n), k) == (k < 8 * n && mask_bit(s, k)),
{
    let f = fit_bytes(s, n);
    if 0 <= k < 8 * n {
        let q = k / 8;
        if q < s.len() {
            assert(f[q] == s[q]);
        } else {
            assert(f[q] == 0u8);
            lemma_zero_bit((k % 8) as u8);
        }
    }
}

/// No bit of zero bytes is set.
pub proof fn lemma_zero_bytes_bit(m: int, k: int)
    requires
        m >= 0,
    ensures
        !mask_bit(zeros(m), k),
{
    if 0 <= k < 8 * m {
        lemma_zero_bit((k % 8) as u8);
    }
}

/// The bits of a mask that `set_bit` produced from an empty one.
pub proof fn lemma_single_set_bit(after: BitMask, index: u16, k: int)
    requires
        after@.len() == index / 8 + 1,
        after.bits() == bits_of(fit_bytes(Seq::empty(), after@.len() as int)).update(
            index as int,
            true,
        ),
    ensures
        mask_bit(after@, k) == (k == index),
{
    if 0 <= k < 8 * after@.len() {
        assert(fit_bytes(Seq::<u8>::empty(), after@.len() as int) =~= zeros(after@.len() as int));
        assert(after.bits()[k] == mask_bit(after@, k));
        if k != index {
            lemma_zero_bytes_bit(after@.len() as int, k);
        }
    }
}

/// A set bit is counted.
pub proof fn lemma_ones_positive(s: Seq<u8>, k: int)
    requires
        mask_bit(s, k),
    ensures
        ones(s) >= 1,
    decreases bits_of(s).len(),
{
    lemma_count_true_positive(bits_of(s), k);
}

pub proof fn lemma_count_true_positive(bs: Seq<bool>, k: int)
    requires
        0 <= k < bs.len(),
        bs[k],
    ensures
        count_true(bs) >= 1,
    decreases bs.len(),
{
    if k < bs.len() - 1 {
        lemma_count_true_positive(bs.drop_last(), k);
    }
}

/// When every bit below `n` is set, at least `n` bits are set.
pub proof fn lemma_ones_full(s: Seq<u8>, n: int)
    requires
        0 < n,
        forall|k: int| 0 <= k < n ==> #[trigger] mask_bit(s, k),
    ensures
        ones(s) >= n,
{
    let bs = bits_of(s);
    assert(mask_bit(s, n - 1));
    assert(bs =~= bs.take(n) + bs.skip(n));
    lemma_count_true_append(bs.take(n), bs.skip(n));
    assert forall|k: int| 0 <= k < bs.take(n).len() implies #[trigger] bs.take(n)[k] by {
        assert(mask_bit(s, k));
    }
    lemma_count_true_all(bs.take(n));
}

pub proof fn lemma_count_true_all(bs: Seq<bool>)
    requires
        forall|k: int| 0 <= k < bs.len() ==> #[trigger] bs[k],
    ensures
        count_true(bs) == bs.len(),
    decreases bs.len(),
{
    if bs.len() > 0 {
        lemma_count_true_all(bs.drop_last());
    }
}

/// A mask whose only set bit is `i` has one set bit.
pub proof fn lemma_ones_single(s: Seq<u8>, i: int)
    requires
        forall|k: int| #[trigger] mask_bit(s, k) == (k == i),
    ensures
        ones(s) == 1,
{
    let bs = bits_of(s);
    assert(mask_bit(s, i));
    assert(bs =~= bs.take(i) + seq![true] + bs.skip(i + 1));
    lemma_count_true_append(bs.take(i) + seq![true], bs.skip(i + 1));
    lemma_count_true_append(bs.take(i), seq![true]);
    assert forall|k: int| 0 <= k < bs.take(i).len() implies !#[trigger] bs.take(i)[k] by {
        assert(!mask_bit(s, k));
    }
    lemma_count_true_none(bs.take(i));
    assert forall|k: int| 0 <= k < bs.skip(i + 1).len() implies !#[trigger] bs.skip(i + 1)[k] by {
        assert(!mask_bit(s, k + i + 1));
    }
    lemma_count_true_none(bs.skip(i + 1));
    assert(count_true(seq![true]) == 1) by {
        reveal_with_fuel(count_true, 2);
        assert(seq![true].drop_last() =~= Seq::<bool>::empty());
    }
}

/// When no bit at or past `n` is set, at most `n` bits are set.
pub proof fn lemma_ones_bounded(s: Seq<u8>, n: int)
    requires
        0 <= n,
        forall|k: int| n <= k ==> !#[trigger] mask_bit(s, k),
    ensures
        ones(s) <= n,
{
    let bs = bits_of(s);
    if n < bs.len() {
        assert(bs =~= bs.take(n) + bs.skip(n));
        lemma_count_true_append(bs.take(n), bs.skip(n));
        lemma_count_true_le_len(bs.take(n));
        assert forall|k: int| 0 <= k < bs.skip(n).len() implies !#[trigger] bs.skip(n)[k] by {
            assert(!mask_bit(s, k + n));
        }
        lemma_count_true_none(bs.skip(n));
    } else {
        lemma_count_true_le_len(bs);
    }
}

pub proof fn lemma_count_true_le_len(bs: Seq<bool>)
    ensures
        count_true(bs) <= bs.len(),
    decreases bs.len(),
{
    if bs.len() > 0 {
        lemma_count_true_le_len(bs.drop_last());
    }
}

pub proof fn lemma_count_true_none(bs: Seq<bool>)
    requires
        forall|k: int| 0 <= k < bs.len() ==> !#[trigger] bs[k],
    ensures
        count_true(bs) == 0,
    decreases bs.len(),
{
    if bs.len() > 0 {
        lemma_count_true_none(bs.drop_last());
    }
}

pub proof fn lemma_count_true_append(a: Seq<bool>, b: Seq<bool>)
    ensures
        count_true(a + b) == count_true(a) + count_true(b),
    decreases b.len(),
{
    if b.len() == 0 {
        assert(a + b =~= a);
    } else {
        assert((a + b).drop_last() =~= a + b.drop_last());
        lemma_count_true_append(a, b.drop_last());
    }
}

pub proof fn lemma_count_true_prefix(bs: Seq<bool>, m: int)
    requires
        0 <= m <= bs.len(),
    ensures
        count_true(bs.take(m)) <= count_true(bs),
{
    assert(bs =~= bs.take(m) + bs.skip(m));
    lemma_count_true_append(bs.take(m), bs.skip(m));
}


/// The bits of the mask that has only bit `index` set.
pub proof fn lemma_single_bit_bytes_bits(index: u16)
    ensures
        bits_of(single_bit_bytes(index)) == Seq::new((8 * (index / 8 + 1)) as nat, |k: int| k == index),
        forall|k: int| #[trigger] mask_bit(single_bit_bytes(index), k) == (k == index),
{
    let s = single_bit_bytes(index);
    let rem = (index % 8) as u8;
    assert forall|k: int| 0 <= k < 8 * (index / 8 + 1) implies #[trigger] bits_of(s)[k] == (k
        == index) by {
        let r = (k % 8) as u8;
        lemma_single_bit(rem, r);
        lemma_zero_bit(r);
    }
    assert(bits_of(s) =~= Seq::new((8 * (index / 8 + 1)) as nat, |k: int| k == index));
    assert forall|k: int| #[trigger] mask_bit(s, k) == (k == index) by {
        if 0 <= k < 8 * s.len() {
            assert(bits_of(s)[k] == bit_at(s, k));
        }
    }
}

/// Bits past the end of two byte sequences of one length agree when every bit does.
pub proof fn lemma_ones_same(s: Seq<u8>, t: Seq<u8>)
    requires
        s.len() == t.len(),
        forall|k: int| #[trigger] mask_bit(t, k) == mask_bit(s, k),
    ensures
        ones(t) == ones(s),
{
    assert forall|k: int| 0 <= k < 8 * s.len() implies #[trigger] bits_of(t)[k] == bits_of(s)[k] by {
        assert(mask_bit(t, k) == mask_bit(s, k));
    }
    assert(bits_of(t) =~= bits_of(s));
}

/// Setting one clear bit of a sequence of flags adds one to the number set.
pub proof fn lemma_count_true_update(bs: Seq<bool>, c: int)
    requires
        0 <= c < bs.len(),
        !bs[c],
    ensures
        count_true(bs.update(c, true)) == count_true(bs) + 1,
{
    let t = bs.update(c, true);
    assert(bs =~= bs.take(c) + seq![false] + bs.skip(c + 1));
    assert(t =~= bs.take(c) + seq![true] + bs.skip(c + 1));
    lemma_count_true_append(bs.take(c) + seq![false], bs.skip(c + 1));
    lemma_count_true_append(bs.take(c), seq![false]);
    lemma_count_true_append(bs.take(c) + seq![true], bs.skip(c + 1));
    lemma_count_true_append(bs.take(c), seq![true]);
    assert(count_true(seq![true]) == 1) by {
        reveal_with_fuel(count_true, 2);
        assert(seq![true].drop_last() =~= Seq::<bool>::empty());
    }
    assert(count_true(seq![false]) == 0) by {
        reveal_with_fuel(count_true, 2);
        assert(seq![false].drop_last() =~= Seq::<bool>::empty());
    }
}

/// A byte sequence that has one more set bit, `c`, than another of its length
/// has one more set bit in all.
pub proof fn lemma_ones_one_more(s: Seq<u8>, t: Seq<u8>, c: int)
    requires
        s.len() == t.len(),
        0 <= c < 8 * s.len(),
        !mask_bit(s, c),
        forall|k: int| #[trigger] mask_bit(t, k) == (mask_bit(s, k) || k == c),
    ensures
        ones(t) == ones(s) + 1,
{
    let bs = bits_of(s);
    assert forall|k: int| 0 <= k < 8 * s.len() implies #[trigger] bits_of(t)[k] == bs.update(
        c,
        true,
    )[k] by {
        assert(mask_bit(t, k) == (mask_bit(s, k) || k == c));
        assert(bs[k] == bit_at(s, k));
    }
    assert(bits_of(t) =~= bs.update(c, true));
    assert(!bs[c]);
    lemma_count_true_update(bs, c);
}

/// Setting a bit and checking it: after `set_bit(index)` the mask is long
/// enough for `check_bit(index)`, which finds the bit set.
pub proof fn law_set_then_check(s: Seq<u8>, index: u16)
    ensures
        (index / 8) < set_bit_bytes(s, index).len(),
        bit_at(set_bit_bytes(s, index), index as int),
{
    let n = if s.len() > index / 8 {
        s.len() as int
    } else {
        index / 8 + 1
    };
    let padded = fit_bytes(s, n);
    let j = (index / 8) as int;
    let rem = (index % 8) as u8;
    assert(padded.len() == n);
    lemma_byte_or(padded[j], rem, rem);
}

/// Setting a bit twice is setting it once.
pub proof fn law_set_idempotent(s: Seq<u8>, index: u16)
    ensures
        set_bit_bytes(set_bit_bytes(s, index), index) == set_bit_bytes(s, index),
{
    let t = set_bit_bytes(s, index);
    let j = (index / 8) as int;
    let m = 1u8 << ((index % 8) as u8);
    law_set_then_check(s, index);
    assert(fit_bytes(t, t.len() as int) =~= t);
    let b = t[j];
    let x = fit_bytes(s, t.len() as int)[j];
    assert(b == x | m);
    assert((x | m) | m == x | m) by (bit_vector);
    assert(set_bit_bytes(t, index) =~= t);
}

/// Clearing a bit undoes setting it: when bit `index` is within the mask and
/// clear, `set_bit(index)` followed by `reset_bit(index)` gives the mask back,
/// byte for byte.
pub proof fn law_reset_undoes_set(s: Seq<u8>, index: u16)
    requires
        (index / 8) < s.len(),
        !bit_at(s, index as int),
    ensures
        reset_bit_bytes(set_bit_bytes(s, index), index) == s,
{
    let j = (index / 8) as int;
    let rem = (index % 8) as u8;
    assert(fit_bytes(s, s.len() as int) =~= s);
    let b = s[j];
    assert(!((b >> rem) & 1u8 == 1u8));
    assert((b | (1u8 << rem)) & (0xffu8 ^ (1u8 << rem)) == b) by (bit_vector)
        requires
            rem < 8,
            !((b >> rem) & 1u8 == 1u8),
    ;
    assert(reset_bit_bytes(set_bit_bytes(s, index), index) =~= s);
}

/// Removing a bit lowers the number of set bits by one exactly when that bit was set.
pub proof fn law_discard_count(s: Seq<u8>, id: int)
    requires
        0 <= id < 8 * s.len(),
    ensures
        count_true(discarded(bits_of(s), id)) + (if bit_at(s, id) {
            1int
        } else {
            0int
        }) == ones(s),
{
    let bs = bits_of(s);
    let d = discarded(bs, id);
    assert(bs =~= bs.take(id) + seq![bs[id]] + bs.skip(id + 1));
    assert(d =~= bs.take(id) + bs.skip(id + 1) + seq![false]);
    lemma_count_true_append(bs.take(id) + seq![bs[id]], bs.skip(id + 1));
    lemma_count_true_append(bs.take(id), seq![bs[id]]);
    lemma_count_true_append(bs.take(id) + bs.skip(id + 1), seq![false]);
    lemma_count_true_append(bs.take(id), bs.skip(id + 1));
    assert(count_true(seq![bs[id]]) == if bs[id] {
        1nat
    } else {
        0nat
    }) by {
        reveal_with_fuel(count_true, 2);
        assert(seq![bs[id]].drop_last() =~= Seq::<bool>::empty());
    }
    assert(count_true(seq![false]) == 0) by {
        reveal_with_fuel(count_true, 2);
        assert(seq![false].drop_last() =~= Seq::<bool>::empty());
    }
}

/// The mask made from an index has exactly that one bit set.
pub proof fn law_single_bit(index: u16)
    ensures
        ones(single_bit_bytes(index)) == 1,
        forall|k: int| #[trigger] mask_bit(single_bit_bytes(index), k) == (k == index),
{
    lemma_single_bit_bytes_bits(index);
    lemma_ones_single(single_bit_bytes(index), index as int);
}

} // verus!
