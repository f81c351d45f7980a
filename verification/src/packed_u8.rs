//! Small unsigned values packed one, two, four or eight bits apiece.

use vstd::prelude::*;

verus! {

/// The byte with its low `bits` bits set.
pub open spec fn mask_of(bits: int) -> u8 {
    if bits == 1 {
        0b1
    } else if bits == 2 {
        0b11
    } else if bits == 3 {
        0b111
    } else if bits == 4 {
        0b1111
    } else {
        u8::MAX
    }
}

/// How many values of `bits` bits a byte holds.
pub open spec fn per_byte(bits: int) -> int {
    if bits == 1 {
        8
    } else if bits == 2 {
        4
    } else if bits == 4 {
        2
    } else {
        1
    }
}

/// How many values `bytes` bytes hold at `bits` bits apiece.
pub open spec fn places(bytes: int, bits: int) -> int {
    if bits == 1 {
        8 * bytes
    } else if bits == 2 {
        4 * bytes
    } else if bits == 4 {
        2 * bytes
    } else {
        bytes
    }
}

/// The byte in which the value at index `i` stands.
pub open spec fn byte_of(i: int, bits: int) -> int {
    if bits == 1 {
        i / 8
    } else if bits == 2 {
        i / 4
    } else if bits == 4 {
        i / 2
    } else {
        i
    }
}

/// The place inside its byte at which the value at index `i` stands.
pub open spec fn place_of(i: int, bits: int) -> int {
    if bits == 1 {
        i % 8
    } else if bits == 2 {
        i % 4
    } else if bits == 4 {
        i % 2
    } else {
        0
    }
}

/// How far the value in the `j`-th place of a byte is shifted.
pub open spec fn shift_of(j: int, bits: int) -> u8 {
    if bits == 1 {
        j as u8
    } else if bits == 2 {
        (2 * j) as u8
    } else if bits == 4 {
        (4 * j) as u8
    } else {
        0
    }
}

/// Whether values can be packed at this width.
pub open spec fn is_width(bits: int) -> bool {
    bits == 1 || bits == 2 || bits == 4 || bits == 8
}

/// The value held in the `j`-th place of a byte packed at `bits` bits.
pub open spec fn slot_of(byte: u8, bits: int, j: int) -> u8 {
    (byte >> shift_of(j, bits)) & mask_of(bits)
}

/// A byte with `v` stored in its `j`-th place: the place is cleared and
/// `v`, shifted there, is or-ed in. Bits of `v` above the width spill into
/// the places above.
pub open spec fn with_slot(byte: u8, bits: int, j: int, v: u8) -> u8 {
    (byte & !(mask_of(bits) << shift_of(j, bits))) | (v << shift_of(j, bits))
}

/// Whether `v` needs no more than `bits` bits.
pub open spec fn fits(v: u8, bits: int) -> bool {
    v <= mask_of(bits)
}

/// A value fits a width exactly when masking it to the width changes nothing.
pub proof fn lemma_fits_mask(v: u8, bits: int)
    requires
        is_width(bits),
    ensures
        fits(v, bits) <==> v & mask_of(bits) == v,
{
    assert(v <= 1 <==> v & 1 == v) by (bit_vector);
    assert(v <= 3 <==> v & 3 == v) by (bit_vector);
    assert(v <= 15 <==> v & 15 == v) by (bit_vector);
    assert(v & 255 == v) by (bit_vector);
}

/// The number of bits that `value` needs, and one for zero.
pub open spec fn bit_width(value: u8) -> u8 {
    if value < 2 {
        1
    } else if value < 4 {
        2
    } else if value < 8 {
        3
    } else if value < 16 {
        4
    } else if value < 32 {
        5
    } else if value < 64 {
        6
    } else if value < 128 {
        7
    } else {
        8
    }
}

/// The packing width chosen for values of up to `bits` bits.
pub open spec fn width_for(bits: u8) -> int {
    if bits <= 1 {
        1
    } else if bits <= 2 {
        2
    } else if bits <= 4 {
        4
    } else {
        8
    }
}

/// The number of bytes set aside for `n` values of `bits` bits: one for
/// every full byte of values, and one more unless `n` is a multiple of
/// 256, 16, 4 or 2 at the widths 1, 2, 4 and 8. That is enough for all the
/// values, and at times a byte more.
pub open spec fn required_bytes(bits: int, n: int) -> int {
    let modulus: int = if bits == 1 {
        256
    } else if bits == 2 {
        16
    } else if bits == 4 {
        4
    } else {
        2
    };
    byte_of(n, bits) + (if n % modulus != 0 {
        1int
    } else {
        0int
    })
}

/// The byte with its low `BITS` bits set.
pub fn mask<const BITS: usize>() -> (m: u8)
    requires
        BITS == 1 || BITS == 2 || BITS == 3 || BITS == 4 || BITS == 8,
    ensures
        m == mask_of(BITS as int),
{
    if BITS == 1 {
        0b1
    } else if BITS == 2 {
        0b11
    } else if BITS == 3 {
        0b111
    } else if BITS == 4 {
        0b1111
    } else {
        u8::MAX
    }
}

/// How many values of `BITS` bits a byte holds.
pub fn invert<const BITS: usize>() -> (n: usize)
    requires
        is_width(BITS as int),
    ensures
        n == per_byte(BITS as int),
{
    if BITS == 1 {
        8
    } else if BITS == 2 {
        4
    } else if BITS == 4 {
        2
    } else {
        1
    }
}

/// The mask of as many bits as a byte holds values of `BITS` bits.
pub fn invert_mask<const BITS: usize>() -> (m: u8)
    requires
        is_width(BITS as int),
    ensures
        m == mask_of(per_byte(BITS as int)),
{
    if BITS == 1 {
        mask::<8>()
    } else if BITS == 2 {
        mask::<4>()
    } else if BITS == 4 {
        mask::<2>()
    } else {
        mask::<1>()
    }
}

/// How far the value at index `i` is shifted inside its byte.
pub fn get_shift<const BITS: usize>(i: usize) -> (shift: u8)
    requires
        is_width(BITS as int),
    ensures
        shift == shift_of(place_of(i as int, BITS as int), BITS as int),
        shift < 8,
{
    if BITS == 1 {
        (i % 8) as u8
    } else if BITS == 2 {
        ((i % 4) * 2) as u8
    } else if BITS == 4 {
        ((i % 2) * 4) as u8
    } else {
        0
    }
}

/// The number of bytes to set aside for `n` values of `BITS` bits.
pub fn required_u8<const BITS: usize>(n: usize) -> (bytes: usize)
    requires
        is_width(BITS as int),
        BITS == 8 ==> n < usize::MAX,
    ensures
        bytes == required_bytes(BITS as int, n as int),
        places(bytes as int, BITS as int) >= n,
{
    let modulus: usize = invert_mask::<BITS>() as usize + 1;
    n / invert::<BITS>() + if n % modulus != 0 {
        1
    } else {
        0
    }
}

/// As many zero bytes as `n` values of `BITS` bits need.
pub fn vec_for<const BITS: usize>(n: usize) -> (bytes: Vec<u8>)
    requires
        is_width(BITS as int),
        BITS == 8 ==> n < usize::MAX,
    ensures
        bytes@.len() == required_bytes(BITS as int, n as int),
        places(bytes@.len() as int, BITS as int) >= n,
        forall|k: int| 0 <= k < bytes@.len() ==> #[trigger] bytes@[k] == 0,
{
    vec![0; required_u8::<BITS>(n)]
}

/// Reading a place that was just stored gives the stored value, and every
/// other place of the byte reads as before.
pub proof fn lemma_store_then_read(byte: u8, bits: int, j: int, t: int, v: u8)
    requires
        is_width(bits),
        0 <= j < per_byte(bits),
        0 <= t < per_byte(bits),
        fits(v, bits),
    ensures
        slot_of(with_slot(byte, bits, j, v), bits, t) == (if t == j {
            v
        } else {
            slot_of(byte, bits, t)
        }),
{
    let s = shift_of(j, bits);
    let r = shift_of(t, bits);
    lemma_fits_mask(v, bits);
    if bits == 1 {
        assert(s < 8 && r < 8 && v & 1 == v ==> ((((byte & !(1u8 << s)) | (v << s)) >> r) & 1) == (if s
            == r {
            v
        } else {
            (byte >> r) & 1
        })) by (bit_vector);
    } else if bits == 2 {
        assert((s == 0 || s == 2 || s == 4 || s == 6) && (r == 0 || r == 2 || r == 4 || r == 6) && v
            & 3 == v ==> ((((byte & !(3u8 << s)) | (v << s)) >> r) & 3) == (if s == r {
            v
        } else {
            (byte >> r) & 3
        })) by (bit_vector);
    } else if bits == 4 {
        assert((s == 0 || s == 4) && (r == 0 || r == 4) && v & 15 == v ==> ((((byte & !(15u8 << s))
            | (v << s)) >> r) & 15) == (if s == r {
            v
        } else {
            (byte >> r) & 15
        })) by (bit_vector);
    } else {
        assert(((((byte & !(255u8 << 0u8)) | (v << 0u8)) >> 0u8) & 255) == v) by (bit_vector);
    }
}

/// Or-ing a value into a place that holds zero stores it there.
pub proof fn lemma_or_into_empty(byte: u8, bits: int, j: int, v: u8)
    requires
        is_width(bits),
        0 <= j < per_byte(bits),
        slot_of(byte, bits, j) == 0,
    ensures
        byte | (v << shift_of(j, bits)) == with_slot(byte, bits, j, v),
{
    let s = shift_of(j, bits);
    if bits == 1 {
        assert(s < 8 && (byte >> s) & 1 == 0 ==> byte | (v << s) == (byte & !(1u8 << s)) | (v << s))
            by (bit_vector);
    } else if bits == 2 {
        assert((s == 0 || s == 2 || s == 4 || s == 6) && (byte >> s) & 3 == 0 ==> byte | (v << s) == (
        byte & !(3u8 << s)) | (v << s)) by (bit_vector);
    } else if bits == 4 {
        assert((s == 0 || s == 4) && (byte >> s) & 15 == 0 ==> byte | (v << s) == (byte & !(15u8
            << s)) | (v << s)) by (bit_vector);
    } else {
        assert((byte >> 0u8) & 255 == 0 ==> byte | (v << 0u8) == (byte & !(255u8 << 0u8)) | (v << 0u8))
            by (bit_vector);
    }
}

/// What a place holds always fits the width, a zero byte holds zeros, and
/// at eight bits the one place of a byte is the byte.
pub proof fn lemma_slot_basics(byte: u8, bits: int, j: int)
    requires
        is_width(bits),
        0 <= j < per_byte(bits),
    ensures
        fits(slot_of(byte, bits, j), bits),
        byte == 0 ==> slot_of(byte, bits, j) == 0,
        bits == 8 ==> slot_of(byte, bits, j) == byte,
        bits == 8 ==> with_slot(byte, bits, j, byte) == byte,
{
    let s = shift_of(j, bits);
    lemma_fits_mask(slot_of(byte, bits, j), bits);
    if bits == 1 {
        assert(((byte >> s) & 1) & 1 == (byte >> s) & 1) by (bit_vector);
        assert((0u8 >> s) & 1 == 0) by (bit_vector);
    } else if bits == 2 {
        assert(((byte >> s) & 3) & 3 == (byte >> s) & 3) by (bit_vector);
        assert((0u8 >> s) & 3 == 0) by (bit_vector);
    } else if bits == 4 {
        assert(((byte >> s) & 15) & 15 == (byte >> s) & 15) by (bit_vector);
        assert((0u8 >> s) & 15 == 0) by (bit_vector);
    } else {
        assert(((byte >> 0u8) & 255) & 255 == (byte >> 0u8) & 255) by (bit_vector);
        assert((byte >> 0u8) & 255 == byte) by (bit_vector);
        assert((byte & !(255u8 << 0u8)) | (byte << 0u8) == byte) by (bit_vector);
    }
}

/// The value at index `places(k, bits) + j` stands in byte `k` at place `j`.
pub proof fn lemma_byte_and_place(at: int, bits: int, k: int, j: int)
    requires
        is_width(bits),
        0 <= k,
        0 <= j < per_byte(bits),
        at == places(k, bits) + j,
    ensures
        byte_of(at, bits) == k,
        place_of(at, bits) == j,
{
    if bits == 1 {
        vstd::arithmetic::div_mod::lemma_fundamental_div_mod_converse(at, 8, k, j);
    } else if bits == 2 {
        vstd::arithmetic::div_mod::lemma_fundamental_div_mod_converse(at, 4, k, j);
    } else if bits == 4 {
        vstd::arithmetic::div_mod::lemma_fundamental_div_mod_converse(at, 2, k, j);
    }
}

/// An index is the first index of its byte plus its place in the byte.
pub proof fn lemma_place_in_byte(i: int, bits: int)
    requires
        0 <= i,
    ensures
        0 <= byte_of(i, bits),
        0 <= place_of(i, bits) < per_byte(bits),
        i == places(byte_of(i, bits), bits) + place_of(i, bits),
        forall|n: int| i < places(n, bits) ==> byte_of(i, bits) < n,
{
}

/// Bytes of packed values, with the width at which they are packed.
#[derive(Debug, Clone)]
pub enum PackedEnum {
    U1(Vec<u8>),
    U2(Vec<u8>),
    U4(Vec<u8>),
    U8(Vec<u8>),
}

impl PackedEnum {
    /// The width of a value in bits.
    pub open spec fn bits(&self) -> int {
        match self {
            Self::U1(_) => 1,
            Self::U2(_) => 2,
            Self::U4(_) => 4,
            Self::U8(_) => 8,
        }
    }

    /// The bytes that hold the values.
    pub open spec fn bytes(&self) -> Seq<u8> {
        match self {
            Self::U1(data) => data@,
            Self::U2(data) => data@,
            Self::U4(data) => data@,
            Self::U8(data) => data@,
        }
    }

    /// Whether there is a place for a value at index `i`.
    pub open spec fn holds(&self, i: int) -> bool {
        0 <= i && byte_of(i, self.bits()) < self.bytes().len()
    }

    /// The value at index `i`.
    pub open spec fn slot(&self, i: int) -> u8 {
        slot_of(self.bytes()[byte_of(i, self.bits())], self.bits(), place_of(i, self.bits()))
    }

    /// The value at index `i`.
    pub fn get(&self, i: usize) -> (v: u8)
        requires
            self.holds(i as int),
        ensures
            v == self.slot(i as int),
    {
        match self {
            Self::U1(data) => (data[i / 8] >> get_shift::<1>(i)) & mask::<1>(),
            Self::U2(data) => (data[i / 4] >> get_shift::<2>(i)) & mask::<2>(),
            Self::U4(data) => (data[i / 2] >> get_shift::<4>(i)) & mask::<4>(),
            Self::U8(data) => {
                proof {
                    lemma_slot_basics(data@[i as int], 8, 0);
                }
                data[i]
            },
        }
    }

    /// Stores `value` at index `i`: its place is cleared and the value,
    /// shifted there, is or-ed in. A value that fits the width replaces
    /// what was at `i` and touches nothing else.
    pub fn set(&mut self, i: usize, value: u8)
        requires
            old(self).holds(i as int),
        ensures
            final(self).bits() == old(self).bits(),
            final(self).bytes() == old(self).bytes().update(
                byte_of(i as int, old(self).bits()),
                with_slot(
                    old(self).bytes()[byte_of(i as int, old(self).bits())],
                    old(self).bits(),
                    place_of(i as int, old(self).bits()),
                    value,
                ),
            ),
            fits(value, old(self).bits()) ==> forall|t: int|
                old(self).holds(t) ==> #[trigger] final(self).slot(t) == (if t == i {
                    value
                } else {
                    old(self).slot(t)
                }),
    {
        let ghost bits = self.bits();
        let ghost before = self.bytes();
        match self {
            Self::U1(data) => {
                let shift = get_shift::<1>(i);
                let k = i / 8;
                let held = data[k];
                data[k] = (held & !(mask::<1>() << shift)) | (value << shift);
            },
            Self::U2(data) => {
                let shift = get_shift::<2>(i);
                let k = i / 4;
                let held = data[k];
                data[k] = (held & !(mask::<2>() << shift)) | (value << shift);
            },
            Self::U4(data) => {
                let shift = get_shift::<4>(i);
                let k = i / 2;
                let held = data[k];
                data[k] = (held & !(mask::<4>() << shift)) | (value << shift);
            },
            Self::U8(data) => {
                proof {
                    lemma_slot_basics(value, 8, 0);
                    lemma_store_then_read(data@[i as int], 8, 0, 0, value);
                    lemma_slot_basics(with_slot(data@[i as int], 8, 0, value), 8, 0);
                }
                data[i] = value;
            },
        }
        proof {
            let at = i as int;
            assert(self.bytes() =~= before.update(
                byte_of(at, bits),
                with_slot(before[byte_of(at, bits)], bits, place_of(at, bits), value),
            ));
            if fits(value, bits) {
                assert forall|t: int| old(self).holds(t) implies #[trigger] self.slot(t) == (if t
                    == i {
                    value
                } else {
                    old(self).slot(t)
                }) by {
                    if byte_of(t, bits) == byte_of(at, bits) {
                        lemma_store_then_read(
                            before[byte_of(at, bits)],
                            bits,
                            place_of(at, bits),
                            place_of(t, bits),
                            value,
                        );
                    }
                }
            }
        }
    }

    /// Every value, in the order of the indices, the unused places of the
    /// last byte included.
    pub fn iter(&self) -> (values: Vec<u8>)
        ensures
            values@.len() == places(self.bytes().len() as int, self.bits()),
            forall|i: int| 0 <= i < values@.len() ==> #[trigger] values@[i] == self.slot(i),
    {
        let (data, per, step, low): (&Vec<u8>, usize, u8, u8) = match self {
            Self::U1(data) => (data, 8, 1, mask::<1>()),
            Self::U2(data) => (data, 4, 2, mask::<2>()),
            Self::U4(data) => (data, 2, 4, mask::<4>()),
            Self::U8(data) => (data, 1, 8, mask::<8>()),
        };
        let mut values: Vec<u8> = Vec::new();
        let mut k: usize = 0;
        while k < data.len()
            invariant
                k <= data@.len(),
                data@ == self.bytes(),
                per == per_byte(self.bits()),
                step == self.bits(),
                low == mask_of(self.bits()),
                is_width(self.bits()),
                values@.len() == places(k as int, self.bits()),
                forall|i: int| 0 <= i < values@.len() ==> #[trigger] values@[i] == self.slot(i),
            decreases data@.len() - k,
        {
            let byte = data[k];
            let mut j: usize = 0;
            while j < per
                invariant
                    k < data@.len(),
                    j <= per,
                    byte == data@[k as int],
                    data@ == self.bytes(),
                    per == per_byte(self.bits()),
                    step == self.bits(),
                    low == mask_of(self.bits()),
                    is_width(self.bits()),
                    values@.len() == places(k as int, self.bits()) + j,
                    forall|i: int| 0 <= i < values@.len() ==> #[trigger] values@[i] == self.slot(i),
                decreases per - j,
            {
                let shift: u8 = (j as u8) * step;
                proof {
                    let at = places(k as int, self.bits()) + j;
                    lemma_byte_and_place(at, self.bits(), k as int, j as int);
                }
                values.push((byte >> shift) & low);
                j += 1;
            }
            k += 1;
        }
        values
    }
}

/// The byte at index `k` of values packed at `bits` bits, as far as its
/// first `j` places are written: each value that exists, shifted to its
/// place, or-ed into a zero byte.
pub open spec fn packed_byte(values: Seq<u8>, bits: int, k: int, j: int) -> u8
    decreases j,
{
    if j <= 0 {
        0
    } else {
        let written = packed_byte(values, bits, k, j - 1);
        let at = places(k, bits) + j - 1;
        if at < values.len() {
            written | (values[at] << shift_of(j - 1, bits))
        } else {
            written
        }
    }
}

/// Whether every value needs no more than `bits` bits.
pub open spec fn all_fit(values: Seq<u8>, bits: int) -> bool {
    forall|i: int| 0 <= i < values.len() ==> fits(#[trigger] values[i], bits)
}

/// In a byte packed from values that fit, every written place reads as its
/// value and every other place as zero.
pub proof fn lemma_packed_reads(values: Seq<u8>, bits: int, k: int, j: int, t: int)
    requires
        is_width(bits),
        all_fit(values, bits),
        0 <= k,
        0 <= j <= per_byte(bits),
        0 <= t < per_byte(bits),
    ensures
        slot_of(packed_byte(values, bits, k, j), bits, t) == (if t < j && places(k, bits) + t
            < values.len() {
            values[places(k, bits) + t]
        } else {
            0u8
        }),
    decreases j,
{
    if j <= 0 {
        lemma_slot_basics(0, bits, t);
    } else {
        let written = packed_byte(values, bits, k, j - 1);
        let at = places(k, bits) + j - 1;
        lemma_packed_reads(values, bits, k, j - 1, t);
        if at < values.len() {
            lemma_packed_reads(values, bits, k, j - 1, j - 1);
            lemma_or_into_empty(written, bits, j - 1, values[at]);
            assert(fits(values[at], bits));
            lemma_store_then_read(written, bits, j - 1, t, values[at]);
        }
    }
}

/// Places beyond the last value add nothing to a packed byte.
pub proof fn lemma_packed_tail(values: Seq<u8>, bits: int, k: int, j: int, m: int)
    requires
        0 <= j <= m,
        places(k, bits) + j >= values.len(),
    ensures
        packed_byte(values, bits, k, m) == packed_byte(values, bits, k, j),
    decreases m,
{
    if m > j {
        lemma_packed_tail(values, bits, k, j, m - 1);
    }
}

/// While values are packed: the bytes before `k` are complete, the byte
/// at `k` has its first `j` places written, the bytes after it are zero.
pub open spec fn pack_inv(values: Seq<u8>, bits: int, bytes: Seq<u8>, k: int, j: int) -> bool {
    forall|b: int|
        0 <= b < bytes.len() ==> #[trigger] bytes[b] == packed_byte(
            values,
            bits,
            b,
            if b < k {
                per_byte(bits)
            } else if b == k {
                j
            } else {
                0
            },
        )
}

/// Or-ing the next value into its place keeps `pack_inv`.
proof fn lemma_pack_step(
    values: Seq<u8>,
    bits: int,
    before: Seq<u8>,
    after: Seq<u8>,
    k: int,
    j: int,
)
    requires
        is_width(bits),
        0 <= j < per_byte(bits),
        0 <= k < before.len(),
        places(k, bits) + j < values.len(),
        after == before.update(
            k,
            before[k] | (values[places(k, bits) + j] << shift_of(j, bits)),
        ),
        pack_inv(values, bits, before, k, j),
    ensures
        j + 1 < per_byte(bits) ==> pack_inv(values, bits, after, k, j + 1),
        j + 1 == per_byte(bits) ==> pack_inv(values, bits, after, k + 1, 0),
{
    assert(after[k] == packed_byte(values, bits, k, j + 1));
    assert forall|b: int| 0 <= b < after.len() && b != k implies #[trigger] after[b]
        == before[b] by {}
}

/// When all values are written, every byte is complete.
proof fn lemma_pack_done(values: Seq<u8>, bits: int, bytes: Seq<u8>, k: int, j: int)
    requires
        is_width(bits),
        0 <= j < per_byte(bits),
        0 <= k,
        places(k, bits) + j == values.len(),
        pack_inv(values, bits, bytes, k, j),
    ensures
        pack_inv(values, bits, bytes, bytes.len() as int, 0),
{
    let per = per_byte(bits);
    assert forall|b: int| 0 <= b < bytes.len() implies #[trigger] bytes[b] == packed_byte(
        values,
        bits,
        b,
        per,
    ) by {
        if b == k {
            lemma_packed_tail(values, bits, b, j, per);
        } else if b > k {
            lemma_packed_tail(values, bits, b, 0, per);
        }
    }
}

/// The values packed at `BITS` bits.
#[verifier::spinoff_prover]
fn pack<const BITS: usize>(values: &[u8]) -> (bytes: Vec<u8>)
    requires
        BITS == 1 || BITS == 2 || BITS == 4,
    ensures
        bytes@.len() == required_bytes(BITS as int, values@.len() as int),
        pack_inv(values@, BITS as int, bytes@, bytes@.len() as int, 0),
        places(bytes@.len() as int, BITS as int) >= values@.len(),
{
    let length = values.len();
    let per = invert::<BITS>();
    let mut res = vec_for::<BITS>(length);
    let mut i: usize = 0;
    let mut k: usize = 0;
    let mut j: usize = 0;
    let ghost room = places(res@.len() as int, BITS as int);
    while i < length
        invariant
            BITS == 1 || BITS == 2 || BITS == 4,
            length == values@.len(),
            per == per_byte(BITS as int),
            i <= length,
            i == places(k as int, BITS as int) + j,
            j < per,
            res@.len() == required_bytes(BITS as int, length as int),
            room == places(res@.len() as int, BITS as int),
            room >= length,
            pack_inv(values@, BITS as int, res@, k as int, j as int),
        decreases length - i,
    {
        let shift: u8 = (j * BITS) as u8;
        let held = res[k];
        let ghost before = res@;
        res[k] = held | (values[i] << shift);
        proof {
            lemma_pack_step(values@, BITS as int, before, res@, k as int, j as int);
        }
        i += 1;
        j += 1;
        if j >= per {
            j = 0;
            k += 1;
        }
    }
    proof {
        lemma_pack_done(values@, BITS as int, res@, k as int, j as int);
    }
    res
}

/// A sequence of small values, packed at the narrowest of the widths one,
/// two, four and eight bits that was needed so far.
#[derive(Debug, Clone)]
pub struct PackedU8s {
    pub data: PackedEnum,
    pub mask: u8,
    pub length: usize,
}

impl View for PackedU8s {
    type V = Seq<u8>;

    /// The values, in the order of their indices.
    open spec fn view(&self) -> Seq<u8> {
        Seq::new(self.length as nat, |i: int| self.data.slot(i))
    }
}

/// `u8::ilog2`: the base 2 logarithm of `x`, rounded down. It panics on
/// zero, which is left out.
pub assume_specification[ u8::ilog2 ](x: u8) -> (r: u32)
    requires
        x > 0,
    ensures
        vstd::arithmetic::power2::pow2(r as nat) <= x,
        x < 2 * vstd::arithmetic::power2::pow2(r as nat),
;

impl PackedU8s {
    /// The mask goes with the width, and there is a place for every value.
    pub open spec fn wf(&self) -> bool {
        &&& self.mask == mask_of(self.data.bits())
        &&& self.length <= places(self.data.bytes().len() as int, self.data.bits())
    }

    /// `length` zeros, packed one bit apiece.
    pub fn new(length: usize) -> (packed: Self)
        ensures
            packed.wf(),
            packed.data.bits() == 1,
            packed.data.bytes() == Seq::new(
                required_bytes(1, length as int) as nat,
                |k: int| 0u8,
            ),
            packed.length == length,
            packed@ == Seq::new(length as nat, |i: int| 0u8),
    {
        let bytes = vec![0; required_u8::<1>(length)];
        let packed = PackedEnum::U1(bytes);
        let made = Self { mask: mask::<1>(), data: packed, length };
        proof {
            assert(made.data.bytes() =~= Seq::new(
                required_bytes(1, length as int) as nat,
                |k: int| 0u8,
            ));
            assert forall|i: int| 0 <= i < length implies made.data.slot(i) == 0u8 by {
                lemma_slot_basics(0, 1, i % 8);
            }
            assert(made@ =~= Seq::new(length as nat, |i: int| 0u8));
        }
        made
    }

    /// The number of bits that `value` needs, and one for zero.
    pub fn bits_for(value: u8) -> (bits: u8)
        ensures
            bits == bit_width(value),
    {
        let log = value.max(1).ilog2();
        proof {
            vstd::arithmetic::power2::lemma2_to64();
            if log > 8 {
                vstd::arithmetic::power2::lemma_pow2_strictly_increases(8, log as nat);
            }
            assert(log < 8);
            assert(log == 0 || log == 1 || log == 2 || log == 3 || log == 4 || log == 5 || log == 6
                || log == 7);
        }
        log as u8 + 1
    }

    /// `values`, packed at the narrowest width that holds the largest of them.
    pub fn from(values: &[u8]) -> (packed: Self)
        ensures
            packed.wf(),
            packed.length == values@.len(),
            packed@ == values@,
    {
        let mut max: u8 = 0;
        let mut i: usize = 0;
        while i < values.len()
            invariant
                i <= values@.len(),
                forall|j: int| 0 <= j < i ==> #[trigger] values@[j] <= max,
            decreases values@.len() - i,
        {
            if values[i] > max {
                max = values[i];
            }
            i += 1;
        }
        let bits = PackedU8s::bits_for(max);
        proof {
            assert forall|j: int| 0 <= j < values@.len() implies fits(
                #[trigger] values@[j],
                width_for(bits),
            ) by {
                lemma_small_fits(values@[j], max);
            }
        }
        PackedU8s::from_with_bits(values, bits)
    }

    /// `values`, packed at the narrowest width of at least `bits` bits.
    /// Values that fit the width are held as they are. A value that does
    /// not fit spills into the values that follow it in its byte.
    pub fn from_with_bits(values: &[u8], bits: u8) -> (packed: Self)
        ensures
            packed.wf(),
            packed.length == values@.len(),
            packed.data.bits() == width_for(bits),
            packed.data.bytes().len() == (if bits <= 4 {
                required_bytes(width_for(bits), values@.len() as int)
            } else {
                values@.len() as int
            }),
            pack_inv(
                values@,
                width_for(bits),
                packed.data.bytes(),
                packed.data.bytes().len() as int,
                0,
            ),
            all_fit(values@, width_for(bits)) ==> packed@ == values@,
    {
        let length = values.len();
        let packed = if bits <= 1 {
            PackedU8s { data: PackedEnum::U1(pack::<1>(values)), length, mask: mask::<1>() }
        } else if bits <= 2 {
            PackedU8s { data: PackedEnum::U2(pack::<2>(values)), length, mask: mask::<2>() }
        } else if bits <= 4 {
            PackedU8s { data: PackedEnum::U4(pack::<4>(values)), length, mask: mask::<4>() }
        } else {
            let mut copy: Vec<u8> = Vec::new();
            let mut i: usize = 0;
            while i < length
                invariant
                    i <= length,
                    length == values@.len(),
                    copy@.len() == i,
                    forall|k: int| 0 <= k < i ==> #[trigger] copy@[k] == values@[k],
                decreases length - i,
            {
                copy.push(values[i]);
                i += 1;
            }
            proof {
                assert forall|k: int| 0 <= k < length implies #[trigger] copy@[k] == packed_byte(
                    values@,
                    8,
                    k,
                    1,
                ) by {
                    let v = values@[k];
                    assert(0u8 | (v << 0u8) == v) by (bit_vector);
                    assert(packed_byte(values@, 8, k, 0) == 0);
                }
            }
            PackedU8s { data: PackedEnum::U8(copy), length, mask: mask::<8>() }
        };
        proof {
            let width = width_for(bits);
            assert(packed.wf());
            if all_fit(values@, width) {
                assert forall|i: int| 0 <= i < length implies packed.data.slot(i) == values@[i] by {
                    let k = byte_of(i, width);
                    let t = place_of(i, width);
                    lemma_place_in_byte(i, width);
                    lemma_packed_reads(values@, width, k, per_byte(width), t);
                }
                assert(packed@ =~= values@);
            }
        }
        packed
    }

    /// Every place of the packed bytes, in the order of the indices: the
    /// values, and then what the last byte has room for beyond them.
    pub fn iter(&self) -> (values: Vec<u8>)
        ensures
            values@.len() == places(self.data.bytes().len() as int, self.data.bits()),
            forall|i: int| 0 <= i < values@.len() ==> #[trigger] values@[i] == self.data.slot(i),
    {
        self.data.iter()
    }

    /// The value at index `i`.
    pub fn get(&self, i: usize) -> (v: u8)
        requires
            self.data.holds(i as int) || (self.wf() && i < self.length),
        ensures
            v == self.data.slot(i as int),
            i < self.length ==> v == self@[i as int],
    {
        proof {
            if self.wf() && i < self.length {
                self.lemma_holds(i as int);
            }
        }
        self.data.get(i)
    }

    /// There is a place for every index below the length.
    pub proof fn lemma_holds(&self, i: int)
        requires
            self.wf(),
            0 <= i < self.length,
        ensures
            self.data.holds(i),
    {
        lemma_place_in_byte(i, self.data.bits());
    }

    /// Repacks the values at a wider width when `value` does not fit the
    /// present one: at the narrowest width that holds `value`. The values
    /// stay what they are.
    pub fn upscale_if_needed(&mut self, value: u8)
        requires
            old(self).wf(),
        ensures
            final(self).wf(),
            final(self).length == old(self).length,
            final(self)@ == old(self)@,
            fits(value, final(self).data.bits()),
            final(self).data.bits() == (if fits(value, old(self).data.bits()) {
                old(self).data.bits()
            } else {
                width_for(bit_width(value))
            }),
            fits(value, old(self).data.bits()) ==> final(self).data.bytes() == old(
                self,
            ).data.bytes(),
            !fits(value, old(self).data.bits()) ==> final(self).data.bytes().len() == (if bit_width(
                value,
            ) <= 4 {
                required_bytes(width_for(bit_width(value)), old(self).length as int)
            } else {
                old(self).length as int
            }) && pack_inv(
                old(self)@,
                width_for(bit_width(value)),
                final(self).data.bytes(),
                final(self).data.bytes().len() as int,
                0,
            ),
    {
        proof {
            lemma_fits_mask(value, self.data.bits());
        }
        if (value & self.mask) == value {
            return;
        }
        let all = self.data.iter();
        let mut values: Vec<u8> = Vec::new();
        let mut i: usize = 0;
        while i < self.length
            invariant
                i <= self.length,
                self.wf(),
                all@.len() == places(self.data.bytes().len() as int, self.data.bits()),
                forall|t: int| 0 <= t < all@.len() ==> #[trigger] all@[t] == self.data.slot(t),
                values@.len() == i,
                forall|t: int| 0 <= t < i ==> #[trigger] values@[t] == self.data.slot(t),
            decreases self.length - i,
        {
            values.push(all[i]);
            i += 1;
        }
        let bits = PackedU8s::bits_for(value);
        proof {
            let narrow = self.data.bits();
            let wide = width_for(bits);
            lemma_small_fits(value, value);
            if wide <= narrow {
                lemma_fits_wider(value, wide, narrow);
            }
            assert forall|t: int| 0 <= t < values@.len() implies fits(#[trigger] values@[t], wide) by {
                self.lemma_holds(t);
                lemma_place_in_byte(t, narrow);
                lemma_slot_basics(
                    self.data.bytes()[byte_of(t, narrow)],
                    narrow,
                    place_of(t, narrow),
                );
                lemma_fits_wider(values@[t], narrow, wide);
            }
            assert(values@ =~= self@);
        }
        *self = PackedU8s::from_with_bits(values.as_slice(), bits);
    }

    /// Stores `value` at index `i`, repacking at a wider width first when
    /// the value does not fit the present one.
    pub fn set(&mut self, i: usize, value: u8)
        requires
            old(self).wf(),
            i < old(self).length,
        ensures
            final(self).wf(),
            final(self).length == old(self).length,
            final(self)@ == old(self)@.update(i as int, value),
            final(self).data.bits() == (if fits(value, old(self).data.bits()) {
                old(self).data.bits()
            } else {
                width_for(bit_width(value))
            }),
    {
        self.upscale_if_needed(value);
        let ghost packed = *self;
        proof {
            packed.lemma_holds(i as int);
        }
        self.data.set(i, value);
        proof {
            assert(self.data.bytes().len() == packed.data.bytes().len());
            assert forall|t: int| 0 <= t < self.length implies self.data.slot(t) == old(
                self,
            )@.update(i as int, value)[t] by {
                packed.lemma_holds(t);
            }
            assert(self@ =~= old(self)@.update(i as int, value));
        }
    }
}

/// A value that fits a width fits every wider one.
pub proof fn lemma_fits_wider(v: u8, narrow: int, wide: int)
    requires
        is_width(narrow),
        is_width(wide),
        narrow <= wide,
        fits(v, narrow),
    ensures
        fits(v, wide),
{
}

/// A value no larger than `max` fits the width chosen for `max`.
pub proof fn lemma_small_fits(v: u8, max: u8)
    requires
        v <= max,
    ensures
        fits(v, width_for(bit_width(max))),
{
}

} // verus!
