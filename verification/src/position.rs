use vstd::prelude::*;
use vstd::arithmetic::power2::{pow2, lemma2_to64};
use vstd::arithmetic::div_mod::lemma_fundamental_div_mod_converse;
use crate::bits::{
    BitReader, BitWriter, bits_value, bit_at, value_bits, lemma_bits_value_shifted,
    lemma_bits_value_split, lemma_value_bits_value, lemma_bits_value_bound,
};

verus! {

/// Number of bits in the variable-length code for the upper six bits `high` of a distance.
pub open spec fn code_bits(high: int) -> int {
    if high < 1 {
        3
    } else if high < 4 {
        4
    } else if high < 12 {
        5
    } else if high < 24 {
        6
    } else if high < 48 {
        7
    } else {
        8
    }
}

/// How many leading bytes decode to `high`: two to the power of the bits a leading byte
/// holds past the code.
pub open spec fn code_width(high: int) -> int {
    if high < 1 {
        32
    } else if high < 4 {
        16
    } else if high < 12 {
        8
    } else if high < 24 {
        4
    } else if high < 48 {
        2
    } else {
        1
    }
}

/// The code of `high`, left-aligned in a byte: the first leading byte that decodes to `high`.
pub open spec fn code_prefix(high: int) -> int {
    if high < 1 {
        0
    } else if high < 4 {
        32 + (high - 1) * 16
    } else if high < 12 {
        80 + (high - 4) * 8
    } else if high < 24 {
        144 + (high - 12) * 4
    } else if high < 48 {
        192 + (high - 24) * 2
    } else {
        240 + (high - 48)
    }
}

/// The upper six distance bits that a leading byte decodes to.
pub open spec fn leading_symbol(leading: int) -> int {
    if leading < 32 {
        0
    } else if leading < 80 {
        1 + (leading - 32) / 16
    } else if leading < 144 {
        4 + (leading - 80) / 8
    } else if leading < 192 {
        12 + (leading - 144) / 4
    } else if leading < 240 {
        24 + (leading - 192) / 2
    } else {
        48 + (leading - 240)
    }
}

/// The bits that encode a distance: the code of its upper six bits, then its lower six bits.
pub open spec fn position_code(distance: int) -> Seq<bool> {
    let high = distance / 64;
    value_bits((code_prefix(high) / code_width(high)) as u32, code_bits(high) as u32)
        + value_bits((distance % 64) as u32, 6)
}

/// Decodes a distance from the bits of `stream` at `pos`; the result and the position after it.
pub open spec fn decode_position(stream: Seq<bool>, pos: int) -> Option<(int, int)> {
    if pos + 8 > stream.len() {
        None
    } else {
        let leading = bits_value(stream, pos, 8);
        let high = leading_symbol(leading);
        let extra = code_bits(high) - 2;
        if pos + 8 + extra > stream.len() {
            None
        } else {
            Some(
                (
                    high * 64 + bits_value(stream, pos, (8 + extra) as nat) % 64,
                    pos + 8 + extra,
                ),
            )
        }
    }
}

proof fn lemma_code_facts(high: int)
    requires
        0 <= high < 64,
    ensures
        3 <= code_bits(high) <= 8,
        code_width(high) == pow2((8 - code_bits(high)) as nat),
        code_prefix(high) + code_width(high) <= 256,
        high < 63 ==> code_prefix(high + 1) == code_prefix(high) + code_width(high),
        high == 63 ==> code_prefix(high) + code_width(high) == 256,
        code_prefix(high) % code_width(high) == 0,
        0 <= code_prefix(high) / code_width(high) < pow2(code_bits(high) as nat),
{
    lemma2_to64();
}

proof fn lemma_leading_symbol(high: int, k: int)
    requires
        0 <= high < 64,
        0 <= k < code_width(high),
    ensures
        leading_symbol(code_prefix(high) + k) == high,
{
    let i = code_prefix(high) + k;
    if high < 1 {
    } else if high < 4 {
        lemma_fundamental_div_mod_converse(i - 32, 16, high - 1, k);
    } else if high < 12 {
        lemma_fundamental_div_mod_converse(i - 80, 8, high - 4, k);
    } else if high < 24 {
        lemma_fundamental_div_mod_converse(i - 144, 4, high - 12, k);
    } else if high < 48 {
        lemma_fundamental_div_mod_converse(i - 192, 2, high - 24, k);
    } else {
    }
}

proof fn lemma_leading_symbol_range(leading: int)
    requires
        0 <= leading < 256,
    ensures
        0 <= leading_symbol(leading) < 64,
{
}

proof fn lemma_shift_is_div(x: u8, len: u32, sh: u32)
    requires
        3 <= len <= 8,
        sh == 8 - len,
    ensures
        x >> sh == x as int / (pow2(sh as nat) as int),
{
    lemma2_to64();
    if len == 3 {
        assert(x >> 5u32 == x / 32) by (bit_vector);
        assert(sh == 5u32);
        assert(pow2(5) == 32);
        assert(x >> sh == x >> 5u32);
        assert(x as int / 32 == x / 32);
    } else if len == 4 {
        assert(x >> 4u32 == x / 16) by (bit_vector);
        assert(sh == 4u32);
        assert(pow2(4) == 16);
        assert(x >> sh == x >> 4u32);
        assert(x as int / 16 == x / 16);
    } else if len == 5 {
        assert(x >> 3u32 == x / 8) by (bit_vector);
        assert(sh == 3u32);
        assert(pow2(3) == 8);
        assert(x >> sh == x >> 3u32);
        assert(x as int / 8 == x / 8);
    } else if len == 6 {
        assert(x >> 2u32 == x / 4) by (bit_vector);
        assert(sh == 2u32);
        assert(pow2(2) == 4);
        assert(x >> sh == x >> 2u32);
        assert(x as int / 4 == x / 4);
    } else if len == 7 {
        assert(x >> 1u32 == x / 2) by (bit_vector);
        assert(sh == 1u32);
        assert(pow2(1) == 2);
        assert(x >> sh == x >> 1u32);
        assert(x as int / 2 == x / 2);
    } else {
        assert(x >> 0u32 == x) by (bit_vector);
        assert(sh == 0u32);
        assert(pow2(0) == 1);
        assert(x >> sh == x >> 0u32);
        assert(x as int / 1 == x);
    }
}

/// A distance written with `position_code` decodes back to itself.
pub proof fn lemma_position_roundtrip(stream: Seq<bool>, pos: int, distance: int)
    requires
        0 <= distance < 4096,
        0 <= pos,
        pos + position_code(distance).len() <= stream.len(),
        forall|i: int|
            0 <= i < position_code(distance).len() ==> stream[pos + i] == #[trigger] position_code(
                distance,
            )[i],
    ensures
        decode_position(stream, pos) == Some((distance, pos + position_code(distance).len())),
{
    let high = distance / 64;
    let low = distance % 64;
    lemma_code_facts(high);
    lemma2_to64();
    let len = code_bits(high);
    let w = code_width(high);
    let p = code_prefix(high) / w;
    let first = value_bits(p as u32, len as u32);
    let second = value_bits(low as u32, 6);
    let c = position_code(distance);
    assert(c == first + second);
    assert(c.len() == len + 6);
    // The stream holds the code.
    assert forall|i: int| pos <= i < pos + (len + 6) implies #[trigger] bit_at(stream, i)
        == bit_at(c, 0 + (i - pos)) by {
        assert(stream[pos + (i - pos)] == c[i - pos]);
    }
    // The value of the code's bits.
    lemma_value_bits_value(p as u32, len as u32);
    lemma_value_bits_value(low as u32, 6);
    assert forall|i: int| 0 <= i < len implies #[trigger] bit_at(c, i) == bit_at(
        first,
        0 + (i - 0),
    ) by {}
    lemma_bits_value_shifted(c, 0, first, 0, len as nat);
    assert forall|i: int| len <= i < len + 6 implies #[trigger] bit_at(c, i) == bit_at(
        second,
        0 + (i - len),
    ) by {}
    lemma_bits_value_shifted(c, len, second, 0, 6);
    assert(bits_value(c, 0, len as nat) == p) by {
        vstd::arithmetic::div_mod::lemma_small_mod(p as nat, pow2(len as nat));
    }
    assert(bits_value(c, len, 6) == low) by {
        vstd::arithmetic::div_mod::lemma_small_mod(low as nat, 64);
    }
    lemma_bits_value_split(c, 0, len as nat, 6);
    let total = bits_value(c, 0, (len + 6) as nat);
    assert(total == p * 64 + low);
    // The leading byte.
    lemma_bits_value_split(c, 0, len as nat, (8 - len) as nat);
    let t = bits_value(c, len, (8 - len) as nat);
    lemma_bits_value_bound(c, len, (8 - len) as nat);
    assert(p * w == code_prefix(high)) by {
        vstd::arithmetic::div_mod::lemma_fundamental_div_mod(code_prefix(high), w);
    }
    assert((len + (8 - len)) as nat == 8nat);
    let leading = bits_value(c, 0, 8);
    assert(leading == code_prefix(high) + t);
    lemma_leading_symbol(high, t);
    lemma_bits_value_shifted(stream, pos, c, 0, 8);
    lemma_bits_value_shifted(stream, pos, c, 0, (len + 6) as nat);
    assert((8 + (len - 2)) as nat == (len + 6) as nat);
    assert(bits_value(stream, pos, 8) == leading);
    assert((p * 64 + low) % 64 == low) by {
        lemma_fundamental_div_mod_converse(p * 64 + low, 64, p, low);
    }
    assert(high * 64 + low == distance) by {
        vstd::arithmetic::div_mod::lemma_fundamental_div_mod(distance, 64);
    }
}

/// A decoded distance is below the window size, and decoding reads at least one bit.
pub proof fn lemma_decode_position_bound(stream: Seq<bool>, pos: int)
    ensures
        decode_position(stream, pos) matches Some((d, p)) ==> 0 <= d < 4096 && pos < p,
{
    if pos + 8 <= stream.len() {
        lemma_bits_value_bound(stream, pos, 8);
        lemma2_to64();
        let leading = bits_value(stream, pos, 8);
        lemma_leading_symbol_range(leading);
        lemma_code_facts(leading_symbol(leading));
    }
}

pub struct PositionTable {
    value: Vec<u8>,
    length: Vec<u8>,
    code: Vec<u8>,
    code_length: Vec<u8>,
}

impl PositionTable {
    pub closed spec fn wf(&self) -> bool {
        &&& self.value@.len() == 256
        &&& self.length@.len() == 256
        &&& self.code@.len() == 64
        &&& self.code_length@.len() == 64
        &&& forall|i: int| 0 <= i < 256 ==> #[trigger] self.value@[i] == leading_symbol(i)
        &&& forall|i: int|
            0 <= i < 256 ==> #[trigger] self.length@[i] == code_bits(leading_symbol(i))
        &&& forall|h: int| 0 <= h < 64 ==> #[trigger] self.code@[h] == code_prefix(h)
        &&& forall|h: int| 0 <= h < 64 ==> #[trigger] self.code_length@[h] == code_bits(h)
    }

    /// Builds the tables of the distance code.
    pub fn build() -> (r: Self)
        ensures
            r.wf(),
    {
        let mut value: Vec<u8> = vec![0u8; 256];
        let mut length: Vec<u8> = vec![0u8; 256];
        let mut code: Vec<u8> = vec![0u8; 64];
        let mut code_length: Vec<u8> = vec![0u8; 64];
        let runs: [(u8, usize); 6] = [(3, 1), (4, 3), (5, 8), (6, 12), (7, 24), (8, 16)];
        let ghost starts: Seq<int> = seq![0, 1, 4, 12, 24, 48, 64];

        let mut index = 0usize;
        let mut symbol = 0usize;
        let mut prefix = 0u16;
        let mut r = 0usize;
        while r < 6
            invariant
                runs@ == seq![(3u8, 1usize), (4u8, 3usize), (5u8, 8usize), (6u8, 12usize), (7u8, 24usize), (8u8, 16usize)],
                starts == seq![0int, 1, 4, 12, 24, 48, 64],
                r <= 6,
                value@.len() == 256,
                length@.len() == 256,
                code@.len() == 64,
                code_length@.len() == 64,
                symbol == starts[r as int],
                symbol < 64 ==> index == code_prefix(symbol as int),
                symbol == 64 ==> index == 256,
                prefix == index,
                forall|i: int| 0 <= i < index ==> #[trigger] value@[i] == leading_symbol(i),
                forall|i: int|
                    0 <= i < index ==> #[trigger] length@[i] == code_bits(leading_symbol(i)),
                forall|h: int| 0 <= h < symbol ==> #[trigger] code@[h] == code_prefix(h),
                forall|h: int| 0 <= h < symbol ==> #[trigger] code_length@[h] == code_bits(h),
            decreases 6 - r,
        {
            let (bit_length, symbol_count) = runs[r];
            let mut n = 0usize;
            while n < symbol_count
                invariant
                    runs@ == seq![(3u8, 1usize), (4u8, 3usize), (5u8, 8usize), (6u8, 12usize), (7u8, 24usize), (8u8, 16usize)],
                    starts == seq![0int, 1, 4, 12, 24, 48, 64],
                    r < 6,
                    (bit_length, symbol_count) == runs@[r as int],
                    value@.len() == 256,
                    length@.len() == 256,
                    code@.len() == 64,
                    code_length@.len() == 64,
                    n <= symbol_count,
                    symbol == starts[r as int] + n,
                    symbol < 64 ==> index == code_prefix(symbol as int),
                    symbol == 64 ==> index == 256,
                    prefix == index,
                    forall|i: int| 0 <= i < index ==> #[trigger] value@[i] == leading_symbol(i),
                    forall|i: int|
                        0 <= i < index ==> #[trigger] length@[i] == code_bits(leading_symbol(i)),
                    forall|h: int| 0 <= h < symbol ==> #[trigger] code@[h] == code_prefix(h),
                    forall|h: int|
                        0 <= h < symbol ==> #[trigger] code_length@[h] == code_bits(h),
                decreases symbol_count - n,
            {
                proof {
                    lemma_code_facts(symbol as int);
                    lemma2_to64();
                }
                assert(code_bits(symbol as int) == bit_length as int);
                code.set(symbol, prefix as u8);
                code_length.set(symbol, bit_length);
                let width = 1usize << (8 - bit_length as usize);
                assert(width == code_width(symbol as int)) by {
                    let sh = (8 - bit_length) as usize;
                    assert(1usize << 5usize == 32 && 1usize << 4usize == 16 && 1usize << 3usize == 8
                        && 1usize << 2usize == 4 && 1usize << 1usize == 2 && 1usize << 0usize == 1)
                        by (bit_vector);
                }
                let step: u16 = 1u16 << (8 - bit_length as usize);
                assert(step == width) by {
                    assert(1u16 << 5usize == 32 && 1u16 << 4usize == 16 && 1u16 << 3usize == 8
                        && 1u16 << 2usize == 4 && 1u16 << 1usize == 2 && 1u16 << 0usize == 1)
                        by (bit_vector);
                }
                prefix += step;
                let ghost base = index as int;
                let mut k = 0usize;
                while k < width
                    invariant
                        symbol < 64,
                        value@.len() == 256,
                        length@.len() == 256,
                        width == code_width(symbol as int),
                        base == code_prefix(symbol as int),
                        base + width <= 256,
                        bit_length == code_bits(symbol as int),
                        k <= width,
                        index == base + k,
                        forall|i: int| 0 <= i < index ==> #[trigger] value@[i] == leading_symbol(i),
                        forall|i: int|
                            0 <= i < index ==> #[trigger] length@[i] == code_bits(
                                leading_symbol(i),
                            ),
                    decreases width - k,
                {
                    proof {
                        lemma_leading_symbol(symbol as int, k as int);
                    }
                    value.set(index, symbol as u8);
                    length.set(index, bit_length);
                    index += 1;
                    k += 1;
                }
                symbol += 1;
                n += 1;
            }
            r += 1;
        }
        PositionTable { value, length, code, code_length }
    }

    /// Reads a distance: a leading byte, then as many more bits as its code length asks for.
    /// On `None` the reader has reached the end of its input.
    pub fn decode(&self, reader: &mut BitReader<'_>) -> (r: Option<usize>)
        requires
            self.wf(),
            old(reader).wf(),
        ensures
            final(reader).wf(),
            final(reader).stream() == old(reader).stream(),
            match r {
                Some(d) => decode_position(old(reader).stream(), old(reader).pos()) == Some(
                    (d as int, final(reader).pos()),
                ),
                None => decode_position(old(reader).stream(), old(reader).pos()) is None
                    && final(reader).pos() == old(reader).stream().len(),
            },
    {
        let ghost stream = reader.stream();
        let ghost start = reader.pos();
        proof {
            reader.lemma_pos_bound();
        }
        let leading = match reader.byte() {
            Some(v) => v,
            None => return None,
        };
        proof {
            lemma_bits_value_bound(stream, start, 8);
            lemma2_to64();
            lemma_leading_symbol_range(leading as int);
        }
        let symbol = self.value[leading];
        let high = (symbol as usize) << 6;
        let extra = self.length[leading] as usize - 2;
        proof {
            lemma_code_facts(symbol as int);
        }
        let mut low = leading;
        let mut i = 0usize;
        while i < extra
            invariant
                reader.wf(),
                reader.stream() == stream,
                stream == old(reader).stream(),
                start == old(reader).pos(),
                start + 8 <= stream.len(),
                leading == bits_value(stream, start, 8),
                symbol == leading_symbol(leading as int),
                0 <= symbol < 64,
                high == (symbol as usize) << 6usize,
                extra == code_bits(symbol as int) - 2,
                extra <= 6,
                i <= extra,
                reader.pos() == start + 8 + i,
                low == bits_value(stream, start, (8 + i) as nat),
                low < pow2((8 + i) as nat),
            decreases extra - i,
        {
            proof {
                reader.lemma_pos_bound();
            }
            match reader.bit() {
                None => {
                    return None;
                },
                Some(b) => {
                    proof {
                        lemma2_to64();
                        vstd::arithmetic::power2::lemma_pow2_unfold((8 + i + 1) as nat);
                        vstd::arithmetic::power2::lemma_pow2_strictly_increases(
                            (8 + i) as nat,
                            14,
                        );
                    }
                    assert((low << 1usize) + (b as usize) == 2 * low + b) by (bit_vector)
                        requires
                            low < 0x4000,
                    ;
                    low = (low << 1) + b as usize;
                    i += 1;
                },
            }
        }
        proof {
            reader.lemma_pos_bound();
        }
        assert((high | (low & 63)) == symbol * 64 + low % 64) by (bit_vector)
            requires
                high == (symbol as usize) << 6usize,
                symbol < 64,
        ;
        Some(high | (low & 63))
    }

    /// Writes `position_code(distance)`.
    pub fn encode(&self, writer: &mut BitWriter, distance: usize)
        requires
            self.wf(),
            old(writer).wf(),
            distance < 4096,
        ensures
            final(writer).wf(),
            final(writer).written() == old(writer).written() + position_code(distance as int),
    {
        let high = distance >> 6;
        assert(high == distance / 64) by (bit_vector)
            requires
                high == distance >> 6usize,
        ;
        proof {
            lemma_code_facts(high as int);
        }
        let length = self.code_length[high] as u32;
        let sh: u32 = 8 - length;
        let top = self.code[high] >> sh;
        proof {
            lemma_shift_is_div(self.code@[high as int], length, sh);
        }
        writer.put(top as u32, length);
        assert(distance & 63 == distance % 64) by (bit_vector);
        writer.put((distance & 63) as u32, 6);
    }
}

} // verus!
