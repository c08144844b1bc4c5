use vstd::prelude::*;

verus! {

/// The value (0 or 1) of bit `i` of `bits`; positions outside the sequence read as 0.
pub open spec fn bit_at(bits: Seq<bool>, i: int) -> int {
    if 0 <= i < bits.len() && bits[i] {
        1
    } else {
        0
    }
}

/// The number formed by the `n` bits of `bits` starting at `base`, most significant first.
pub open spec fn bits_value(bits: Seq<bool>, base: int, n: nat) -> int
    decreases n,
{
    if n == 0 {
        0
    } else {
        2 * bits_value(bits, base, (n - 1) as nat) + bit_at(bits, base + n - 1)
    }
}

/// The `count` low bits of `value`, most significant first.
pub open spec fn value_bits(value: u32, count: u32) -> Seq<bool> {
    Seq::new(count as nat, |i: int| (value >> ((count - 1 - i) as u32)) & 1u32 == 1u32)
}

/// Packs a bit sequence into bytes, most significant bit first, the last byte padded with zeros.
pub open spec fn pack(bits: Seq<bool>) -> Seq<u8> {
    Seq::new(((bits.len() + 7) / 8) as nat, |k: int| bits_value(bits, 8 * k, 8) as u8)
}

/// Bit `j` (0 = most significant) of byte `b`.
pub open spec fn byte_bit(b: u8, j: int) -> bool {
    (b >> ((7 - j) as u8)) & 1u8 == 1u8
}

/// The bits of a byte sequence, most significant bit of each byte first.
pub open spec fn unpack(bytes: Seq<u8>) -> Seq<bool> {
    Seq::new(8 * bytes.len(), |i: int| byte_bit(bytes[i / 8], i % 8))
}

/// `bits_value` only reads the bits in `[base, base + n)`.
pub proof fn lemma_bits_value_local(a: Seq<bool>, b: Seq<bool>, base: int, n: nat)
    requires
        forall|i: int| base <= i < base + n ==> bit_at(a, i) == bit_at(b, i),
    ensures
        bits_value(a, base, n) == bits_value(b, base, n),
{
    lemma_bits_value_shifted(a, base, b, base, n);
}

/// Two windows holding the same bits have the same value.
pub proof fn lemma_bits_value_shifted(a: Seq<bool>, base_a: int, b: Seq<bool>, base_b: int, n: nat)
    requires
        forall|i: int|
            base_a <= i < base_a + n ==> #[trigger] bit_at(a, i) == bit_at(b, base_b + (i - base_a)),
    ensures
        bits_value(a, base_a, n) == bits_value(b, base_b, n),
    decreases n,
{
    if n > 0 {
        lemma_bits_value_shifted(a, base_a, b, base_b, (n - 1) as nat);
        assert(bit_at(a, base_a + n - 1) == bit_at(b, base_b + ((base_a + n - 1) - base_a)));
    }
}

/// The value of `m + n` bits is that of the first `m`, shifted, plus that of the last `n`.
pub proof fn lemma_bits_value_split(bits: Seq<bool>, base: int, m: nat, n: nat)
    ensures
        bits_value(bits, base, m + n) == bits_value(bits, base, m)
            * vstd::arithmetic::power2::pow2(n) + bits_value(bits, base + m, n),
    decreases n,
{
    vstd::arithmetic::power2::lemma2_to64();
    if n > 0 {
        lemma_bits_value_split(bits, base, m, (n - 1) as nat);
        vstd::arithmetic::power2::lemma_pow2_unfold(n);
        let v = bits_value(bits, base, m);
        let p = vstd::arithmetic::power2::pow2((n - 1) as nat);
        let w = bits_value(bits, base + m, (n - 1) as nat);
        let b = bit_at(bits, base + m + n - 1);
        assert(2 * (v * p) == v * (2 * p)) by (nonlinear_arith);
        assert((m + n - 1) as nat == (m + (n - 1)) as nat);
        assert(bits_value(bits, base, m + n) == 2 * bits_value(bits, base, (m + n - 1) as nat) + b);
        assert(bits_value(bits, base + m, n) == 2 * w + b);
    } else {
        assert(bits_value(bits, base, m) * 1 == bits_value(bits, base, m));
    }
}

/// Reading back `value_bits(value, count)` gives the `count` low bits of `value`.
pub proof fn lemma_value_bits_value(value: u32, count: u32)
    requires
        count <= 32,
    ensures
        bits_value(value_bits(value, count), 0, count as nat) == value as int
            % (vstd::arithmetic::power2::pow2(count as nat) as int),
    decreases count,
{
    vstd::arithmetic::power2::lemma2_to64();
    if count > 0 {
        let vb = value_bits(value, count);
        let half = value >> 1u32;
        lemma_value_bits_value(half, (count - 1) as u32);
        assert forall|i: int| 0 <= i < count - 1 implies #[trigger] bit_at(vb, i) == bit_at(
            value_bits(half, (count - 1) as u32),
            0 + (i - 0),
        ) by {
            let sh = (count - 1 - i) as u32;
            assert(sh >= 1);
            assert((value >> sh) & 1u32 == ((value >> 1u32) >> ((sh - 1) as u32)) & 1u32)
                by (bit_vector)
                requires
                    1 <= sh < 32,
            ;
        }
        lemma_bits_value_shifted(
            vb,
            0,
            value_bits(half, (count - 1) as u32),
            0,
            (count - 1) as nat,
        );
        assert(half == value / 2 && (value >> 0u32) & 1u32 == value % 2) by (bit_vector)
            requires
                half == value >> 1u32,
        ;
        assert(bit_at(vb, count - 1) == value % 2);
        vstd::arithmetic::power2::lemma_pow2_unfold(count as nat);
        vstd::arithmetic::power2::lemma_pow2_pos((count - 1) as nat);
        vstd::arithmetic::div_mod::lemma_mod_breakdown(
            value as int,
            2,
            vstd::arithmetic::power2::pow2((count - 1) as nat) as int,
        );
    }
}

/// Sequences of the same length with the same value are equal.
pub proof fn lemma_bits_value_injective(a: Seq<bool>, b: Seq<bool>, n: nat)
    requires
        a.len() == n,
        b.len() == n,
        bits_value(a, 0, n) == bits_value(b, 0, n),
    ensures
        a == b,
    decreases n,
{
    if n > 0 {
        let m = (n - 1) as nat;
        lemma_bits_value_local(a, a.drop_last(), 0, m);
        lemma_bits_value_local(b, b.drop_last(), 0, m);
        assert(bit_at(a, n - 1) == bit_at(b, n - 1));
        lemma_bits_value_injective(a.drop_last(), b.drop_last(), m);
        assert(a =~= b) by {
            assert forall|i: int| 0 <= i < n implies a[i] == b[i] by {
                if i < m {
                    assert(a.drop_last()[i] == b.drop_last()[i]);
                }
            }
        }
    } else {
        assert(a =~= b);
    }
}

/// Writing the value of a bit sequence as that many bits gives the sequence back.
pub proof fn lemma_value_bits_of(bs: Seq<bool>)
    requires
        bs.len() <= 32,
    ensures
        value_bits(bits_value(bs, 0, bs.len()) as u32, bs.len() as u32) == bs,
{
    let n = bs.len();
    let v = bits_value(bs, 0, n);
    lemma_bits_value_bound(bs, 0, n);
    vstd::arithmetic::power2::lemma2_to64();
    if n < 32 {
        vstd::arithmetic::power2::lemma_pow2_strictly_increases(n, 32);
    }
    lemma_value_bits_value(v as u32, n as u32);
    vstd::arithmetic::div_mod::lemma_small_mod(v as nat, vstd::arithmetic::power2::pow2(n));
    lemma_bits_value_injective(value_bits(v as u32, n as u32), bs, n);
}

pub proof fn lemma_bits_value_bound(bits: Seq<bool>, base: int, n: nat)
    ensures
        0 <= bits_value(bits, base, n) < vstd::arithmetic::power2::pow2(n),
    decreases n,
{
    if n > 0 {
        lemma_bits_value_bound(bits, base, (n - 1) as nat);
        vstd::arithmetic::power2::lemma_pow2_unfold(n);
    } else {
        vstd::arithmetic::power2::lemma2_to64();
    }
}

proof fn lemma_bits_value_8(bits: Seq<bool>, base: int)
    ensures
        bits_value(bits, base, 8) == 128 * bit_at(bits, base) + 64 * bit_at(bits, base + 1) + 32
            * bit_at(bits, base + 2) + 16 * bit_at(bits, base + 3) + 8 * bit_at(bits, base + 4)
            + 4 * bit_at(bits, base + 5) + 2 * bit_at(bits, base + 6) + bit_at(bits, base + 7),
{
    reveal_with_fuel(bits_value, 9);
}

proof fn lemma_byte_bits(b0: u8, b1: u8, b2: u8, b3: u8, b4: u8, b5: u8, b6: u8, b7: u8)
    by (bit_vector)
    requires
        b0 <= 1 && b1 <= 1 && b2 <= 1 && b3 <= 1 && b4 <= 1 && b5 <= 1 && b6 <= 1 && b7 <= 1,
    ensures
        ({
            let v: u8 = (128 * b0 + 64 * b1 + 32 * b2 + 16 * b3 + 8 * b4 + 4 * b5 + 2 * b6
                + b7) as u8;
            &&& (v >> 7u8) & 1u8 == b0
            &&& (v >> 6u8) & 1u8 == b1
            &&& (v >> 5u8) & 1u8 == b2
            &&& (v >> 4u8) & 1u8 == b3
            &&& (v >> 3u8) & 1u8 == b4
            &&& (v >> 2u8) & 1u8 == b5
            &&& (v >> 1u8) & 1u8 == b6
            &&& (v >> 0u8) & 1u8 == b7
        }),
{
}

/// Unpacking packed bits gives the bits back, followed by zero padding.
pub proof fn lemma_unpack_pack(bits: Seq<bool>)
    ensures
        unpack(pack(bits)).len() >= bits.len(),
        unpack(pack(bits)).len() < bits.len() + 8,
        forall|i: int| 0 <= i < unpack(pack(bits)).len() ==> #[trigger] unpack(pack(bits))[i] == (i
            < bits.len() && bits[i]),
{
    let p = pack(bits);
    let u = unpack(p);
    assert forall|i: int| 0 <= i < u.len() implies #[trigger] u[i] == (i < bits.len()
        && bits[i]) by {
        let k = i / 8;
        let j = i % 8;
        assert(0 <= k < p.len());
        let base = 8 * k;
        lemma_bits_value_8(bits, base);
        let b0 = bit_at(bits, base) as u8;
        let b1 = bit_at(bits, base + 1) as u8;
        let b2 = bit_at(bits, base + 2) as u8;
        let b3 = bit_at(bits, base + 3) as u8;
        let b4 = bit_at(bits, base + 4) as u8;
        let b5 = bit_at(bits, base + 5) as u8;
        let b6 = bit_at(bits, base + 6) as u8;
        let b7 = bit_at(bits, base + 7) as u8;
        lemma_byte_bits(b0, b1, b2, b3, b4, b5, b6, b7);
        assert(p[k] == (128 * b0 + 64 * b1 + 32 * b2 + 16 * b3 + 8 * b4 + 4 * b5 + 2 * b6
            + b7) as u8);
        assert(i == base + j);
    }
}

pub struct BitReader<'a> {
    bytes: &'a [u8],
    byte_pos: usize,
    bit_pos: u8,
}

impl<'a> BitReader<'a> {
    /// The bits the reader reads from.
    pub closed spec fn stream(&self) -> Seq<bool> {
        unpack(self.bytes@)
    }

    /// How many bits have been read.
    pub closed spec fn pos(&self) -> int {
        8 * self.byte_pos + self.bit_pos
    }

    pub closed spec fn wf(&self) -> bool {
        &&& self.bit_pos < 8
        &&& self.byte_pos <= self.bytes@.len()
        &&& self.byte_pos == self.bytes@.len() ==> self.bit_pos == 0
    }

    pub proof fn lemma_pos_bound(&self)
        requires
            self.wf(),
        ensures
            0 <= self.pos() <= self.stream().len(),
    {
    }

    pub fn new(bytes: &'a [u8]) -> (r: Self)
        ensures
            r.wf(),
            r.stream() == unpack(bytes@),
            r.pos() == 0,
    {
        BitReader { bytes, byte_pos: 0, bit_pos: 0 }
    }

    /// Reads one bit; `None` once the input is exhausted.
    pub fn bit(&mut self) -> (r: Option<u8>)
        requires
            old(self).wf(),
        ensures
            final(self).wf(),
            final(self).stream() == old(self).stream(),
            old(self).pos() < old(self).stream().len() ==> r == Some(
                if old(self).stream()[old(self).pos()] {
                    1u8
                } else {
                    0u8
                },
            ) && final(self).pos() == old(self).pos() + 1,
            old(self).pos() >= old(self).stream().len() ==> r is None && final(self).pos()
                == old(self).pos(),
    {
        if self.byte_pos >= self.bytes.len() {
            return None;
        }
        let byte = self.bytes[self.byte_pos];
        let bp = self.bit_pos;
        let sh: u8 = 7 - bp;
        let value = (byte >> sh) & 1;
        proof {
            let p = old(self).pos();
            assert(p / 8 == self.byte_pos as int);
            assert(p % 8 == self.bit_pos as int);
            assert(value <= 1) by (bit_vector)
                requires
                    value == (byte >> sh) & 1,
            ;
        }
        self.bit_pos += 1;
        if self.bit_pos == 8 {
            self.bit_pos = 0;
            self.byte_pos += 1;
        }
        Some(value)
    }

    /// Reads eight bits as a number, most significant first; `None` if fewer than eight are left,
    /// in which case the reader ends up at the end of its input.
    pub fn byte(&mut self) -> (r: Option<usize>)
        requires
            old(self).wf(),
        ensures
            final(self).wf(),
            final(self).stream() == old(self).stream(),
            old(self).pos() + 8 <= old(self).stream().len() ==> r == Some(
                bits_value(old(self).stream(), old(self).pos(), 8) as usize,
            ) && final(self).pos() == old(self).pos() + 8,
            old(self).pos() + 8 > old(self).stream().len() ==> r is None && final(self).pos()
                == old(self).stream().len(),
    {
        let ghost start = self.pos();
        let mut value = 0usize;
        let mut i = 0usize;
        while i < 8
            invariant
                self.wf(),
                self.stream() == old(self).stream(),
                start == old(self).pos(),
                i <= 8,
                self.pos() == start + i,
                start + i <= self.stream().len(),
                value == bits_value(self.stream(), start, i as nat),
                value < 256,
            decreases 8 - i,
        {
            let b = self.bit();
            match b {
                None => {
                    return None;
                },
                Some(b) => {
                    proof {
                        lemma_bits_value_bound(self.stream(), start, (i + 1) as nat);
                        vstd::arithmetic::power2::lemma2_to64();
                        assert(bits_value(self.stream(), start, (i + 1) as nat) < 256) by {
                            if i + 1 < 8 {
                                vstd::arithmetic::power2::lemma_pow2_strictly_increases(
                                    (i + 1) as nat,
                                    8,
                                );
                            }
                        }
                    }
                    assert((value << 1usize) | (b as usize) == 2 * value + b) by (bit_vector)
                        requires
                            value < 256,
                            b <= 1,
                    ;
                    value = (value << 1) | b as usize;
                    i += 1;
                },
            }
        }
        Some(value)
    }
}

pub struct BitWriter {
    bytes: Vec<u8>,
    accumulator: u8,
    filled: u8,
    bits: Ghost<Seq<bool>>,
}

impl BitWriter {
    /// The bits written so far.
    pub closed spec fn written(&self) -> Seq<bool> {
        self.bits@
    }

    pub closed spec fn wf(&self) -> bool {
        &&& self.filled < 8
        &&& self.bits@.len() == 8 * self.bytes@.len() + self.filled
        &&& self.accumulator == bits_value(self.bits@, 8 * self.bytes@.len() as int, self.filled as nat)
        &&& forall|k: int|
            0 <= k < self.bytes@.len() ==> #[trigger] self.bytes@[k] == bits_value(
                self.bits@,
                8 * k,
                8,
            )
    }

    pub fn new() -> (r: Self)
        ensures
            r.wf(),
            r.written() == Seq::<bool>::empty(),
    {
        BitWriter { bytes: Vec::new(), accumulator: 0, filled: 0, bits: Ghost(Seq::empty()) }
    }

    /// Appends the `count` low bits of `value`, most significant first.
    pub fn put(&mut self, value: u32, count: u32)
        requires
            old(self).wf(),
            count <= 32,
        ensures
            final(self).wf(),
            final(self).written() == old(self).written() + value_bits(value, count),
    {
        let mut i = count;
        while i > 0
            invariant
                self.wf(),
                i <= count <= 32,
                self.written() == old(self).written() + value_bits(value, count).take(
                    (count - i) as int,
                ),
            decreases i,
        {
            i -= 1;
            let shift = i;
            let b = ((value >> shift) & 1) as u8;
            assert(b <= 1 && (b == 1 <==> (value >> shift) & 1u32 == 1u32)) by (bit_vector)
                requires
                    b == ((value >> shift) & 1) as u8,
            ;
            let ghost old_bits = self.bits@;
            let ghost nb: int = self.bytes@.len() as int;
            let ghost new_bits = old_bits.push(b == 1);
            proof {
                assert forall|j: int| 8 * nb <= j < 8 * nb + self.filled implies bit_at(
                    old_bits,
                    j,
                ) == bit_at(new_bits, j) by {}
                lemma_bits_value_local(old_bits, new_bits, 8 * nb, self.filled as nat);
                assert(bits_value(new_bits, 8 * nb, (self.filled + 1) as nat) == 2
                    * self.accumulator + b);
                assert forall|k: int| 0 <= k < nb implies #[trigger] self.bytes@[k]
                    == bits_value(new_bits, 8 * k, 8) by {
                    assert forall|j: int| 8 * k <= j < 8 * k + 8 implies bit_at(old_bits, j)
                        == bit_at(new_bits, j) by {}
                    lemma_bits_value_local(old_bits, new_bits, 8 * k, 8);
                }
                assert(self.accumulator < 128) by {
                    lemma_bits_value_bound(old_bits, 8 * nb, self.filled as nat);
                    vstd::arithmetic::power2::lemma2_to64();
                    if self.filled < 7 {
                        vstd::arithmetic::power2::lemma_pow2_strictly_increases(
                            self.filled as nat,
                            7,
                        );
                    }
                }
                assert(value_bits(value, count).take((count - i) as int) =~= value_bits(
                    value,
                    count,
                ).take((count - i - 1) as int).push(b == 1));
            }
            let acc = self.accumulator;
            assert((acc << 1u8) | b == 2 * acc + b) by (bit_vector)
                requires
                    acc < 128,
                    b <= 1,
            ;
            self.accumulator = (acc << 1) | b;
            self.filled += 1;
            self.bits = Ghost(new_bits);
            if self.filled == 8 {
                self.bytes.push(self.accumulator);
                self.accumulator = 0;
                self.filled = 0;
            }
        }
        assert(value_bits(value, count).take(count as int) == value_bits(value, count));
    }

    /// The written bits packed into bytes, the last byte padded with zero bits.
    pub fn finish(self) -> (r: Vec<u8>)
        requires
            self.wf(),
        ensures
            r@ == pack(self.written()),
    {
        let mut this = self;
        let ghost bits = this.bits@;
        let ghost nb: int = this.bytes@.len() as int;
        if this.filled > 0 {
            let f = this.filled;
            let acc = this.accumulator;
            proof {
                lemma_bits_value_pad(bits, 8 * nb, f as nat);
                lemma_bits_value_bound(bits, 8 * nb, f as nat);
                vstd::arithmetic::power2::lemma2_to64();
            }
            assert(acc << (8 - f) == acc * vstd::arithmetic::power2::pow2((8 - f) as nat)) by {
                vstd::arithmetic::power2::lemma2_to64();
                lemma_shift_pad(acc, f);
            }
            this.accumulator = acc << (8 - f);
            this.bytes.push(this.accumulator);
        }
        proof {
            let r = this.bytes@;
            assert(r.len() == (bits.len() + 7) / 8);
            assert forall|k: int| 0 <= k < r.len() implies r[k] == pack(bits)[k] by {
                if k < nb {
                    lemma_bits_value_bound(bits, 8 * k, 8);
                    vstd::arithmetic::power2::lemma2_to64();
                }
            }
            assert(r == pack(bits));
        }
        this.bytes
    }
}

/// Past the end of the sequence, `bits_value` shifts in zeros.
proof fn lemma_bits_value_pad(bits: Seq<bool>, base: int, f: nat)
    requires
        base + f == bits.len(),
        f <= 8,
    ensures
        bits_value(bits, base, 8) == bits_value(bits, base, f) * vstd::arithmetic::power2::pow2(
            (8 - f) as nat,
        ),
{
    lemma_bits_value_pad_n(bits, base, f, 8);
}

proof fn lemma_bits_value_pad_n(bits: Seq<bool>, base: int, f: nat, n: nat)
    requires
        base + f == bits.len(),
        f <= n,
    ensures
        bits_value(bits, base, n) == bits_value(bits, base, f) * vstd::arithmetic::power2::pow2(
            (n - f) as nat,
        ),
    decreases n,
{
    let v = bits_value(bits, base, f);
    if n == f {
        vstd::arithmetic::power2::lemma2_to64();
        assert(v * 1 == v);
    } else {
        lemma_bits_value_pad_n(bits, base, f, (n - 1) as nat);
        vstd::arithmetic::power2::lemma_pow2_unfold((n - f) as nat);
        assert(((n - 1) - f) as nat == ((n - f) - 1) as nat);
        let p = vstd::arithmetic::power2::pow2(((n - 1) - f) as nat);
        assert(2 * (v * p) == v * (2 * p)) by (nonlinear_arith);
        assert(bit_at(bits, base + n - 1) == 0);
        assert(bits_value(bits, base, n) == 2 * bits_value(bits, base, (n - 1) as nat));
    }
}

proof fn lemma_shift_pad(acc: u8, f: u8)
    requires
        0 < f < 8,
        (acc as int) < vstd::arithmetic::power2::pow2(f as nat),
    ensures
        acc << (8 - f) == acc * vstd::arithmetic::power2::pow2((8 - f) as nat),
{
    vstd::arithmetic::power2::lemma2_to64();
    if f == 1 {
        assert(acc < 2 ==> acc << 7u8 == acc * 128) by (bit_vector);
    } else if f == 2 {
        assert(acc < 4 ==> acc << 6u8 == acc * 64) by (bit_vector);
    } else if f == 3 {
        assert(acc < 8 ==> acc << 5u8 == acc * 32) by (bit_vector);
    } else if f == 4 {
        assert(acc < 16 ==> acc << 4u8 == acc * 16) by (bit_vector);
    } else if f == 5 {
        assert(acc < 32 ==> acc << 3u8 == acc * 8) by (bit_vector);
    } else if f == 6 {
        assert(acc < 64 ==> acc << 2u8 == acc * 4) by (bit_vector);
    } else {
        assert(acc < 128 ==> acc << 1u8 == acc * 2) by (bit_vector);
    }
}

} // verus!
