//! Bit-level writing and reading, most significant bit first.

use vstd::prelude::*;
use vstd::arithmetic::power2::*;
use vstd::arithmetic::div_mod::*;
use vstd::bits::*;
use crate::bits::{
    zeros, bits_of, bits_value, bytes_bits, lemma_bits_of_len, lemma_bits_of_split, lemma_bits_of_zero,
    lemma_bits_value_append, lemma_byte_chunk, lemma_bytes_bits_last, lemma_bytes_bits_len,
    lemma_bits_value_of, lemma_bytes_bits_injective, lemma_bytes_bits_window, lemma_fill_last_byte,
    lemma_next_chunk, lemma_push_zero,
};

verus! {

/// `b | (c << s)` adds `c * 2^s` to a byte whose low `s + t` bits are clear,
/// when `c` has at most `t` bits.
proof fn lemma_u8_or_disjoint(b: u8, c: u8, s: u8, t: u8)
    by (bit_vector)
    requires
        1 <= t,
        s + t <= 8,
        (b as u32) % (1u32 << ((s + t) as u32)) == 0,
        (c as u32) < (1u32 << (t as u32)),
    ensures
        (b | (c << s)) as u32 == (b as u32) + ((c as u32) << (s as u32)),
{
}

/// Appending `t` low bits `x` to an accumulator `a` in a `u32`.
proof fn lemma_u32_shift_in(a: u32, x: u32, t: u32)
    by (bit_vector)
    requires
        1 <= t <= 8,
        x < (1u32 << t),
    ensures
        ((a << t) | x) as int == ((a as u64) * (1u64 << (t as u64)) + (x as u64)) % 0x1_0000_0000,
{
}

/// `1 << n` is `2^n` in a `u32`, for `n < 32`.
proof fn lemma_u32_one_shl(n: u32)
    requires
        n < 32,
    ensures
        (1u32 << n) as nat == pow2(n as nat),
        ((1u32 << n) - 1) as nat == low_bits_mask(n as nat),
{
    lemma_u32_pow2_no_overflow(n as nat);
    lemma_u32_shl_is_mul(1, n);
}

/// A finished bit string held as bytes, with the count of unused low bits
/// of its last byte.
pub struct BitStream {
    buffer: Vec<u8>,
    bit_rem: u8,
}

impl BitStream {
    /// The bytes of the stream.
    pub closed spec fn bytes(&self) -> Seq<u8> {
        self.buffer@
    }

    /// The number of unused low bits in the last byte.
    pub closed spec fn free_bits(&self) -> u8 {
        self.bit_rem
    }

    /// Every bit of the stream's bytes, as a reader sees them.
    pub open spec fn bits(&self) -> Seq<bool> {
        bytes_bits(self.bytes())
    }

    pub fn new(buffer: Vec<u8>, bit_rem: u8) -> (s: Self)
        ensures
            s.bytes() == buffer@,
            s.free_bits() == bit_rem,
    {
        Self { buffer, bit_rem }
    }

    /// A reader positioned at the first bit of the stream.
    pub fn reader(&self) -> (r: BitReader<'_>)
        ensures
            r.wf(),
            r.data() == self.bytes(),
            r.pos() == 0,
    {
        BitReader::new(self.buffer.as_slice())
    }

    /// The number of bits of the stream's bytes.
    pub fn bit_count(&self) -> (n: u128)
        ensures
            n == self.bits().len(),
    {
        proof {
            lemma_bytes_bits_len(self.buffer@);
        }
        (self.buffer.len() as u128) * 8
    }

    /// The bytes of the stream followed by one byte holding the unused-bit count.
    pub fn to_bytes(self) -> (bytes: Vec<u8>)
        ensures
            bytes@ == self.bytes().push(self.free_bits()),
    {
        let mut buffer = self.buffer;
        buffer.push(self.bit_rem);
        buffer
    }

    /// The inverse of `to_bytes`: the last byte is the unused-bit count.
    pub fn from_bytes(bytes: &[u8]) -> (s: Self)
        requires
            bytes@.len() > 0,
        ensures
            s.bytes() == bytes@.drop_last(),
            s.free_bits() == bytes@.last(),
    {
        let n = bytes.len();
        let bit_rem = bytes[n - 1];
        let mut buffer: Vec<u8> = Vec::new();
        let mut i: usize = 0;
        while i < n - 1
            invariant
                n == bytes@.len(),
                n > 0,
                i <= n - 1,
                buffer@ == bytes@.subrange(0, i as int),
            decreases n - 1 - i,
        {
            buffer.push(bytes[i]);
            i = i + 1;
            assert(buffer@ =~= bytes@.subrange(0, i as int));
        }
        assert(buffer@ =~= bytes@.drop_last());
        Self { buffer, bit_rem }
    }
}

impl From<BitWriter> for BitStream {
    /// The writer's bytes, with its count of free bits.
    fn from(value: BitWriter) -> (s: Self) {
        BitStream { buffer: value.buffer, bit_rem: value.bit_rem }
    }
}

impl vstd::std_specs::convert::FromSpecImpl<BitWriter> for BitStream {
    open spec fn obeys_from_spec() -> bool {
        true
    }

    closed spec fn from_spec(v: BitWriter) -> Self {
        BitStream { buffer: v.buffer, bit_rem: v.bit_rem }
    }
}

/// The stream that `From<BitWriter>` gives holds the writer's bytes and its count
/// of free bits.
pub proof fn lemma_stream_from_writer(w: BitWriter)
    ensures
        <BitStream as vstd::std_specs::convert::FromSpec<BitWriter>>::from_spec(w).bytes()
            == w.bytes(),
        <BitStream as vstd::std_specs::convert::FromSpec<BitWriter>>::from_spec(w).free_bits()
            == w.free_bits(),
{
}

/// `from_bytes` undoes `to_bytes`: the bytes `to_bytes` gives for a stream are
/// non-empty, and taking off the last one gives back the stream's bytes, the last
/// one being its count of free bits. And `to_bytes` undoes `from_bytes`: putting
/// the count back after the bytes gives back the bytes read.
pub proof fn lemma_bytes_round_trip(s: BitStream, bytes: Seq<u8>)
    ensures
        s.bytes().push(s.free_bits()).len() > 0,
        s.bytes().push(s.free_bits()).drop_last() == s.bytes(),
        s.bytes().push(s.free_bits()).last() == s.free_bits(),
        bytes.len() > 0 ==> bytes.drop_last().push(bytes.last()) == bytes,
{
    assert(s.bytes().push(s.free_bits()).drop_last() =~= s.bytes());
    if bytes.len() > 0 {
        assert(bytes.drop_last().push(bytes.last()) =~= bytes);
    }
}

/// Appends bits, most significant first, to a growing byte buffer.
pub struct BitWriter {
    buffer: Vec<u8>,
    /// The number of free low bits in the last byte of the buffer.
    bit_rem: u8,
}

impl View for BitWriter {
    type V = Seq<bool>;

    /// The bits written so far.
    closed spec fn view(&self) -> Seq<bool> {
        bytes_bits(self.buffer@).take(8 * self.buffer@.len() - self.bit_rem)
    }
}

impl BitWriter {
    /// The free bits of the last byte are clear, and there are none without a byte.
    pub open spec fn wf(&self) -> bool {
        &&& self.free_bits() < 8
        &&& self.bytes().len() == 0 ==> self.free_bits() == 0
        &&& self.bytes().len() > 0 ==> self.bytes().last() as nat % pow2(self.free_bits() as nat)
            == 0
    }

    /// How many bits the next write puts into the byte it starts in.
    pub open spec fn room(&self) -> nat {
        if self.free_bits() == 0 {
            8
        } else {
            self.free_bits() as nat
        }
    }

    /// The bytes that hold the bits written so far.
    pub closed spec fn bytes(&self) -> Seq<u8> {
        self.buffer@
    }

    /// The number of free low bits in the last byte.
    pub closed spec fn free_bits(&self) -> u8 {
        self.bit_rem
    }

    /// The writer's bits are its bytes' bits up to the free bits, which are clear.
    pub proof fn lemma_bytes(&self)
        requires
            self.wf(),
        ensures
            self.free_bits() < 8,
            self.bytes().len() == 0 ==> self.free_bits() == 0,
            self@.len() + self.free_bits() == 8 * self.bytes().len(),
            bytes_bits(self.bytes()) =~= self@ + zeros(self.free_bits() as nat),
    {
        let n = self.buffer@.len();
        let r = self.bit_rem as nat;
        if n > 0 {
            let last = self.buffer@.last() as nat;
            lemma_bytes_bits_last(self.buffer@);
            lemma_pow2_pos(r);
            lemma_fundamental_div_mod(last as int, pow2(r) as int);
            lemma_bits_of_split(last, (8 - r) as nat, r);
            lemma_bits_of_len(last / pow2(r), (8 - r) as nat);
            lemma_bits_of_len(0, r);
            lemma_bits_of_zero(r);
            lemma_bits_of_len(last, 8);
        }
    }

    pub fn new() -> (w: Self)
        ensures
            w.wf(),
            w@ == Seq::<bool>::empty(),
    {
        Self { buffer: Vec::new(), bit_rem: 0 }
    }

    /// Appends the low `size` bits of `value`, most significant first.
    #[verifier::rlimit(50)]
    #[verifier::spinoff_prover]
    pub fn write_msb(&mut self, value: u32, size: usize)
        requires
            old(self).wf(),
            size < 32 + old(self).room(),
        ensures
            final(self).wf(),
            final(self)@ == old(self)@ + bits_of(value as nat, size as nat),
    {
        let mut remaining = size;
        proof {
            lemma_pow2_pos(size as nat);
            lemma_bits_of_len(0, 0);
            assert(self@ =~= old(self)@ + bits_of(value as nat / pow2(size as nat), 0));
        }
        while remaining > 0
            invariant
                self.wf(),
                remaining <= size,
                remaining < 32 || (remaining == size && self.room() == old(self).room()),
                size < 32 + old(self).room(),
                self@ == old(self)@ + bits_of(
                    value as nat / pow2(remaining as nat),
                    (size - remaining) as nat,
                ),
            decreases remaining,
        {
            let ghost before = self@;
            if self.bit_rem == 0 {
                proof {
                    lemma_push_zero(self.buffer@);
                }
                self.buffer.push(0);
                self.bit_rem = 8;
                proof {
                    lemma2_to64();
                }
            }
            let take = if remaining < self.bit_rem as usize {
                remaining
            } else {
                self.bit_rem as usize
            };
            let sh = (remaining - take) as u32;
            proof {
                lemma_u32_shr_is_div(value, sh);
                lemma_u32_one_shl(take as u32);
                lemma_u32_low_bits_mask_is_mod(value >> sh, take as nat);
                lemma_pow2_pos(take as nat);
                lemma_pow2_adds(take as nat, (8 - take) as nat);
                lemma_pow2_pos((8 - take) as nat);
                lemma2_to64();
            }
            let chunk = ((value >> sh) & ((1u32 << (take as u32)) - 1)) as u8;
            let shift = self.bit_rem as usize - take;
            let last = self.buffer.len() - 1;
            let old_byte = self.buffer[last];
            proof {
                lemma_u32_one_shl((shift + take) as u32);
                lemma_pow2_adds(shift as nat, take as nat);
                lemma_pow2_pos(shift as nat);
                lemma2_to64();
                assert(chunk * pow2(shift as nat) <= 256) by (nonlinear_arith)
                    requires
                        chunk < pow2(take as nat),
                        pow2((shift + take) as nat) == pow2(shift as nat) * pow2(take as nat),
                        pow2((shift + take) as nat) <= 256,
                        pow2(shift as nat) > 0,
                ;
                lemma_u32_one_shl(take as u32);
                lemma_u8_or_disjoint(old_byte, chunk, shift as u8, take as u8);
                lemma_u32_one_shl(shift as u32);
                lemma_u32_shl_is_mul(chunk as u32, shift as u32);
            }
            let new_byte = old_byte | (chunk << (shift as u8));
            let ghost buf0 = self.buffer@;
            let ghost r0 = self.bit_rem;
            self.buffer.set(last, new_byte);
            self.bit_rem = self.bit_rem - take as u8;
            remaining = remaining - take;
            proof {
                let r = (shift + take) as nat;
                assert(chunk as nat == (value as nat / pow2(sh as nat)) % pow2(take as nat));
                assert(new_byte as nat == buf0.last() as nat + chunk * pow2(shift as nat));
                lemma_fill_last_byte(buf0, r, chunk as nat, take as nat, new_byte);
                assert(self@ == before + bits_of(chunk as nat, take as nat));
                lemma_next_chunk(
                    value as nat,
                    (remaining + take) as nat,
                    take as nat,
                    (size - remaining - take) as nat,
                );
            }
        }
        proof {
            lemma2_to64();
            assert(value as nat / pow2(0) == value as nat);
        }
    }

    /// The finished stream.
    #[inline]
    pub fn to_stream(self) -> (s: BitStream)
        requires
            self.wf(),
        ensures
            s.bytes() == self.bytes(),
            s.free_bits() == self.free_bits(),
            s.bits() == self@ + zeros(s.free_bits() as nat),
            s.free_bits() < 8,
            s.bytes().len() == 0 ==> s.free_bits() == 0,
            s.bits().take(self@.len() as int) == self@,
    {
        proof {
            self.lemma_bytes();
            assert(bytes_bits(self.bytes()).take(self@.len() as int) =~= self@);
        }
        BitStream::new(self.buffer, self.bit_rem)
    }
}

/// Reads bits, most significant first, from a byte slice.
pub struct BitReader<'a> {
    buffer: &'a [u8],
    byte_idx: usize,
    /// The number of unread bits of the current byte.
    bit_rem: u8,
}

impl<'a> BitReader<'a> {
    /// The bytes being read.
    pub closed spec fn data(&self) -> Seq<u8> {
        self.buffer@
    }

    /// The number of bits read so far.
    pub closed spec fn pos(&self) -> nat {
        (8 * self.byte_idx + 8 - self.bit_rem) as nat
    }

    pub closed spec fn wf(&self) -> bool {
        &&& self.bit_rem <= 8
        &&& self.byte_idx < self.buffer@.len() || (self.byte_idx == self.buffer@.len()
            && self.bit_rem == 8)
    }

    /// Every bit of the data.
    pub open spec fn bits(&self) -> Seq<bool> {
        bytes_bits(self.data())
    }

    /// The reader never passes the end of its data.
    pub proof fn lemma_pos_bound(&self)
        requires
            self.wf(),
        ensures
            self.pos() <= self.bits().len(),
    {
    }

    pub fn new(buffer: &'a [u8]) -> (r: Self)
        ensures
            r.wf(),
            r.data() == buffer@,
            r.pos() == 0,
    {
        Self { buffer, byte_idx: 0, bit_rem: 8 }
    }

    /// Reads `size` bits as a number, most significant first, keeping its low 32 bits.
    /// Gives `None`, having read to the end, when fewer than `size` bits are left.
    pub fn read_msb(&mut self, size: usize) -> (res: Option<u32>)
        requires
            old(self).wf(),
        ensures
            final(self).wf(),
            final(self).data() == old(self).data(),
            old(self).pos() + size <= old(self).bits().len() ==> {
                &&& final(self).pos() == old(self).pos() + size
                &&& res == Some(
                    (bits_value(
                        old(self).bits().subrange(
                            old(self).pos() as int,
                            old(self).pos() + size,
                        ),
                    ) % 0x1_0000_0000) as u32,
                )
            },
            old(self).pos() + size > old(self).bits().len() ==> {
                &&& final(self).pos() == old(self).bits().len()
                &&& res is None
            },
    {
        let mut remaining = size;
        let mut result: u32 = 0;
        let ghost start = self.pos();
        let ghost bits = self.bits();
        proof {
            assert(bits.subrange(start as int, start as int) =~= Seq::<bool>::empty());
        }
        while remaining > 0
            invariant
                self.wf(),
                self.data() == old(self).data(),
                bits == self.bits(),
                start == old(self).pos(),
                remaining <= size,
                self.pos() == start + (size - remaining),
                self.pos() <= bits.len(),
                result as nat == bits_value(bits.subrange(start as int, self.pos() as int))
                    % 0x1_0000_0000,
            decreases remaining,
        {
            let len = self.buffer.len();
            if self.bit_rem == 0 {
                self.byte_idx = self.byte_idx + 1;
                self.bit_rem = 8;
            }
            if self.byte_idx >= self.buffer.len() {
                return None;
            }
            let take = if remaining < self.bit_rem as usize {
                remaining
            } else {
                self.bit_rem as usize
            };
            let shift = self.bit_rem as usize - take;
            let byte = self.buffer[self.byte_idx];
            let ghost p = self.pos();
            proof {
                lemma_u32_one_shl(take as u32);
                lemma_u32_shr_is_div(byte as u32, shift as u32);
                lemma_u32_low_bits_mask_is_mod((byte as u32) >> (shift as u32), take as nat);
                lemma_pow2_pos(take as nat);
            }
            let chunk = ((byte as u32) >> (shift as u32)) & ((1u32 << (take as u32)) - 1);
            proof {
                lemma_u32_shift_in(result, chunk, take as u32);
                lemma_u64_pow2_no_overflow(take as nat);
                lemma_u64_shl_is_mul(1, take as u64);
            }
            let ghost old_result = result;
            result = (result << (take as u32)) | chunk;
            self.bit_rem = self.bit_rem - take as u8;
            remaining = remaining - take;
            proof {
                let r = (shift + take) as nat;
                lemma_byte_chunk(byte as nat, r, take as nat);
                lemma_bytes_bits_window(
                    self.buffer@,
                    self.byte_idx as int,
                    8 - r,
                    8 - r + take,
                );
                let before = bits.subrange(start as int, p as int);
                let piece = bits.subrange(p as int, p + take);
                assert(bits.subrange(start as int, self.pos() as int) =~= before + piece);
                lemma_bits_value_append(before, piece);
                let m = 0x1_0000_0000int;
                let vb = bits_value(before) as int;
                let pt = pow2(take as nat) as int;
                lemma_mul_mod_noop_left(vb, pt, m);
                lemma_add_mod_noop(vb * pt, chunk as int, m);
                lemma_add_mod_noop((vb % m) * pt, chunk as int, m);
                lemma_mod_twice((vb % m) * pt, m);
                lemma_mod_twice(vb * pt, m);
                lemma_small_mod(chunk as nat, m as nat);
            }
        }
        Some(result)
    }
}

/// A value that writes itself as a fixed bit pattern.
pub trait BitWrite {
    /// The bits that `bit_write_msb` appends.
    spec fn bit_repr(&self) -> Seq<bool>;

    fn bit_write_msb(&self, writer: &mut BitWriter)
        requires
            old(writer).wf(),
        ensures
            final(writer).wf(),
            final(writer)@ == old(writer)@ + self.bit_repr(),
    ;
}

/// A value that reads itself from a fixed number of bits.
pub trait BitRead: Sized {
    /// The number of bits that `bit_read_msb` consumes.
    spec fn bit_width() -> nat;

    /// The value that `bit_read_msb` gives for the bits it consumes.
    spec fn from_bit_repr(bits: Seq<bool>) -> Self;

    fn bit_read_msb(reader: &mut BitReader) -> (v: Self)
        requires
            old(reader).wf(),
            old(reader).pos() + Self::bit_width() <= old(reader).bits().len(),
        ensures
            final(reader).wf(),
            final(reader).data() == old(reader).data(),
            final(reader).pos() == old(reader).pos() + Self::bit_width(),
            v == Self::from_bit_repr(
                old(reader).bits().subrange(
                    old(reader).pos() as int,
                    (old(reader).pos() + Self::bit_width()) as int,
                ),
            ),
    ;
}

/// What is written is read back: where a stream begins with the written bits,
/// and the `n <= 32` bits written at position `p` are those of `v`, reading `n`
/// bits at `p` gives `v` modulo `2^n`.
pub proof fn lemma_read_back(written: Seq<bool>, stream: Seq<bool>, p: int, v: u32, n: nat)
    requires
        0 <= p,
        p + n <= written.len(),
        n <= 32,
        written.len() <= stream.len(),
        stream.take(written.len() as int) == written,
        written.subrange(p, p + n) == bits_of(v as nat, n),
    ensures
        p + n <= stream.len(),
        (bits_value(stream.subrange(p, p + n)) % 0x1_0000_0000) as u32 as nat == v as nat % pow2(
            n,
        ),
{
    assert forall|i: int| 0 <= i < n implies #[trigger] stream.subrange(p, p + n)[i] == written.subrange(
        p,
        p + n,
    )[i] by {
        assert(stream.take(written.len() as int)[p + i] == stream[p + i]);
    }
    assert(stream.subrange(p, p + n) =~= written.subrange(p, p + n));
    lemma_bits_value_of(v as nat, n);
    lemma_pow2_pos(n);
    lemma_pow2_adds(n, (32 - n) as nat);
    lemma_pow2_pos((32 - n) as nat);
    lemma2_to64();
    assert(v as nat % pow2(n) < 0x1_0000_0000) by (nonlinear_arith)
        requires
            v as nat % pow2(n) < pow2(n),
            pow2(32) == pow2(n) * pow2((32 - n) as nat),
            pow2((32 - n) as nat) > 0,
            pow2(32) == 0x1_0000_0000,
    ;
    lemma_mod_pos_bound(v as int, pow2(n) as int);
    lemma_small_mod((v as nat % pow2(n)) as nat, 0x1_0000_0000);
}


/// Writers in a well-formed state are told apart by the bits written: two with the
/// same bits have the same bytes and the same count of free bits.
pub proof fn lemma_writer_determined(w1: BitWriter, w2: BitWriter)
    requires
        w1.wf(),
        w2.wf(),
        w1@ == w2@,
    ensures
        w1.bytes() == w2.bytes(),
        w1.free_bits() == w2.free_bits(),
{
    w1.lemma_bytes();
    w2.lemma_bytes();
    assert(w1.bytes().len() == w2.bytes().len());
    lemma_bytes_bits_injective(w1.bytes(), w2.bytes());
}

/// A write may be split at any bit: writing the low `a + b` bits of `v` appends the
/// same bits as writing `v >> b` in `a` bits and then the low `b` bits of `v`, so
/// writers that start alike and take either path end alike. A write of no bits
/// appends nothing.
pub proof fn lemma_write_split(w: BitWriter, w1: BitWriter, w2: BitWriter, v: u32, a: nat, b: u32)
    requires
        1 <= b < 32,
        a + b <= 32,
        w1.wf(),
        w2.wf(),
        w1@ == w@ + bits_of(v as nat, (a + b) as nat),
        w2@ == w@ + bits_of((v >> b) as nat, a) + bits_of(
            (v & (((1u32 << b) - 1) as u32)) as nat,
            b as nat,
        ),
    ensures
        bits_of(v as nat, (a + b) as nat) == bits_of((v >> b) as nat, a) + bits_of(
            (v & (((1u32 << b) - 1) as u32)) as nat,
            b as nat,
        ),
        bits_of(v as nat, 0) == Seq::<bool>::empty(),
        w1.bytes() == w2.bytes(),
        w1.free_bits() == w2.free_bits(),
{
    lemma_bits_of_split(v as nat, a, b as nat);
    lemma_u32_shr_is_div(v, b);
    lemma_u32_pow2_no_overflow(b as nat);
    lemma_u32_shl_is_mul(1, b);
    lemma_u32_low_bits_mask_is_mod(v, b as nat);
    assert(((1u32 << b) - 1) as u32 == low_bits_mask(b as nat) as u32);
    assert(bits_of(v as nat, 0) =~= Seq::<bool>::empty()) by {
        lemma_bits_of_len(v as nat, 0);
    }
    assert(w1@ =~= w2@);
    lemma_writer_determined(w1, w2);
}
} // verus!
