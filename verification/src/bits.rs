//! Big-endian bit strings: their meaning as numbers and as bytes, and a
//! reader and a writer that move a bit cursor over a byte buffer.

use crate::error::Error;
use vstd::arithmetic::div_mod::*;
use vstd::arithmetic::power2::*;
use vstd::bits::*;
use vstd::prelude::*;

verus! {

/// The number that a bit string denotes, most significant bit first.
pub open spec fn bits_value(bits: Seq<bool>) -> nat
    decreases bits.len(),
{
    if bits.len() == 0 {
        0
    } else {
        2 * bits_value(bits.drop_last()) + if bits.last() {
            1nat
        } else {
            0nat
        }
    }
}

/// The `width` lowest bits of `value`, most significant bit first.
pub open spec fn value_bits(width: nat, value: nat) -> Seq<bool>
    decreases width,
{
    if width == 0 {
        Seq::empty()
    } else {
        value_bits((width - 1) as nat, value / 2).push(value % 2 == 1)
    }
}

/// The bits of a byte string: eight per byte, most significant bit first.
pub open spec fn bytes_bits(bytes: Seq<u8>) -> Seq<bool> {
    Seq::new(8 * bytes.len(), |i: int| value_bits(8, bytes[i / 8] as nat)[i % 8])
}

/// The bytes that a bit string packs into, eight bits per byte. Bits past
/// the last multiple of eight are left out.
pub open spec fn bits_bytes(bits: Seq<bool>) -> Seq<u8> {
    Seq::new(bits.len() / 8, |i: int| bits_value(bits.subrange(8 * i, 8 * i + 8)) as u8)
}

/// `count` zero bits.
pub open spec fn zero_bits(count: nat) -> Seq<bool> {
    Seq::new(count, |i: int| false)
}

/// How many zero bits bring a stream of `len` bits to a byte boundary.
pub open spec fn padding_len(len: nat) -> nat {
    ((8 - len % 8) % 8) as nat
}

/// A bit string filled up with zero bits to the next byte boundary.
pub open spec fn padded(bits: Seq<bool>) -> Seq<bool> {
    bits + zero_bits(padding_len(bits.len()))
}

/// The places at which a bit string holds a set bit.
pub open spec fn true_places(bits: Seq<bool>) -> Set<int> {
    Set::new(|place: int| 0 <= place < bits.len() && bits[place])
}

/// The number that the `width` bits from `start` on denote.
pub open spec fn field(bits: Seq<bool>, start: int, width: int) -> nat {
    bits_value(bits.subrange(start, start + width))
}

/// A number written in `width` bits takes `width` bits.
pub proof fn lemma_value_bits_len(width: nat, value: nat)
    ensures
        value_bits(width, value).len() == width,
    decreases width,
{
    if width > 0 {
        lemma_value_bits_len((width - 1) as nat, value / 2);
    }
}

/// A bit string of length `n` denotes a number below `2^n`.
pub proof fn lemma_bits_value_bound(bits: Seq<bool>)
    ensures
        bits_value(bits) < pow2(bits.len()),
    decreases bits.len(),
{
    if bits.len() == 0 {
        lemma2_to64();
    } else {
        lemma_bits_value_bound(bits.drop_last());
        lemma_pow2_unfold(bits.len());
    }
}

/// Writing a number in `width` bits and reading the bits back gives the
/// number, if it is below `2^width`.
pub proof fn lemma_value_of_bits(width: nat, value: nat)
    requires
        value < pow2(width),
    ensures
        bits_value(value_bits(width, value)) == value,
    decreases width,
{
    if width == 0 {
        lemma2_to64();
    } else {
        let rest = value_bits((width - 1) as nat, value / 2);
        lemma_pow2_unfold(width);
        lemma_value_of_bits((width - 1) as nat, value / 2);
        assert(value_bits(width, value).drop_last() =~= rest);
    }
}

/// Reading a bit string as a number and writing the number in as many bits
/// gives the bit string.
pub proof fn lemma_bits_of_value(bits: Seq<bool>)
    ensures
        value_bits(bits.len(), bits_value(bits)) == bits,
    decreases bits.len(),
{
    if bits.len() > 0 {
        lemma_bits_of_value(bits.drop_last());
        assert(value_bits(bits.len(), bits_value(bits)) =~= bits);
    }
}

/// Bit `i` of a number written in `width` bits is its binary digit of
/// weight `2^(width - 1 - i)`.
pub proof fn lemma_value_bits_index(width: nat, value: nat, i: int)
    requires
        0 <= i < width,
    ensures
        value_bits(width, value).len() == width,
        value_bits(width, value)[i] == ((value / pow2((width - 1 - i) as nat)) % 2 == 1),
    decreases width,
{
    lemma_value_bits_len(width, value);
    lemma_value_bits_len((width - 1) as nat, value / 2);
    if i == width - 1 {
        lemma2_to64();
        assert(pow2(0) == 1);
        assert(value_bits(width, value)[i] == (value % 2 == 1));
        assert(value / 1 == value);
    } else {
        let e = (width - 2 - i) as nat;
        let half = value / 2;
        lemma_value_bits_index((width - 1) as nat, half, i);
        assert(value_bits(width, value)[i] == value_bits((width - 1) as nat, half)[i]);
        lemma_pow2_pos(e);
        lemma_div_denominator(value as int, 2, pow2(e) as int);
        lemma_pow2_unfold(e + 1);
        assert((width - 1 - i) as nat == e + 1);
        assert((half as int) / (pow2(e) as int) == (value as int) / (pow2(e + 1) as int));
    }
}

/// The bits of a byte string that ends in `last` are the bits of what comes
/// before, then the eight bits of `last`.
pub proof fn lemma_bytes_bits_push(bytes: Seq<u8>, last: u8)
    ensures
        bytes_bits(bytes.push(last)) == bytes_bits(bytes) + value_bits(8, last as nat),
{
    lemma_value_bits_len(8, last as nat);
    assert(bytes_bits(bytes.push(last)) =~= bytes_bits(bytes) + value_bits(8, last as nat));
}

/// Packing the bits of a byte string gives the byte string.
pub proof fn lemma_bits_bytes_of_bytes(bytes: Seq<u8>)
    ensures
        bits_bytes(bytes_bits(bytes)) == bytes,
{
    let bits = bytes_bits(bytes);
    assert forall|i: int| 0 <= i < bytes.len() implies #[trigger] bits_bytes(bits)[i] == bytes[i] by {
        let byte = value_bits(8, bytes[i] as nat);
        lemma_value_bits_len(8, bytes[i] as nat);
        assert(bits.subrange(8 * i, 8 * i + 8) =~= byte);
        lemma2_to64();
        lemma_value_of_bits(8, bytes[i] as nat);
    }
    assert(bits_bytes(bits) =~= bytes);
}

/// Unpacking the bytes of a bit string that ends on a byte boundary gives
/// the bit string.
pub proof fn lemma_bytes_bits_of_bits(bits: Seq<bool>)
    requires
        bits.len() % 8 == 0,
    ensures
        bytes_bits(bits_bytes(bits)) == bits,
{
    let bytes = bits_bytes(bits);
    assert forall|i: int| 0 <= i < bits.len() implies #[trigger] bytes_bits(bytes)[i] == bits[i] by {
        let chunk = bits.subrange(8 * (i / 8), 8 * (i / 8) + 8);
        lemma_bits_value_bound(chunk);
        lemma2_to64();
        lemma_bits_of_value(chunk);
        assert(bits_value(chunk) as u8 as nat == bits_value(chunk));
    }
    assert(bytes_bits(bytes) =~= bits);
}

/// A cursor that reads a byte buffer bit by bit, the most significant bit of
/// each byte first.
pub struct BitReader<'a> {
    data: &'a [u8],
    /// Index of the byte that holds the next bit.
    byte: usize,
    /// Place of the next bit in that byte; 0 is the most significant.
    bit: u8,
}

impl<'a> BitReader<'a> {
    #[verifier::type_invariant]
    spec fn inv(self) -> bool {
        &&& self.bit < 8
        &&& self.byte <= self.data@.len()
        &&& self.byte == self.data@.len() ==> self.bit == 0
    }

    /// The bits that have not been read yet.
    pub closed spec fn remaining(self) -> Seq<bool> {
        bytes_bits(self.data@).skip(8 * self.byte + self.bit)
    }

    /// A reader at the first bit of `data`.
    pub fn new(data: &'a [u8]) -> (reader: Self)
        ensures
            reader.remaining() == bytes_bits(data@),
    {
        let reader = BitReader { data, byte: 0, bit: 0 };
        assert(reader.remaining() =~= bytes_bits(data@));
        reader
    }

    /// The number of bits that have not been read yet.
    pub fn remaining_len(&self) -> (len: u128)
        ensures
            len == self.remaining().len(),
    {
        proof {
            use_type_invariant(self);
        }
        let bytes_left: usize = self.data.len() - self.byte;
        (bytes_left as u128) * 8 - (self.bit as u128)
    }

    /// Reads one bit.
    pub fn read_bit(&mut self) -> (result: Result<bool, Error>)
        ensures
            match result {
                Ok(bit) => {
                    &&& old(self).remaining().len() > 0
                    &&& bit == old(self).remaining()[0]
                    &&& final(self).remaining() == old(self).remaining().skip(1)
                },
                Err(e) => {
                    &&& e == Error::UnexpectedEndOfInput
                    &&& old(self).remaining().len() == 0
                    &&& final(self).remaining() == old(self).remaining()
                },
            },
    {
        proof {
            use_type_invariant(&*self);
        }
        if self.byte >= self.data.len() {
            return Err(Error::UnexpectedEndOfInput);
        }
        let ghost before = self.remaining();
        let ghost place: int = 8 * self.byte + self.bit;
        let value: u8 = self.data[self.byte];
        let shift: u8 = 7 - self.bit;
        let bit = (value >> shift) % 2 == 1;
        proof {
            lemma_u8_shr_is_div(value, shift);
            lemma_value_bits_index(8, value as nat, self.bit as int);
            assert(place / 8 == self.byte && place % 8 == self.bit);
            assert(before[0] == bytes_bits(self.data@)[place]);
        }
        if self.bit == 7 {
            self.bit = 0;
            self.byte = self.byte + 1;
        } else {
            self.bit = self.bit + 1;
        }
        assert(self.remaining() =~= before.skip(1));
        Ok(bit)
    }

    /// Reads the next `width` bits as one unsigned number, most significant
    /// bit first. Nothing is read where fewer than `width` bits are left.
    pub fn read(&mut self, width: u32) -> (result: Result<u64, Error>)
        requires
            1 <= width <= 64,
        ensures
            match result {
                Ok(value) => {
                    &&& old(self).remaining().len() >= width
                    &&& value == bits_value(old(self).remaining().take(width as int))
                    &&& final(self).remaining() == old(self).remaining().skip(width as int)
                },
                Err(e) => {
                    &&& e == Error::UnexpectedEndOfInput
                    &&& old(self).remaining().len() < width
                    &&& final(self).remaining() == old(self).remaining()
                },
            },
    {
        if self.remaining_len() < width as u128 {
            return Err(Error::UnexpectedEndOfInput);
        }
        let ghost before = self.remaining();
        let mut value: u64 = 0;
        let mut count: u32 = 0;
        assert(before.take(0) =~= Seq::<bool>::empty());
        proof {
            lemma2_to64();
        }
        while count < width
            invariant
                count <= width <= 64,
                before.len() >= width,
                self.remaining() == before.skip(count as int),
                value == bits_value(before.take(count as int)),
                value < pow2(count as nat),
            decreases width - count,
        {
            let bit = match self.read_bit() {
                Ok(bit) => bit,
                Err(e) => {
                    return Err(e);
                },
            };
            proof {
                let next = before.take(count + 1);
                assert(next.drop_last() =~= before.take(count as int));
                assert(next.last() == bit);
                assert(self.remaining() =~= before.skip(count + 1));
                lemma_pow2_unfold((count + 1) as nat);
                if count < 63 {
                    lemma_pow2_strictly_increases((count + 1) as nat, 64);
                }
                lemma2_to64();
            }
            value = value * 2 + if bit {
                1
            } else {
                0
            };
            count = count + 1;
        }
        Ok(value)
    }

    /// Reads the next `count` bits, each as a flag. Nothing is read where
    /// fewer than `count` bits are left.
    pub fn read_bits(&mut self, count: usize) -> (result: Result<Vec<bool>, Error>)
        ensures
            match result {
                Ok(bits) => {
                    &&& old(self).remaining().len() >= count
                    &&& bits@ == old(self).remaining().take(count as int)
                    &&& final(self).remaining() == old(self).remaining().skip(count as int)
                },
                Err(e) => {
                    &&& e == Error::UnexpectedEndOfInput
                    &&& old(self).remaining().len() < count
                    &&& final(self).remaining() == old(self).remaining()
                },
            },
    {
        if self.remaining_len() < count as u128 {
            return Err(Error::UnexpectedEndOfInput);
        }
        let ghost before = self.remaining();
        let mut bits: Vec<bool> = Vec::new();
        let mut done: usize = 0;
        assert(bits@ =~= before.take(0));
        while done < count
            invariant
                done <= count <= before.len(),
                self.remaining() == before.skip(done as int),
                bits@ == before.take(done as int),
            decreases count - done,
        {
            let bit = match self.read_bit() {
                Ok(bit) => bit,
                Err(e) => {
                    return Err(e);
                },
            };
            assert(before.take(done as int).push(bit) =~= before.take(done + 1));
            assert(self.remaining() =~= before.skip(done + 1));
            bits.push(bit);
            done = done + 1;
        }
        Ok(bits)
    }

    /// Reads the next `count` bytes, each as eight bits from wherever the
    /// cursor stands. Nothing is read where fewer bits are left.
    pub fn read_bytes(&mut self, count: usize) -> (result: Result<Vec<u8>, Error>)
        ensures
            match result {
                Ok(bytes) => {
                    &&& old(self).remaining().len() >= 8 * count
                    &&& bytes@ == bits_bytes(old(self).remaining().take(8 * count))
                    &&& final(self).remaining() == old(self).remaining().skip(8 * count)
                },
                Err(e) => {
                    &&& e == Error::UnexpectedEndOfInput
                    &&& old(self).remaining().len() < 8 * count
                    &&& final(self).remaining() == old(self).remaining()
                },
            },
    {
        if self.remaining_len() < (count as u128) * 8 {
            return Err(Error::UnexpectedEndOfInput);
        }
        let ghost before = self.remaining();
        let mut bytes: Vec<u8> = Vec::new();
        let mut done: usize = 0;
        assert(bytes@ =~= bits_bytes(before.take(0)));
        while done < count
            invariant
                done <= count,
                before.len() >= 8 * count,
                self.remaining() == before.skip(8 * done),
                bytes@ == bits_bytes(before.take(8 * done)),
            decreases count - done,
        {
            let value = match self.read(8) {
                Ok(value) => value,
                Err(e) => {
                    return Err(e);
                },
            };
            proof {
                let chunk = before.skip(8 * done).take(8);
                lemma_bits_value_bound(chunk);
                lemma2_to64();
                let grown = before.take(8 * (done + 1));
                assert(grown.subrange(8 * done, 8 * done + 8) =~= chunk);
                assert forall|i: int| 0 <= i < done implies #[trigger] bits_bytes(grown)[i]
                    == bytes@[i] by {
                    assert(grown.subrange(8 * i, 8 * i + 8) =~= before.take(8 * done).subrange(
                        8 * i,
                        8 * i + 8,
                    ));
                }
                assert(bits_bytes(grown) =~= bytes@.push(value as u8));
                assert(self.remaining() =~= before.skip(8 * (done + 1)));
            }
            bytes.push(value as u8);
            done = done + 1;
        }
        Ok(bytes)
    }
}

/// The bits of a byte that is not complete yet.
struct PartialByte {
    /// The bits, as a number.
    value: u8,
    /// How many bits there are.
    filled: u8,
}

impl PartialByte {
    #[verifier::type_invariant]
    spec fn inv(self) -> bool {
        &&& self.filled < 8
        &&& self.value < pow2(self.filled as nat)
    }
}

/// A buffer that is filled bit by bit, the most significant bit of each byte
/// first.
pub struct BitWriter {
    /// The bytes that are complete.
    bytes: Vec<u8>,
    /// The bits after them.
    tail: PartialByte,
}

impl BitWriter {
    /// The bits written so far.
    pub closed spec fn bits(self) -> Seq<bool> {
        bytes_bits(self.bytes@) + value_bits(self.tail.filled as nat, self.tail.value as nat)
    }

    /// A writer that holds no bits.
    pub fn new() -> (writer: Self)
        ensures
            writer.bits() == Seq::<bool>::empty(),
    {
        proof {
            lemma2_to64();
        }
        let writer = BitWriter { bytes: Vec::new(), tail: PartialByte { value: 0, filled: 0 } };
        assert(writer.bits() =~= Seq::<bool>::empty());
        writer
    }

    /// Appends one bit.
    pub fn write_bit(&mut self, bit: bool)
        ensures
            final(self).bits() == old(self).bits().push(bit),
    {
        proof {
            use_type_invariant(&self.tail);
            lemma2_to64();
            if self.tail.filled < 7 {
                lemma_pow2_strictly_increases(self.tail.filled as nat, 7);
            }
            lemma_pow2_unfold((self.tail.filled + 1) as nat);
        }
        let ghost before = self.bits();
        let ghost width = self.tail.filled as nat;
        let ghost head = self.tail.value as nat;
        let grown: u8 = self.tail.value * 2 + if bit {
            1
        } else {
            0
        };
        assert(value_bits(width + 1, grown as nat) =~= value_bits(width, head).push(bit));
        if self.tail.filled == 7 {
            proof {
                lemma_bytes_bits_push(self.bytes@, grown);
            }
            self.bytes.push(grown);
            self.tail = PartialByte { value: 0, filled: 0 };
            assert(self.bits() =~= before.push(bit));
        } else {
            self.tail = PartialByte { value: grown, filled: self.tail.filled + 1 };
            assert(self.bits() =~= before.push(bit));
        }
    }

    /// Appends the `width` lowest bits of `value`, most significant bit
    /// first. Nothing is written where `value` does not fit in `width` bits.
    pub fn write(&mut self, width: u32, value: u64) -> (result: Result<(), Error>)
        requires
            1 <= width <= 64,
        ensures
            match result {
                Ok(_) => {
                    &&& value < pow2(width as nat)
                    &&& final(self).bits() == old(self).bits() + value_bits(
                        width as nat,
                        value as nat,
                    )
                },
                Err(e) => {
                    &&& e == Error::FieldOverflow
                    &&& value >= pow2(width as nat)
                    &&& final(self).bits() == old(self).bits()
                },
            },
    {
        proof {
            lemma2_to64();
            lemma_pow2_pos(width as nat);
            if width < 64 {
                lemma_u64_shr_is_div(value, width as u64);
                if value < pow2(width as nat) {
                    lemma_basic_div(value as int, pow2(width as nat) as int);
                } else {
                    lemma_div_is_ordered(
                        pow2(width as nat) as int,
                        value as int,
                        pow2(width as nat) as int,
                    );
                    lemma_div_by_multiple(1, pow2(width as nat) as int);
                }
            }
        }
        if width < 64 && (value >> (width as u64)) != 0 {
            return Err(Error::FieldOverflow);
        }
        let ghost before = self.bits();
        let mut count: u32 = 0;
        assert(self.bits() =~= before + value_bits(0, value as nat / pow2(width as nat)));
        while count < width
            invariant
                count <= width <= 64,
                self.bits() == before + value_bits(
                    count as nat,
                    value as nat / pow2((width - count) as nat),
                ),
            decreases width - count,
        {
            let shift: u32 = width - 1 - count;
            let bit = (value >> (shift as u64)) % 2 == 1;
            proof {
                let high = value as nat / pow2((shift + 1) as nat);
                let low = value as nat / pow2(shift as nat);
                lemma_u64_shr_is_div(value, shift as u64);
                lemma_pow2_pos(shift as nat);
                lemma_pow2_unfold((shift + 1) as nat);
                lemma_div_denominator(value as int, pow2(shift as nat) as int, 2);
                assert(low / 2 == high);
                assert(value_bits((count + 1) as nat, low) =~= value_bits(count as nat, high).push(
                    bit,
                ));
                assert((before + value_bits(count as nat, high)).push(bit) =~= before + value_bits(
                    (count + 1) as nat,
                    low,
                ));
            }
            self.write_bit(bit);
            count = count + 1;
        }
        proof {
            lemma2_to64();
            assert(pow2(0) == 1);
            assert(value as nat / 1 == value as nat);
        }
        Ok(())
    }

    /// Appends each flag of `bits` as one bit.
    pub fn write_bits(&mut self, bits: &[bool])
        ensures
            final(self).bits() == old(self).bits() + bits@,
    {
        let ghost before = self.bits();
        let mut done: usize = 0;
        assert(self.bits() =~= before + bits@.take(0));
        while done < bits.len()
            invariant
                done <= bits@.len(),
                self.bits() == before + bits@.take(done as int),
            decreases bits@.len() - done,
        {
            let ghost so_far = self.bits();
            self.write_bit(bits[done]);
            assert(so_far.push(bits@[done as int]) =~= before + bits@.take(done + 1));
            done = done + 1;
        }
        assert(bits@.take(done as int) =~= bits@);
    }

    /// Appends each byte of `bytes` as eight bits, wherever the stream
    /// stands.
    pub fn write_bytes(&mut self, bytes: &[u8])
        ensures
            final(self).bits() == old(self).bits() + bytes_bits(bytes@),
    {
        let ghost before = self.bits();
        let mut done: usize = 0;
        assert(self.bits() =~= before + bytes_bits(bytes@.take(0)));
        while done < bytes.len()
            invariant
                done <= bytes.len(),
                self.bits() == before + bytes_bits(bytes@.take(done as int)),
            decreases bytes.len() - done,
        {
            proof {
                lemma2_to64();
                lemma_bytes_bits_push(bytes@.take(done as int), bytes[done as int]);
                assert(bytes@.take(done + 1) =~= bytes@.take(done as int).push(bytes[done as int]));
            }
            let ghost so_far = self.bits();
            match self.write(8, bytes[done] as u64) {
                Ok(_) => {},
                Err(_) => {},
            }
            assert(self.bits() =~= before + bytes_bits(bytes@.take(done + 1)));
            done = done + 1;
        }
        assert(bytes@.take(done as int) =~= bytes@);
    }

    /// Fills the current byte up with zero bits, so that the stream ends on
    /// a byte boundary.
    pub fn byte_align(&mut self)
        ensures
            final(self).bits() == padded(old(self).bits()),
            final(self).bits().len() % 8 == 0,
    {
        proof {
            use_type_invariant(&self.tail);
            lemma_value_bits_len(self.tail.filled as nat, self.tail.value as nat);
        }
        let ghost before = self.bits();
        if self.tail.filled == 0 {
            assert(before =~= padded(before));
            return ;
        }
        let missing: u8 = 8 - self.tail.filled;
        assert(missing == padding_len(before.len()));
        let mut zeros: u8 = 0;
        assert(self.bits() =~= before + zero_bits(0));
        while zeros < missing
            invariant
                zeros <= missing,
                self.bits() == before + zero_bits(zeros as nat),
            decreases missing - zeros,
        {
            let ghost so_far = self.bits();
            self.write_bit(false);
            zeros = zeros + 1;
            assert(so_far.push(false) =~= before + zero_bits(zeros as nat));
        }
    }

    /// The bytes of the stream, after it is filled up to a byte boundary
    /// with zero bits.
    pub fn into_bytes(self) -> (bytes: Vec<u8>)
        ensures
            bytes_bits(bytes@) == padded(self.bits()),
            bytes@ == bits_bytes(padded(self.bits())),
    {
        let mut writer = self;
        writer.byte_align();
        proof {
            use_type_invariant(&writer.tail);
            lemma_value_bits_len(writer.tail.filled as nat, writer.tail.value as nat);
            assert(writer.bits() =~= bytes_bits(writer.bytes@));
            lemma_bits_bytes_of_bytes(writer.bytes@);
        }
        writer.bytes
    }
}

} // verus!
