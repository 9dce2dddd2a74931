//! Byte storage with bump allocation and bounds-checked access.
//!
//! Addresses are 32-bit offsets into the byte sequence. Address 0 is never a
//! payload location: in a value slot it means that the value is absent.

use vstd::prelude::*;
use crate::bytes::bytes_append;
use crate::edits::{allocate_string, allocate_table, clear_slot};
use crate::error::NP_Error;
use crate::schema::NP_Schema;

verus! {

/// The largest size a buffer may grow to: addresses must fit in 32 bits.
pub const MAX_SIZE: usize = 0xFFFF_FFFF;

/// The four bytes that store `x`, least significant first.
pub open spec fn le32(x: u32) -> Seq<u8> {
    seq![
        (x % 256) as u8,
        (x / 256 % 256) as u8,
        (x / 65536 % 256) as u8,
        (x / 16777216) as u8,
    ]
}

/// The number that four bytes store, least significant first.
pub open spec fn le32_value(b: Seq<u8>) -> int
    recommends
        b.len() == 4,
{
    b[0] as int + 256 * (b[1] as int) + 65536 * (b[2] as int) + 16777216 * (b[3] as int)
}

/// Decoding undoes encoding.
pub proof fn lemma_le32_value_of_encoding(x: u32)
    ensures
        le32(x).len() == 4,
        le32_value(le32(x)) == x,
{
}

/// Encoding undoes decoding, and every four bytes decode to a 32-bit number.
pub proof fn lemma_le32_encoding_of_value(b: Seq<u8>)
    requires
        b.len() == 4,
    ensures
        0 <= le32_value(b) <= u32::MAX,
        le32(le32_value(b) as u32) == b,
{
    let b0: int = b[0] as int;
    let b1: int = b[1] as int;
    let b2: int = b[2] as int;
    let b3: int = b[3] as int;
    let v: int = le32_value(b);
    assert(v == b0 + 256 * (b1 + 256 * b2 + 65536 * b3));
    assert(v % 256 == b0 && v / 256 == b1 + 256 * b2 + 65536 * b3);
    assert(v == (b0 + 256 * b1) + 65536 * (b2 + 256 * b3));
    assert(v / 65536 == b2 + 256 * b3);
    assert(v == (b0 + 256 * b1 + 65536 * b2) + 16777216 * b3);
    assert(v / 16777216 == b3);
    assert((v / 256) % 256 == b1);
    assert((v / 65536) % 256 == b2);
    assert(le32(v as u32) =~= b);
}

/// Whether `length` bytes starting at `address` lie inside `mem`.
pub open spec fn in_bounds(mem: Seq<u8>, address: int, length: int) -> bool {
    0 <= address && 0 <= length && address + length <= mem.len()
}

/// What a read of `length` bytes at `address` returns.
pub open spec fn spec_read(mem: Seq<u8>, address: int, length: int) -> Result<Seq<u8>, NP_Error> {
    if in_bounds(mem, address, length) {
        Ok(mem.subrange(address, address + length))
    } else {
        Err(NP_Error::Address)
    }
}

/// `mem` with `bytes` laid over it from `address` on.
pub open spec fn spec_write(mem: Seq<u8>, address: int, bytes: Seq<u8>) -> Seq<u8> {
    Seq::new(
        mem.len(),
        |i: int|
            if address <= i < address + bytes.len() {
                bytes[i - address]
            } else {
                mem[i]
            },
    )
}

/// The address stored in the four bytes at `address`.
pub open spec fn spec_read_address(mem: Seq<u8>, address: int) -> Result<u32, NP_Error> {
    if in_bounds(mem, address, 4) {
        Ok(le32_value(mem.subrange(address, address + 4)) as u32)
    } else {
        Err(NP_Error::Address)
    }
}

/// `n` zero bytes.
pub open spec fn zero_bytes(n: nat) -> Seq<u8> {
    Seq::new(n, |i: int| 0u8)
}

/// Encodes a number as four little-endian bytes.
pub fn u32_to_le_bytes(x: u32) -> (r: Vec<u8>)
    ensures
        r@ == le32(x),
{
    let mut r: Vec<u8> = Vec::with_capacity(4);
    r.push((x % 256) as u8);
    r.push((x / 256 % 256) as u8);
    r.push((x / 65536 % 256) as u8);
    r.push((x / 16777216) as u8);
    assert(r@ =~= le32(x));
    r
}

/// Decodes the four little-endian bytes that start at `at`.
pub fn u32_from_le_bytes(b: &Vec<u8>, at: usize) -> (r: u32)
    requires
        at + 4 <= b.len(),
    ensures
        r == le32_value(b@.subrange(at as int, at + 4)),
{
    let b0: u32 = b[at] as u32;
    let b1: u32 = b[at + 1] as u32;
    let b2: u32 = b[at + 2] as u32;
    let b3: u32 = b[at + 3] as u32;
    b0 + 256 * b1 + 65536 * b2 + 16777216 * b3
}

/// A vector of `n` zero bytes.
pub fn zeroed(n: usize) -> (r: Vec<u8>)
    ensures
        r@ == zero_bytes(n as nat),
{
    let mut r: Vec<u8> = Vec::with_capacity(n);
    let mut i: usize = 0;
    while i < n
        invariant
            i <= n,
            r@ == zero_bytes(i as nat),
        decreases n - i,
    {
        r.push(0u8);
        i += 1;
        assert(r@ =~= zero_bytes(i as nat));
    }
    r
}

/// The byte storage behind a buffer, with the schema that describes what
/// it stores.
#[derive(Debug)]
pub struct NP_Memory<'a> {
    pub bytes: Vec<u8>,
    pub schema: &'a NP_Schema,
}

impl<'a> View for NP_Memory<'a> {
    type V = Seq<u8>;

    open spec fn view(&self) -> Seq<u8> {
        self.bytes@
    }
}

impl<'a> NP_Memory<'a> {
    /// Wraps bytes that were produced earlier.
    pub fn existing(bytes: Vec<u8>, schema: &'a NP_Schema) -> (r: Self)
        ensures
            r@ == bytes@,
            r.schema == schema,
    {
        NP_Memory { bytes, schema }
    }

    /// The current size in bytes.
    pub fn length(&self) -> (r: usize)
        ensures
            r == self@.len(),
    {
        self.bytes.len()
    }

    /// Appends `bytes` and returns the address where they begin. Nothing
    /// stored earlier moves. Fails, leaving the storage as it was, when the
    /// size would pass the 32-bit limit.
    pub fn malloc(&mut self, bytes: Vec<u8>) -> (r: Result<u32, NP_Error>)
        ensures
            final(self).schema == old(self).schema,
            old(self)@.len() + bytes@.len() <= MAX_SIZE ==> r == Ok::<u32, NP_Error>(
                old(self)@.len() as u32,
            ) && final(self)@ == old(self)@ + bytes@,
            old(self)@.len() + bytes@.len() > MAX_SIZE ==> r == Err::<u32, NP_Error>(
                NP_Error::Allocation,
            ) && final(self)@ == old(self)@,
    {
        let at: usize = self.bytes.len();
        if at > MAX_SIZE || bytes.len() > MAX_SIZE - at {
            return Err(NP_Error::Allocation);
        }
        let mut bytes = bytes;
        self.bytes.append(&mut bytes);
        Ok(at as u32)
    }

    /// Copies out `length` bytes starting at `address`.
    pub fn read(&self, address: usize, length: usize) -> (r: Result<Vec<u8>, NP_Error>)
        ensures
            match r {
                Ok(v) => spec_read(self@, address as int, length as int) == Ok::<
                    Seq<u8>,
                    NP_Error,
                >(v@),
                Err(e) => spec_read(self@, address as int, length as int) == Err::<
                    Seq<u8>,
                    NP_Error,
                >(e),
            },
    {
        let start: usize = address;
        let size: usize = self.bytes.len();
        if start > size || length > size - start {
            return Err(NP_Error::Address);
        }
        let mut out: Vec<u8> = Vec::with_capacity(length);
        let mut i: usize = 0;
        while i < length
            invariant
                i <= length,
                start + length <= self.bytes.len(),
                out@ == self.bytes@.subrange(start as int, start + i),
            decreases length - i,
        {
            out.push(self.bytes[start + i]);
            i += 1;
            assert(out@ =~= self.bytes@.subrange(start as int, start + i));
        }
        Ok(out)
    }

    /// Overwrites the bytes from `address` on with `bytes`. Fails, leaving the
    /// storage as it was, when they do not fit inside the current size.
    pub fn write(&mut self, address: usize, bytes: &[u8]) -> (r: Result<(), NP_Error>)
        ensures
            final(self).schema == old(self).schema,
            in_bounds(old(self)@, address as int, bytes@.len() as int) ==> r == Ok::<(), NP_Error>(
                (),
            ) && final(self)@ == spec_write(old(self)@, address as int, bytes@),
            !in_bounds(old(self)@, address as int, bytes@.len() as int) ==> r == Err::<
                (),
                NP_Error,
            >(NP_Error::Address) && final(self)@ == old(self)@,
    {
        let start: usize = address;
        let size: usize = self.bytes.len();
        let length: usize = bytes.len();
        if start > size || length > size - start {
            return Err(NP_Error::Address);
        }
        let mut i: usize = 0;
        while i < length
            invariant
                i <= length,
                length == bytes.len(),
                start + length <= self.bytes.len(),
                self.schema == old(self).schema,
                self.bytes@ == spec_write(old(self)@, start as int, bytes@.subrange(0, i as int)),
            decreases length - i,
        {
            self.bytes[start + i] = bytes[i];
            i += 1;
            assert(self.bytes@ =~= spec_write(
                old(self)@,
                start as int,
                bytes@.subrange(0, i as int),
            ));
        }
        assert(bytes@.subrange(0, length as int) =~= bytes@);
        Ok(())
    }

    /// Reads the address stored in the four bytes at `address`.
    pub fn read_address(&self, address: usize) -> (r: Result<u32, NP_Error>)
        ensures
            r == spec_read_address(self@, address as int),
    {
        let start: usize = address;
        let size: usize = self.bytes.len();
        if start > size || 4 > size - start {
            return Err(NP_Error::Address);
        }
        proof {
            lemma_le32_encoding_of_value(self@.subrange(start as int, start + 4));
        }
        Ok(u32_from_le_bytes(&self.bytes, start))
    }

    /// Stores `value` in the four bytes at `address`.
    pub fn write_address(&mut self, address: usize, value: u32) -> (r: Result<(), NP_Error>)
        ensures
            final(self).schema == old(self).schema,
            in_bounds(old(self)@, address as int, 4) ==> r == Ok::<(), NP_Error>(())
                && final(self)@ == spec_write(old(self)@, address as int, le32(value)),
            !in_bounds(old(self)@, address as int, 4) ==> r == Err::<(), NP_Error>(
                NP_Error::Address,
            ) && final(self)@ == old(self)@,
    {
        let bytes: Vec<u8> = u32_to_le_bytes(value);
        self.write(address, bytes.as_slice())
    }

    /// Gives up the storage and returns its bytes.
    pub fn dump(self) -> (r: Vec<u8>)
        ensures
            r@ == self@,
    {
        self.bytes
    }
}


impl<'a> NP_Memory<'a> {
    /// Stores `bytes` as a new string at the end: its length in four
    /// bytes, then the bytes. Points the slot at `slot` there. Nothing
    /// changes where the slot lies outside the storage or the string does
    /// not fit.
    pub fn store_string(&mut self, slot: usize, bytes: &[u8]) -> (r: Result<(), NP_Error>)
        ensures
            final(self).schema == old(self).schema,
            final(self)@ == allocate_string(old(self)@, slot as int, bytes@).0,
            r == allocate_string(old(self)@, slot as int, bytes@).1,
    {
        let size: usize = self.bytes.len();
        if slot > size || size - slot < 4 {
            return Err(NP_Error::Address);
        }
        if size > MAX_SIZE || MAX_SIZE - size < 4 || MAX_SIZE - size - 4 < bytes.len() {
            return Err(NP_Error::Allocation);
        }
        let mut data: Vec<u8> = u32_to_le_bytes(bytes.len() as u32);
        bytes_append(&mut data, bytes);
        let address: u32 = match self.malloc(data) {
            Ok(a) => a,
            Err(e) => { return Err(e); },
        };
        self.write_address(slot, address)
    }

    /// Stores a table of `count` empty slots at the end and points the
    /// slot at `slot` there. Returns the table's address. Nothing changes
    /// where the slot lies outside the storage or the table does not fit.
    pub fn store_table(&mut self, slot: usize, count: usize) -> (r: Result<usize, NP_Error>)
        requires
            count <= 255,
        ensures
            final(self).schema == old(self).schema,
            final(self)@ == allocate_table(old(self)@, slot as int, count as nat).0,
            match allocate_table(old(self)@, slot as int, count as nat).1 {
                Ok(_) => r == Ok::<usize, NP_Error>(old(self)@.len() as usize),
                Err(e) => r == Err::<usize, NP_Error>(e),
            },
    {
        let size: usize = self.bytes.len();
        if slot > size || size - slot < 4 {
            return Err(NP_Error::Address);
        }
        if size > MAX_SIZE || MAX_SIZE - size < 4 * count {
            return Err(NP_Error::Allocation);
        }
        let address: u32 = match self.malloc(zeroed(4 * count)) {
            Ok(a) => a,
            Err(e) => { return Err(e); },
        };
        match self.write_address(slot, address) {
            Ok(_) => Ok(size),
            Err(e) => Err(e),
        }
    }

    /// Sets the slot at `slot` to 0.
    pub fn clear(&mut self, slot: usize) -> (r: Result<(), NP_Error>)
        ensures
            final(self).schema == old(self).schema,
            final(self)@ == clear_slot(old(self)@, slot as int).0,
            r == clear_slot(old(self)@, slot as int).1,
    {
        self.write_address(slot, 0)
    }
}

} // verus!
