//! The linear memory: a growable byte buffer addressed by non-negative byte
//! offsets, with typed reads and writes through the codec and a `memcpy`.
//!
//! Reads and writes at `[addr, addr + size)` must lie within the current
//! capacity; anything else is an [`Fault::OutOfBounds`] fault. Capacity only
//! ever grows, through [`Memory::extend`].

use crate::codec::{
    bool_of_byte, bool_to_byte, bytes_to_string, cut_at_nul, i64_of_bytes, i64_to_bytes,
    spec_bool_byte, spec_byte_bool, spec_i64_bytes, spec_i64_of_bytes, spec_u64_bytes,
    spec_u64_of_bytes, string_to_bytes, trim_at_nul, u64_of_bytes, u64_to_bytes,
};
use crate::fault::Fault;
use vstd::prelude::*;
use vstd::utf8::{decode_utf8, encode_utf8, valid_utf8};

verus! {

/// The bytes of `m` with the range starting at `addr` replaced by `data`.
pub open spec fn spec_write_bytes(m: Seq<u8>, addr: int, data: Seq<u8>) -> Seq<u8> {
    Seq::new(m.len(), |i: int| if addr <= i < addr + data.len() { data[i - addr] } else { m[i] })
}

/// True when the range `[addr, addr + n)` lies within a memory of `len` bytes.
pub open spec fn spec_in_bounds(len: int, addr: int, n: int) -> bool {
    0 <= addr && 0 <= n && addr + n <= len
}

/// The `n` bytes of `m` starting at `addr`.
pub open spec fn spec_read_bytes(m: Seq<u8>, addr: int, n: int) -> Seq<u8> {
    m.subrange(addr, addr + n)
}

/// The signed integer stored at `addr`.
pub open spec fn spec_read_int(m: Seq<u8>, addr: int) -> i64 {
    spec_i64_of_bytes(spec_read_bytes(m, addr, 8))
}

/// The unsigned integer stored at `addr`.
pub open spec fn spec_read_uint(m: Seq<u8>, addr: int) -> u64 {
    spec_u64_of_bytes(spec_read_bytes(m, addr, 8))
}

/// The boolean stored at `addr`.
pub open spec fn spec_read_bool(m: Seq<u8>, addr: int) -> bool {
    spec_byte_bool(m[addr])
}

/// The VM's linear memory: a flat byte buffer.
pub struct Memory {
    bytes: Vec<u8>,
}

impl View for Memory {
    type V = Seq<u8>;

    closed spec fn view(&self) -> Seq<u8> {
        self.bytes@
    }
}

impl Memory {
    /// A memory of `size` zero bytes.
    pub fn new(size: usize) -> (r: Memory)
        ensures
            r@ == Seq::new(size as nat, |i: int| 0u8),
    {
        let mut m = Memory { bytes: Vec::with_capacity(size) };
        m.zero_extend(size);
        proof {
            assert(m@ =~= Seq::new(size as nat, |i: int| 0u8));
        }
        m
    }

    /// An empty memory with room reserved for `size` bytes.
    pub fn with_capacity(size: usize) -> (r: Memory)
        ensures
            r@.len() == 0,
    {
        Memory { bytes: Vec::with_capacity(size) }
    }

    /// The current capacity: the number of addressable bytes.
    pub fn capacity(&self) -> (r: usize)
        ensures
            r == self@.len(),
    {
        self.bytes.len()
    }

    /// Append `n` zero bytes; capacity grows by exactly `n`.
    pub fn extend(&mut self, n: usize)
        requires
            old(self)@.len() + n <= usize::MAX,
        ensures
            final(self)@ == old(self)@ + Seq::new(n as nat, |i: int| 0u8),
    {
        self.zero_extend(n);
    }

    fn zero_extend(&mut self, n: usize)
        requires
            old(self)@.len() + n <= usize::MAX,
        ensures
            final(self)@ == old(self)@ + Seq::new(n as nat, |i: int| 0u8),
    {
        let mut j: usize = 0;
        while j < n
            invariant
                j <= n,
                old(self)@.len() + n <= usize::MAX,
                self@ == old(self)@ + Seq::new(j as nat, |i: int| 0u8),
            decreases n - j,
        {
            self.bytes.push(0);
            j = j + 1;
            proof {
                assert(self@ =~= old(self)@ + Seq::new(j as nat, |i: int| 0u8));
            }
        }
    }

    /// A copy of the whole memory, for debugging.
    pub fn dump(&self) -> (r: Vec<u8>)
        ensures
            r@ == self@,
    {
        let mut v: Vec<u8> = Vec::with_capacity(self.bytes.len());
        let mut j: usize = 0;
        while j < self.bytes.len()
            invariant
                j <= self@.len(),
                v@ == self@.take(j as int),
            decreases self@.len() - j,
        {
            v.push(self.bytes[j]);
            j = j + 1;
            proof {
                assert(v@ =~= self@.take(j as int));
            }
        }
        proof {
            assert(v@ =~= self@);
        }
        v
    }

    /// Read `n` raw bytes starting at `addr`.
    pub fn read_bytes(&self, addr: usize, n: usize) -> (r: Result<Vec<u8>, Fault>)
        ensures
            match r {
                Ok(v) => spec_in_bounds(self@.len() as int, addr as int, n as int) && v@
                    == spec_read_bytes(self@, addr as int, n as int),
                Err(f) => f == Fault::OutOfBounds && !spec_in_bounds(
                    self@.len() as int,
                    addr as int,
                    n as int,
                ),
            },
    {
        if n > self.bytes.len() || addr > self.bytes.len() - n {
            return Err(Fault::OutOfBounds);
        }
        let mut v: Vec<u8> = Vec::with_capacity(n);
        let mut j: usize = 0;
        while j < n
            invariant
                j <= n,
                addr + n <= self@.len(),
                addr + n <= usize::MAX,
                v@ == self@.subrange(addr as int, addr + j),
            decreases n - j,
        {
            v.push(self.bytes[addr + j]);
            j = j + 1;
            proof {
                assert(v@ =~= self@.subrange(addr as int, addr + j));
            }
        }
        Ok(v)
    }

    /// Write raw bytes starting at `addr`; the whole slice must fit within
    /// capacity, which does not change.
    pub fn write_bytes(&mut self, addr: usize, data: &[u8]) -> (r: Result<(), Fault>)
        ensures
            match r {
                Ok(()) => spec_in_bounds(
                    old(self)@.len() as int,
                    addr as int,
                    data@.len() as int,
                ) && final(self)@ == spec_write_bytes(old(self)@, addr as int, data@),
                Err(f) => f == Fault::OutOfBounds && !spec_in_bounds(
                    old(self)@.len() as int,
                    addr as int,
                    data@.len() as int,
                ) && final(self)@ == old(self)@,
            },
    {
        if data.len() > self.bytes.len() || addr > self.bytes.len() - data.len() {
            return Err(Fault::OutOfBounds);
        }
        let mut j: usize = 0;
        while j < data.len()
            invariant
                j <= data@.len(),
                addr + data@.len() <= self@.len(),
                addr + data@.len() <= usize::MAX,
                self@.len() == old(self)@.len(),
                self@ == spec_write_bytes(old(self)@, addr as int, data@.take(j as int)),
            decreases data@.len() - j,
        {
            self.bytes[addr + j] = data[j];
            j = j + 1;
            proof {
                assert(self@ =~= spec_write_bytes(old(self)@, addr as int, data@.take(j as int)));
            }
        }
        proof {
            assert(data@.take(data@.len() as int) =~= data@);
            assert(self@ =~= spec_write_bytes(old(self)@, addr as int, data@));
        }
        Ok(())
    }

    /// Copy `n` bytes from `[src, src + n)` to `[dst, dst + n)`, as if through
    /// a temporary buffer, so overlapping ranges are handled faithfully.
    pub fn memcpy(&mut self, src: usize, dst: usize, n: usize) -> (r: Result<(), Fault>)
        ensures
            match r {
                Ok(()) => spec_in_bounds(old(self)@.len() as int, src as int, n as int)
                    && spec_in_bounds(old(self)@.len() as int, dst as int, n as int) && final(self)@
                    == spec_write_bytes(
                    old(self)@,
                    dst as int,
                    spec_read_bytes(old(self)@, src as int, n as int),
                ),
                Err(f) => f == Fault::OutOfBounds && !(spec_in_bounds(
                    old(self)@.len() as int,
                    src as int,
                    n as int,
                ) && spec_in_bounds(old(self)@.len() as int, dst as int, n as int)) && final(self)@
                    == old(self)@,
            },
    {
        let data = match self.read_bytes(src, n) {
            Ok(v) => v,
            Err(f) => {
                return Err(f);
            },
        };
        self.write_bytes(dst, data.as_slice())
    }

    /// Write a signed 64-bit integer at `addr`.
    pub fn write_int(&mut self, addr: usize, v: i64) -> (r: Result<(), Fault>)
        ensures
            match r {
                Ok(()) => spec_in_bounds(old(self)@.len() as int, addr as int, 8) && final(self)@
                    == spec_write_bytes(old(self)@, addr as int, spec_i64_bytes(v)),
                Err(f) => f == Fault::OutOfBounds && !spec_in_bounds(
                    old(self)@.len() as int,
                    addr as int,
                    8,
                ) && final(self)@ == old(self)@,
            },
    {
        let data = i64_to_bytes(v);
        self.write_bytes(addr, data.as_slice())
    }

    /// Read the signed 64-bit integer stored at `addr`.
    pub fn read_int(&self, addr: usize) -> (r: Result<i64, Fault>)
        ensures
            match r {
                Ok(v) => spec_in_bounds(self@.len() as int, addr as int, 8) && v == spec_read_int(
                    self@,
                    addr as int,
                ),
                Err(f) => f == Fault::OutOfBounds && !spec_in_bounds(
                    self@.len() as int,
                    addr as int,
                    8,
                ),
            },
    {
        let data = self.read_bytes(addr, 8)?;
        Ok(i64_of_bytes(data.as_slice()))
    }

    /// Write an unsigned 64-bit integer (a future id) at `addr`.
    pub fn write_uint(&mut self, addr: usize, v: u64) -> (r: Result<(), Fault>)
        ensures
            match r {
                Ok(()) => spec_in_bounds(old(self)@.len() as int, addr as int, 8) && final(self)@
                    == spec_write_bytes(old(self)@, addr as int, spec_u64_bytes(v)),
                Err(f) => f == Fault::OutOfBounds && !spec_in_bounds(
                    old(self)@.len() as int,
                    addr as int,
                    8,
                ) && final(self)@ == old(self)@,
            },
    {
        let data = u64_to_bytes(v);
        self.write_bytes(addr, data.as_slice())
    }

    /// Read the unsigned 64-bit integer stored at `addr`.
    pub fn read_uint(&self, addr: usize) -> (r: Result<u64, Fault>)
        ensures
            match r {
                Ok(v) => spec_in_bounds(self@.len() as int, addr as int, 8) && v == spec_read_uint(
                    self@,
                    addr as int,
                ),
                Err(f) => f == Fault::OutOfBounds && !spec_in_bounds(
                    self@.len() as int,
                    addr as int,
                    8,
                ),
            },
    {
        let data = self.read_bytes(addr, 8)?;
        Ok(u64_of_bytes(data.as_slice()))
    }

    /// Write a boolean at `addr`, one byte.
    pub fn write_bool(&mut self, addr: usize, v: bool) -> (r: Result<(), Fault>)
        ensures
            match r {
                Ok(()) => spec_in_bounds(old(self)@.len() as int, addr as int, 1) && final(self)@
                    == spec_write_bytes(old(self)@, addr as int, seq![spec_bool_byte(v)]),
                Err(f) => f == Fault::OutOfBounds && !spec_in_bounds(
                    old(self)@.len() as int,
                    addr as int,
                    1,
                ) && final(self)@ == old(self)@,
            },
    {
        let byte = bool_to_byte(v);
        let data: Vec<u8> = vec![byte];
        assert(data@ =~= seq![spec_bool_byte(v)]);
        self.write_bytes(addr, data.as_slice())
    }

    /// Read the boolean stored at `addr`: any non-zero byte is `true`.
    pub fn read_bool(&self, addr: usize) -> (r: Result<bool, Fault>)
        ensures
            match r {
                Ok(v) => spec_in_bounds(self@.len() as int, addr as int, 1) && v == spec_read_bool(
                    self@,
                    addr as int,
                ),
                Err(f) => f == Fault::OutOfBounds && !spec_in_bounds(
                    self@.len() as int,
                    addr as int,
                    1,
                ),
            },
    {
        let data = self.read_bytes(addr, 1)?;
        Ok(bool_of_byte(data[0]))
    }

    /// Write the UTF-8 bytes of a string at `addr`, no length prefix.
    pub fn write_str(&mut self, addr: usize, s: &str) -> (r: Result<(), Fault>)
        ensures
            match r {
                Ok(()) => spec_in_bounds(
                    old(self)@.len() as int,
                    addr as int,
                    encode_utf8(s@).len() as int,
                ) && final(self)@ == spec_write_bytes(old(self)@, addr as int, encode_utf8(s@)),
                Err(f) => f == Fault::OutOfBounds && !spec_in_bounds(
                    old(self)@.len() as int,
                    addr as int,
                    encode_utf8(s@).len() as int,
                ) && final(self)@ == old(self)@,
            },
    {
        let data = string_to_bytes(s);
        self.write_bytes(addr, data.as_slice())
    }

    /// Read a string out of the fixed slot `[addr, addr + n)`: the slot's
    /// bytes up to the first NUL, parsed as UTF-8.
    pub fn read_string(&self, addr: usize, n: usize) -> (r: Result<String, Fault>)
        ensures
            match r {
                Ok(s) => spec_in_bounds(self@.len() as int, addr as int, n as int) && valid_utf8(
                    trim_at_nul(spec_read_bytes(self@, addr as int, n as int)),
                ) && s@ == decode_utf8(trim_at_nul(spec_read_bytes(self@, addr as int, n as int))),
                Err(f) => {
                    ||| (f == Fault::OutOfBounds && !spec_in_bounds(
                        self@.len() as int,
                        addr as int,
                        n as int,
                    ))
                    ||| (f == Fault::TypeParse && spec_in_bounds(
                        self@.len() as int,
                        addr as int,
                        n as int,
                    ) && !valid_utf8(trim_at_nul(spec_read_bytes(self@, addr as int, n as int))))
                },
            },
    {
        let data = self.read_bytes(addr, n)?;
        let cut = cut_at_nul(data.as_slice());
        match bytes_to_string(cut) {
            Some(s) => {
                proof {
                    let bytes = trim_at_nul(spec_read_bytes(self@, addr as int, n as int));
                    crate::codec::lemma_string_round_trip(s@);
                    assert(decode_utf8(encode_utf8(s@)) == s@);
                }
                Ok(s)
            },
            None => Err(Fault::TypeParse),
        }
    }
}

/// An integer read back from the address it was written to decodes to the
/// value that was written.
pub proof fn lemma_memory_int_round_trip(m: Seq<u8>, addr: int, v: i64)
    requires
        spec_in_bounds(m.len() as int, addr, 8),
    ensures
        spec_read_int(spec_write_bytes(m, addr, spec_i64_bytes(v)), addr) == v,
{
    crate::codec::lemma_i64_round_trip(v);
    assert(spec_read_bytes(spec_write_bytes(m, addr, spec_i64_bytes(v)), addr, 8)
        =~= spec_i64_bytes(v));
}

/// An unsigned integer read back from the address it was written to decodes
/// to the value that was written.
pub proof fn lemma_memory_uint_round_trip(m: Seq<u8>, addr: int, v: u64)
    requires
        spec_in_bounds(m.len() as int, addr, 8),
    ensures
        spec_read_uint(spec_write_bytes(m, addr, spec_u64_bytes(v)), addr) == v,
{
    crate::codec::lemma_u64_round_trip(v);
    assert(spec_read_bytes(spec_write_bytes(m, addr, spec_u64_bytes(v)), addr, 8)
        =~= spec_u64_bytes(v));
}

/// A boolean read back from the address it was written to is the value that
/// was written.
pub proof fn lemma_memory_bool_round_trip(m: Seq<u8>, addr: int, v: bool)
    requires
        spec_in_bounds(m.len() as int, addr, 1),
    ensures
        spec_read_bool(spec_write_bytes(m, addr, seq![spec_bool_byte(v)]), addr) == v,
{
}

/// Raw bytes read back from the address they were written to are the bytes
/// that were written.
pub proof fn lemma_memory_bytes_round_trip(m: Seq<u8>, addr: int, data: Seq<u8>)
    requires
        spec_in_bounds(m.len() as int, addr, data.len() as int),
    ensures
        spec_read_bytes(spec_write_bytes(m, addr, data), addr, data.len() as int) == data,
{
    assert(spec_read_bytes(spec_write_bytes(m, addr, data), addr, data.len() as int) =~= data);
}

/// A string read back from the slot it was written to holds the characters
/// that were written, provided its encoding has no NUL byte (a NUL ends the
/// slot early) and the slot is exactly the encoding's length.
pub proof fn lemma_memory_string_round_trip(m: Seq<u8>, addr: int, chars: Seq<char>)
    requires
        spec_in_bounds(m.len() as int, addr, encode_utf8(chars).len() as int),
        forall|i: int| 0 <= i < encode_utf8(chars).len() ==> encode_utf8(chars)[i] != 0,
    ensures
        ({
            let slot = spec_read_bytes(
                spec_write_bytes(m, addr, encode_utf8(chars)),
                addr,
                encode_utf8(chars).len() as int,
            );
            valid_utf8(trim_at_nul(slot)) && decode_utf8(trim_at_nul(slot)) == chars
        }),
{
    let data = encode_utf8(chars);
    lemma_memory_bytes_round_trip(m, addr, data);
    crate::codec::lemma_trim_at_nul_no_nul(data);
    crate::codec::lemma_string_round_trip(chars);
}

/// After a `memcpy` between non-overlapping ranges, the destination holds the
/// source's former bytes and the source is unchanged.
pub proof fn lemma_memcpy_faithful(m: Seq<u8>, src: int, dst: int, n: int)
    requires
        spec_in_bounds(m.len() as int, src, n),
        spec_in_bounds(m.len() as int, dst, n),
        src + n <= dst || dst + n <= src,
    ensures
        ({
            let copied = spec_write_bytes(m, dst, spec_read_bytes(m, src, n));
            &&& spec_read_bytes(copied, dst, n) == spec_read_bytes(m, src, n)
            &&& spec_read_bytes(copied, src, n) == spec_read_bytes(m, src, n)
        }),
{
    let copied = spec_write_bytes(m, dst, spec_read_bytes(m, src, n));
    assert(spec_read_bytes(copied, dst, n) =~= spec_read_bytes(m, src, n));
    assert(spec_read_bytes(copied, src, n) =~= spec_read_bytes(m, src, n));
}

} // verus!
