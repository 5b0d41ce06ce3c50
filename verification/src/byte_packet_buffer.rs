//! A fixed store of 512 bytes with a cursor, and the big-endian primitives
//! that read and write it.

use vstd::prelude::*;
use crate::error::DnsError;
use crate::wire::{be16, be32, overlay, reach, u16_bytes, u32_bytes, wrote, Emission, CAPACITY};

verus! {

/// A message buffer: 512 bytes and one cursor. Every access checks its
/// index against the capacity; the cursor itself may stand anywhere.
pub struct BytePacketBuffer {
    pub buf: [u8; 512],
    pub pos: usize,
}

impl BytePacketBuffer {
    /// A buffer of zero bytes with the cursor at the start.
    pub fn new() -> (r: BytePacketBuffer)
        ensures
            r.pos == 0,
            r.buf@ == Seq::new(CAPACITY as nat, |i: int| 0u8),
    {
        BytePacketBuffer { buf: [0; 512], pos: 0 }
    }

    /// The cursor.
    pub fn pos(&self) -> (r: usize)
        ensures
            r == self.pos,
    {
        self.pos
    }

    /// Moves the cursor forward by `steps` without touching the bytes. The
    /// cursor may come to stand beyond the end of the buffer. Fails only
    /// where the new cursor is no `usize`.
    pub fn step(&mut self, steps: usize) -> (r: Result<(), DnsError>)
        ensures
            final(self).buf == old(self).buf,
            old(self).pos + steps <= usize::MAX ==> r == Ok::<(), DnsError>(()) && final(self).pos
                == old(self).pos + steps,
            old(self).pos + steps > usize::MAX ==> r == Err::<(), DnsError>(DnsError::OutOfBounds)
                && final(self).pos == old(self).pos,
    {
        match self.pos.checked_add(steps) {
            Some(p) => {
                self.pos = p;
                Ok(())
            },
            None => Err(DnsError::OutOfBounds),
        }
    }

    /// Puts the cursor at `pos` without touching the bytes.
    pub fn seek(&mut self, pos: usize) -> (r: Result<(), DnsError>)
        ensures
            r == Ok::<(), DnsError>(()),
            final(self).buf == old(self).buf,
            final(self).pos == pos,
    {
        self.pos = pos;
        Ok(())
    }

    /// Reads the byte under the cursor and moves the cursor past it.
    pub fn read(&mut self) -> (r: Result<u8, DnsError>)
        ensures
            final(self).buf == old(self).buf,
            final(self).pos == reach(old(self).pos as int, 1),
            old(self).pos < CAPACITY ==> r == Ok::<u8, DnsError>(old(self).buf@[old(self).pos as int]),
            old(self).pos >= CAPACITY ==> r == Err::<u8, DnsError>(DnsError::OutOfBounds),
    {
        if self.pos >= CAPACITY {
            return Err(DnsError::OutOfBounds);
        }
        let res: u8 = self.buf[self.pos];
        self.pos += 1;
        Ok(res)
    }

    /// The byte at `pos`. The cursor stays.
    pub fn get(&mut self, pos: usize) -> (r: Result<u8, DnsError>)
        ensures
            *final(self) == *old(self),
            pos < CAPACITY ==> r == Ok::<u8, DnsError>(old(self).buf@[pos as int]),
            pos >= CAPACITY ==> r == Err::<u8, DnsError>(DnsError::OutOfBounds),
    {
        if pos >= CAPACITY {
            return Err(DnsError::OutOfBounds);
        }
        Ok(self.buf[pos])
    }

    /// Stores `val` at `pos`. The cursor stays.
    pub fn set(&mut self, pos: usize, val: u8) -> (r: Result<(), DnsError>)
        requires
            pos < CAPACITY,
        ensures
            r == Ok::<(), DnsError>(()),
            final(self).pos == old(self).pos,
            final(self).buf@ == old(self).buf@.update(pos as int, val),
    {
        self.buf[pos] = val;
        Ok(())
    }

    /// Stores `val` in network order at `pos` and `pos + 1`. The cursor
    /// stays.
    pub fn set_u16(&mut self, pos: usize, val: u16) -> (r: Result<(), DnsError>)
        requires
            pos + 1 < CAPACITY,
        ensures
            r == Ok::<(), DnsError>(()),
            final(self).pos == old(self).pos,
            final(self).buf@ == overlay(old(self).buf@, pos as int, u16_bytes(val)),
    {
        assert(val >> 8 == val / 256 && val & 0xFF == val % 256) by (bit_vector);
        self.set(pos, (val >> 8) as u8)?;
        self.set(pos + 1, (val & 0xFF) as u8)?;
        assert(self.buf@ =~= overlay(old(self).buf@, pos as int, u16_bytes(val)));
        Ok(())
    }

    /// The `len` bytes from `start` on. The cursor stays.
    pub fn get_range(&mut self, start: usize, len: usize) -> (r: Result<&[u8], DnsError>)
        ensures
            *final(self) == *old(self),
            start + len <= CAPACITY ==> r is Ok && r->Ok_0@ == old(self).buf@.subrange(
                start as int,
                start + len,
            ),
            start + len > CAPACITY ==> r == Err::<&[u8], DnsError>(DnsError::OutOfBounds),
    {
        if len > CAPACITY || start > CAPACITY - len {
            return Err(DnsError::OutOfBounds);
        }
        Ok(&self.buf[start..start + len])
    }
    /// Reads two bytes in network order and moves the cursor past them. At
    /// the end of the buffer the cursor stops there.
    pub fn read_u16(&mut self) -> (r: Result<u16, DnsError>)
        ensures
            final(self).buf == old(self).buf,
            final(self).pos == reach(old(self).pos as int, 2),
            old(self).pos + 2 <= CAPACITY ==> r == Ok::<u16, DnsError>(
                be16(old(self).buf@[old(self).pos as int], old(self).buf@[old(self).pos + 1]),
            ),
            old(self).pos + 2 > CAPACITY ==> r == Err::<u16, DnsError>(DnsError::OutOfBounds),
    {
        let hi: u8 = self.read()?;
        let lo: u8 = self.read()?;
        assert(((hi as u16) << 8) | (lo as u16) == hi as u16 * 256 + lo as u16) by (bit_vector);
        Ok(((hi as u16) << 8) | (lo as u16))
    }

    /// Reads four bytes in network order and moves the cursor past them. At
    /// the end of the buffer the cursor stops there.
    pub fn read_u32(&mut self) -> (r: Result<u32, DnsError>)
        ensures
            final(self).buf == old(self).buf,
            final(self).pos == reach(old(self).pos as int, 4),
            old(self).pos + 4 <= CAPACITY ==> r == Ok::<u32, DnsError>(
                be32(
                    old(self).buf@[old(self).pos as int],
                    old(self).buf@[old(self).pos + 1],
                    old(self).buf@[old(self).pos + 2],
                    old(self).buf@[old(self).pos + 3],
                ),
            ),
            old(self).pos + 4 > CAPACITY ==> r == Err::<u32, DnsError>(DnsError::OutOfBounds),
    {
        let b0: u8 = self.read()?;
        let b1: u8 = self.read()?;
        let b2: u8 = self.read()?;
        let b3: u8 = self.read()?;
        assert(((b0 as u32) << 24) | ((b1 as u32) << 16) | ((b2 as u32) << 8) | (b3 as u32)
            == b0 as u32 * 0x100_0000 + b1 as u32 * 0x1_0000 + b2 as u32 * 0x100 + b3 as u32)
            by (bit_vector);
        Ok(((b0 as u32) << 24) | ((b1 as u32) << 16) | ((b2 as u32) << 8) | (b3 as u32))
    }

    /// Stores `val` under the cursor and moves the cursor past it.
    pub fn write(&mut self, val: u8) -> (r: Result<(), DnsError>)
        ensures
            wrote(
                old(self).buf@,
                old(self).pos as int,
                Emission::whole(seq![val]),
                final(self).buf@,
                final(self).pos as int,
                r,
            ),
    {
        if self.pos >= CAPACITY {
            assert(self.buf@ =~= overlay(self.buf@, self.pos as int, seq![val]));
            return Err(DnsError::OutOfBounds);
        }
        self.buf[self.pos] = val;
        self.pos += 1;
        assert(self.buf@ =~= overlay(old(self).buf@, old(self).pos as int, seq![val]));
        Ok(())
    }

    /// Writes one byte at the cursor.
    pub fn write_u8(&mut self, val: u8) -> (r: Result<(), DnsError>)
        ensures
            wrote(
                old(self).buf@,
                old(self).pos as int,
                Emission::whole(seq![val]),
                final(self).buf@,
                final(self).pos as int,
                r,
            ),
    {
        self.write(val)?;
        Ok(())
    }

    /// Writes `val` in network order at the cursor. Of a value that does
    /// not fit, the bytes that do are written.
    pub fn write_u16(&mut self, val: u16) -> (r: Result<(), DnsError>)
        ensures
            wrote(
                old(self).buf@,
                old(self).pos as int,
                Emission::whole(u16_bytes(val)),
                final(self).buf@,
                final(self).pos as int,
                r,
            ),
    {
        assert(val >> 8 == val / 256 && val & 0xFF == val % 256) by (bit_vector);
        let r0 = self.write((val >> 8) as u8);
        let r1 = match r0 {
            Ok(()) => self.write((val & 0xFF) as u8),
            Err(e) => Err(e),
        };
        assert(self.buf@ =~= overlay(old(self).buf@, old(self).pos as int, u16_bytes(val)));
        r1
    }

    /// Writes `val` in network order at the cursor. Of a value that does
    /// not fit, the bytes that do are written.
    pub fn write_u32(&mut self, val: u32) -> (r: Result<(), DnsError>)
        ensures
            wrote(
                old(self).buf@,
                old(self).pos as int,
                Emission::whole(u32_bytes(val)),
                final(self).buf@,
                final(self).pos as int,
                r,
            ),
    {
        assert((val >> 24) & 0xFF == val / 0x100_0000 && (val >> 16) & 0xFF == val / 0x1_0000 % 256
            && (val >> 8) & 0xFF == val / 0x100 % 256 && (val >> 0) & 0xFF == val % 256)
            by (bit_vector);
        let r0 = self.write(((val >> 24) & 0xFF) as u8);
        let r1 = match r0 {
            Ok(()) => self.write(((val >> 16) & 0xFF) as u8),
            Err(e) => Err(e),
        };
        let r2 = match r1 {
            Ok(()) => self.write(((val >> 8) & 0xFF) as u8),
            Err(e) => Err(e),
        };
        let r3 = match r2 {
            Ok(()) => self.write(((val >> 0) & 0xFF) as u8),
            Err(e) => Err(e),
        };
        assert(self.buf@ =~= overlay(old(self).buf@, old(self).pos as int, u32_bytes(val)));
        r3
    }
}

} // verus!
