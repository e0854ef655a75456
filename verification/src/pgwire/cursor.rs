//! Reading the messages of a client.

use vstd::prelude::*;
use vstd::slice::slice_subrange;
use vstd::utf8::*;

use crate::byte_order;
use crate::byte_order::{to_i16, to_i32};
use crate::encoding::utf8_text;

verus! {

/// Why a part of a message cannot be read.
#[derive(Clone, Copy, Debug, PartialEq, Eq, Structural)]
pub enum CursorError {
    /// The message ends too early.
    UnexpectedEnd,
    /// A text has no zero behind it.
    Unterminated,
    /// A text is not valid UTF-8.
    InvalidUtf8,
}

/// The position of the first zero at or behind `from`.
pub open spec fn zero_from(bytes: Seq<u8>, from: int) -> Option<int>
    decreases bytes.len() - from,
{
    if from < 0 || from >= bytes.len() {
        None
    } else if bytes[from] == 0 {
        Some(from)
    } else {
        zero_from(bytes, from + 1)
    }
}

/// The text that ends at the first zero, and the bytes behind that zero.
pub open spec fn cstr_at(bytes: Seq<u8>) -> Result<(Seq<char>, Seq<u8>), CursorError> {
    match zero_from(bytes, 0) {
        Some(end) => if valid_utf8(bytes.take(end)) {
            Ok((decode_utf8(bytes.take(end)), bytes.skip(end + 1)))
        } else {
            Err(CursorError::InvalidUtf8)
        },
        None => Err(CursorError::Unterminated),
    }
}

/// A number of two bytes, and the bytes behind it.
pub open spec fn i16_at(bytes: Seq<u8>) -> Result<(i16, Seq<u8>), CursorError> {
    if bytes.len() < 2 {
        Err(CursorError::UnexpectedEnd)
    } else {
        Ok((byte_order::signed16(byte_order::be2(bytes)) as i16, bytes.skip(2)))
    }
}

/// A number of four bytes, and the bytes behind it.
pub open spec fn i32_at(bytes: Seq<u8>) -> Result<(i32, Seq<u8>), CursorError> {
    if bytes.len() < 4 {
        Err(CursorError::UnexpectedEnd)
    } else {
        Ok((byte_order::signed32(byte_order::be4(bytes)) as i32, bytes.skip(4)))
    }
}

/// `n` numbers of two bytes each, and the bytes behind them.
pub open spec fn i16s_at(bytes: Seq<u8>, n: nat) -> Result<(Seq<i16>, Seq<u8>), CursorError> {
    if bytes.len() < 2 * n {
        Err(CursorError::UnexpectedEnd)
    } else {
        Ok(
            (
                Seq::new(
                    n,
                    |i: int| byte_order::signed16(byte_order::be2(bytes.skip(2 * i))) as i16,
                ),
                bytes.skip(2 * n as int),
            ),
        )
    }
}

/// `n` unsigned numbers of four bytes each, and the bytes behind them.
pub open spec fn u32s_at(bytes: Seq<u8>, n: nat) -> Result<(Seq<u32>, Seq<u8>), CursorError> {
    if bytes.len() < 4 * n {
        Err(CursorError::UnexpectedEnd)
    } else {
        Ok(
            (
                Seq::new(n, |i: int| byte_order::be4(bytes.skip(4 * i)) as u32),
                bytes.skip(4 * n as int),
            ),
        )
    }
}

/// The next `n` bytes, and the bytes behind them.
pub open spec fn bytes_at(bytes: Seq<u8>, n: nat) -> Result<(Seq<u8>, Seq<u8>), CursorError> {
    if bytes.len() < n {
        Err(CursorError::UnexpectedEnd)
    } else {
        Ok((bytes.take(n as int), bytes.skip(n as int)))
    }
}

/// What was read, as mathematical values, and what is left.
pub open spec fn read_text(
    result: Result<String, CursorError>,
    left: Seq<u8>,
) -> Result<(Seq<char>, Seq<u8>), CursorError> {
    match result {
        Ok(text) => Ok((text@, left)),
        Err(error) => Err(error),
    }
}

/// What was read and what is left.
pub open spec fn read_value<T>(
    result: Result<T, CursorError>,
    left: Seq<u8>,
) -> Result<(T, Seq<u8>), CursorError> {
    match result {
        Ok(value) => Ok((value, left)),
        Err(error) => Err(error),
    }
}

/// What was read, as a sequence, and what is left.
pub open spec fn read_list<T>(
    result: Result<Vec<T>, CursorError>,
    left: Seq<u8>,
) -> Result<(Seq<T>, Seq<u8>), CursorError> {
    match result {
        Ok(values) => Ok((values@, left)),
        Err(error) => Err(error),
    }
}

/// What was read, as a sequence, and what is left.
pub open spec fn read_slice(
    result: Result<&[u8], CursorError>,
    left: Seq<u8>,
) -> Result<(Seq<u8>, Seq<u8>), CursorError> {
    match result {
        Ok(values) => Ok((values@, left)),
        Err(error) => Err(error),
    }
}

/// A message and the position up to which it is read.
pub struct MessageCursor<'a> {
    buf: &'a [u8],
    idx: usize,
}

impl<'a> MessageCursor<'a> {
    #[verifier::type_invariant]
    spec fn well_formed(self) -> bool {
        self.idx <= self.buf@.len()
    }

    /// The bytes that are not read yet.
    pub closed spec fn left(&self) -> Seq<u8> {
        self.buf@.skip(self.idx as int)
    }

    /// A cursor at the start of a message.
    pub fn new(buf: &'a [u8]) -> (cursor: Self)
        ensures
            cursor.left() == buf@,
    {
        assert(buf@.skip(0) =~= buf@);
        MessageCursor { buf, idx: 0 }
    }

    /// Reads a byte.
    pub fn read_u8(&mut self) -> (result: Result<u8, CursorError>)
        ensures
            match result {
                Ok(value) => old(self).left().len() > 0 && value == old(self).left()[0]
                    && final(self).left() == old(self).left().skip(1),
                Err(error) => old(self).left().len() == 0 && error == CursorError::UnexpectedEnd
                    && final(self).left() == old(self).left(),
            },
    {
        proof {
            use_type_invariant(&*self);
        }
        if self.idx >= self.buf.len() {
            return Err(CursorError::UnexpectedEnd);
        }
        let value: u8 = self.buf[self.idx];
        assert(self.left().skip(1) =~= self.buf@.skip(self.idx + 1));
        self.idx = self.idx + 1;
        Ok(value)
    }

    /// Reads `len` bytes.
    pub fn read_bytes(&mut self, len: usize) -> (result: Result<&'a [u8], CursorError>)
        ensures
            read_slice(result, final(self).left()) == bytes_at(old(self).left(), len as nat),
            result is Err ==> final(self).left() == old(self).left(),
    {
        proof {
            use_type_invariant(&*self);
        }
        if len > self.buf.len() - self.idx {
            return Err(CursorError::UnexpectedEnd);
        }
        let slice = slice_subrange(self.buf, self.idx, self.idx + len);
        assert(slice@ =~= self.left().take(len as int));
        assert(self.left().skip(len as int) =~= self.buf@.skip(self.idx + len));
        self.idx = self.idx + len;
        Ok(slice)
    }

    /// Reads a number of two bytes.
    pub fn read_i16(&mut self) -> (result: Result<i16, CursorError>)
        ensures
            read_value(result, final(self).left()) == i16_at(old(self).left()),
    {
        let bytes = self.read_bytes(2)?;
        assert(byte_order::be2(bytes@) == byte_order::be2(old(self).left()));
        Ok(to_i16(0x100 * (bytes[0] as u16) + bytes[1] as u16))
    }

    /// Reads a number of four bytes.
    pub fn read_i32(&mut self) -> (result: Result<i32, CursorError>)
        ensures
            read_value(result, final(self).left()) == i32_at(old(self).left()),
    {
        let pattern: u32 = self.read_u32()?;
        Ok(to_i32(pattern))
    }

    /// Reads an unsigned number of four bytes.
    pub fn read_u32(&mut self) -> (result: Result<u32, CursorError>)
        ensures
            match result {
                Ok(value) => old(self).left().len() >= 4 && value == byte_order::be4(
                    old(self).left(),
                ) && final(self).left() == old(self).left().skip(4),
                Err(error) => old(self).left().len() < 4 && error == CursorError::UnexpectedEnd
                    && final(self).left() == old(self).left(),
            },
    {
        let bytes = self.read_bytes(4)?;
        assert(byte_order::be4(bytes@) == byte_order::be4(old(self).left()));
        Ok(
            0x100_0000 * (bytes[0] as u32) + 0x1_0000 * (bytes[1] as u32) + 0x100 * (
            bytes[2] as u32) + bytes[3] as u32,
        )
    }

    /// Reads a text that ends at a zero.
    pub fn read_cstr_owned(&mut self) -> (result: Result<String, CursorError>)
        ensures
            read_text(result, final(self).left()) == cstr_at(old(self).left()),
    {
        proof {
            use_type_invariant(&*self);
        }
        let ghost before = self.left();
        let start: usize = self.idx;
        let mut end: usize = start;
        while end < self.buf.len() && self.buf[end] != 0
            invariant
                start <= end <= self.buf@.len(),
                self.idx == start,
                before == self.buf@.skip(start as int),
                zero_from(before, 0) == zero_from(before, end - start),
            decreases self.buf@.len() - end,
        {
            end = end + 1;
        }
        if end >= self.buf.len() {
            return Err(CursorError::Unterminated);
        }
        let slice = slice_subrange(self.buf, start, end);
        proof {
            assert(zero_from(before, 0) == Some(end - start));
            assert(slice@ =~= before.take(end - start));
            assert(before.skip(end - start + 1) =~= self.buf@.skip(end + 1));
        }
        self.idx = end + 1;
        match utf8_text(slice) {
            Some(text) => Ok(text),
            None => Err(CursorError::InvalidUtf8),
        }
    }

    /// Reads `count` numbers of two bytes each.
    pub fn read_i16s(&mut self, count: usize) -> (result: Result<Vec<i16>, CursorError>)
        ensures
            read_list(result, final(self).left()) == i16s_at(old(self).left(), count as nat),
    {
        let ghost before = self.left();
        let mut values: Vec<i16> = Vec::new();
        let mut i: usize = 0;
        assert(before.skip(0) =~= before);
        while i < count
            invariant
                i <= count,
                values@.len() == i,
                before == old(self).left(),
                2 * i <= before.len(),
                self.left() == before.skip(2 * i),
                forall|k: int|
                    0 <= k < i ==> values@[k] == byte_order::signed16(
                        byte_order::be2(#[trigger] before.skip(2 * k)),
                    ) as i16,
            decreases count - i,
        {
            let value: i16 = match self.read_i16() {
                Ok(value) => value,
                Err(error) => {
                    assert(before.len() < 2 * count);
                    return Err(error);
                },
            };
            values.push(value);
            assert(before.skip(2 * i).skip(2) =~= before.skip(2 * (i + 1)));
            i = i + 1;
        }
        assert(values@ =~= i16s_at(before, count as nat)->Ok_0.0);
        Ok(values)
    }

    /// Reads `count` unsigned numbers of four bytes each.
    pub fn read_u32s(&mut self, count: usize) -> (result: Result<Vec<u32>, CursorError>)
        ensures
            read_list(result, final(self).left()) == u32s_at(old(self).left(), count as nat),
    {
        let ghost before = self.left();
        let mut values: Vec<u32> = Vec::new();
        let mut i: usize = 0;
        assert(before.skip(0) =~= before);
        while i < count
            invariant
                i <= count,
                values@.len() == i,
                before == old(self).left(),
                4 * i <= before.len(),
                self.left() == before.skip(4 * i),
                forall|k: int|
                    0 <= k < i ==> values@[k] == byte_order::be4(
                        #[trigger] before.skip(4 * k),
                    ) as u32,
            decreases count - i,
        {
            let value: u32 = match self.read_u32() {
                Ok(value) => value,
                Err(error) => {
                    assert(before.len() < 4 * count);
                    return Err(error);
                },
            };
            values.push(value);
            assert(before.skip(4 * i).skip(4) =~= before.skip(4 * (i + 1)));
            i = i + 1;
        }
        assert(values@ =~= u32s_at(before, count as nat)->Ok_0.0);
        Ok(values)
    }
}

} // verus!
