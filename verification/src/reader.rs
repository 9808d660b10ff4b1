//! A cursor over a borrowed buffer, and the fixed- and variable-width reads of the file format.

use vstd::prelude::*;
use vstd::slice::slice_subrange;
use crate::error::{Error, FormatError, underrun};
use crate::varint::{as_signed64, groups_limit, lemma_groups_limit_values, varint, varint_scan};

verus! {

/// `256^n`: the number of values that `n` bytes can hold.
pub open spec fn radix(n: nat) -> nat
    decreases n,
{
    if n == 0 {
        1
    } else {
        256 * radix((n - 1) as nat)
    }
}

/// The number that `bytes` spell when read as a big-endian unsigned integer.
pub open spec fn be_uint(bytes: Seq<u8>) -> nat
    decreases bytes.len(),
{
    if bytes.len() == 0 {
        0
    } else {
        be_uint(bytes.drop_last()) * 256 + bytes.last() as nat
    }
}

/// The number that `bytes` spell when read as a big-endian two's-complement integer.
pub open spec fn be_int(bytes: Seq<u8>) -> int {
    if 2 * be_uint(bytes) >= radix(bytes.len()) {
        be_uint(bytes) - radix(bytes.len())
    } else {
        be_uint(bytes) as int
    }
}

/// The text that `bytes` spell as UTF-8, with U+FFFD in place of each run of bytes that
/// is no valid UTF-8.
pub uninterp spec fn lossy_utf8(bytes: Seq<u8>) -> Seq<char>;

/// The values of `256^n` for the widths that occur.
pub proof fn lemma_radix_values()
    ensures
        radix(0) == 1,
        radix(1) == 0x100,
        radix(2) == 0x1_0000,
        radix(3) == 0x100_0000,
        radix(4) == 0x1_0000_0000,
        radix(5) == 0x100_0000_0000,
        radix(6) == 0x1_0000_0000_0000,
        radix(7) == 0x100_0000_0000_0000,
        radix(8) == 0x1_0000_0000_0000_0000,
{
    reveal_with_fuel(radix, 10);
}

/// Reading one more byte multiplies what was read by 256 and adds the byte.
pub proof fn lemma_be_uint_step(s: Seq<u8>, i: int)
    requires
        0 <= i < s.len(),
    ensures
        be_uint(s.take(i + 1)) == be_uint(s.take(i)) * 256 + s[i] as nat,
{
    assert(s.take(i + 1).drop_last() =~= s.take(i));
}

/// `n` bytes spell a number below `256^n`.
pub proof fn lemma_be_uint_bound(s: Seq<u8>)
    ensures
        be_uint(s) < radix(s.len()),
    decreases s.len(),
{
    if s.len() > 0 {
        lemma_be_uint_bound(s.drop_last());
    }
}

/// A view over a buffer together with a read position in it.
#[derive(Debug)]
pub struct Reader<'a, T> {
    slice: &'a [T],
    pos: usize,
}

impl<'a, T> Clone for Reader<'a, T> {
    fn clone(&self) -> (r: Self)
        ensures
            r == *self,
    {
        proof {
            use_type_invariant(self);
        }
        Reader { slice: self.slice, pos: self.pos }
    }
}

impl<'a, T> Reader<'a, T> {
    #[verifier::type_invariant]
    spec fn in_bounds(&self) -> bool {
        self.pos <= self.slice@.len()
    }

    /// The whole buffer that the cursor reads from.
    pub closed spec fn buffer(&self) -> Seq<T> {
        self.slice@
    }

    /// The index in the buffer of the next item to be read.
    pub closed spec fn position(&self) -> nat {
        self.pos as nat
    }

    /// What is left to read: the buffer from the position on.
    pub open spec fn remaining(&self) -> Seq<T> {
        self.buffer().subrange(self.position() as int, self.buffer().len() as int)
    }

    /// The same buffer as `before`, with the position `n` items further on and still
    /// within the buffer.
    pub open spec fn advanced_from(&self, before: &Self, n: nat) -> bool {
        &&& self.buffer() == before.buffer()
        &&& self.position() == before.position() + n
        &&& self.position() <= self.buffer().len()
    }

    /// A cursor at the start of `slice`.
    pub fn new(slice: &'a [T]) -> (r: Self)
        ensures
            r.buffer() == slice@,
            r.position() == 0,
    {
        Self { slice, pos: 0 }
    }

    /// The next `len` items, without moving on.
    pub fn peek(&self, len: usize) -> (r: Result<&'a [T], Error>)
        ensures
            self.position() <= self.buffer().len(),
            len <= self.remaining().len() ==> r is Ok && r->Ok_0@ == self.remaining().take(
                len as int,
            ),
            len > self.remaining().len() ==> r == Err::<&[T], Error>(underrun()),
    {
        proof {
            use_type_invariant(self);
        }
        if len > self.slice.len() - self.pos {
            return Err(Error::Format(FormatError::BufferUnderrun));
        }
        Ok(slice_subrange(self.slice, self.pos, self.pos + len))
    }

    /// The next `len` items; the cursor moves past them. It stays where it is when fewer are left.
    pub fn pop(&mut self, len: usize) -> (r: Result<&'a [T], Error>)
        ensures
            old(self).position() <= old(self).buffer().len(),
            len <= old(self).remaining().len() ==> r is Ok && r->Ok_0@ == old(self).remaining().take(
                len as int,
            ) && final(self).advanced_from(old(self), len as nat),
            len > old(self).remaining().len() ==> r == Err::<&[T], Error>(underrun())
                && *final(self) == *old(self),
    {
        proof {
            use_type_invariant(&*self);
        }
        if len > self.slice.len() - self.pos {
            return Err(Error::Format(FormatError::BufferUnderrun));
        }
        let out = slice_subrange(self.slice, self.pos, self.pos + len);
        self.pos = self.pos + len;
        Ok(out)
    }

    /// A cursor over the same buffer placed at the absolute position `at`.
    pub fn at(&self, at: usize) -> (r: Result<Self, Error>)
        ensures
            self.position() <= self.buffer().len(),
            at <= self.buffer().len() ==> r is Ok && r->Ok_0.buffer() == self.buffer()
                && r->Ok_0.position() == at,
            at > self.buffer().len() ==> r == Err::<Self, Error>(underrun()),
    {
        proof {
            use_type_invariant(self);
        }
        if at > self.slice.len() {
            return Err(Error::Format(FormatError::BufferUnderrun));
        }
        Ok(Self { slice: self.slice, pos: at })
    }

    /// The index in the buffer of the next item to be read.
    pub fn offset(&self) -> (n: usize)
        ensures
            n == self.position(),
            self.position() <= self.buffer().len() <= usize::MAX,
    {
        proof {
            use_type_invariant(self);
        }
        let _total = self.slice.len();
        self.pos
    }

    /// The number of items of the whole buffer.
    pub fn size(&self) -> (n: usize)
        ensures
            n == self.buffer().len(),
    {
        self.slice.len()
    }

    /// The number of items that are left to read.
    pub fn len(&self) -> (n: usize)
        ensures
            self.position() <= self.buffer().len() <= usize::MAX,
            n == self.remaining().len(),
    {
        proof {
            use_type_invariant(self);
        }
        self.slice.len() - self.pos
    }
}

/// Decodes `bytes` as UTF-8 text, putting U+FFFD in place of what is not valid.
///
/// Calls `String::from_utf8_lossy`. Nothing is claimed of the text but that it depends
/// on the bytes alone: it is what `lossy_utf8` names.
#[verifier::external_body]
pub(crate) fn decode_lossy(bytes: &[u8]) -> (text: String)
    ensures
        text@ == lossy_utf8(bytes@),
{
    String::from_utf8_lossy(bytes).into_owned()
}

impl<'a> Reader<'a, u8> {
    /// The next `n` bytes as a big-endian unsigned integer, without moving on.
    pub fn peek_fixed(&self, n: usize) -> (r: Result<u64, Error>)
        requires
            n <= 8,
        ensures
            n <= self.remaining().len() ==> r == Ok::<u64, Error>(
                be_uint(self.remaining().take(n as int)) as u64,
            ) && be_uint(self.remaining().take(n as int)) < radix(n as nat),
            n > self.remaining().len() ==> r == Err::<u64, Error>(underrun()),
    {
        let bytes = self.peek(n)?;
        let ghost s = self.remaining().take(n as int);
        let mut acc: u64 = 0;
        let mut i: usize = 0;
        proof {
            lemma_radix_values();
            assert(s.take(0) =~= Seq::<u8>::empty());
        }
        while i < n
            invariant
                i <= n <= 8,
                bytes@ == s,
                s.len() == n,
                acc == be_uint(s.take(i as int)),
                acc < radix(i as nat),
            decreases n - i,
        {
            proof {
                lemma_be_uint_step(s, i as int);
                lemma_radix_values();
                assert(radix((i + 1) as nat) == 256 * radix(i as nat));
            }
            acc = acc * 256 + bytes[i] as u64;
            i = i + 1;
        }
        proof {
            assert(s.take(n as int) =~= s);
        }
        Ok(acc)
    }

    /// The next `n` bytes as a big-endian unsigned integer; the cursor moves past them.
    pub fn pop_fixed(&mut self, n: usize) -> (r: Result<u64, Error>)
        requires
            n <= 8,
        ensures
            n <= old(self).remaining().len() ==> r == Ok::<u64, Error>(
                be_uint(old(self).remaining().take(n as int)) as u64,
            ) && final(self).advanced_from(old(self), n as nat),
            n > old(self).remaining().len() ==> r == Err::<u64, Error>(underrun()) && *final(self)
                == *old(self),
    {
        let v = self.peek_fixed(n)?;
        let _ = self.pop(n);
        Ok(v)
    }

    /// The next `n` bytes as a big-endian two's-complement integer, without moving on.
    pub fn peek_signed(&self, n: usize) -> (r: Result<i64, Error>)
        requires
            n <= 8,
        ensures
            n <= self.remaining().len() ==> r == Ok::<i64, Error>(
                be_int(self.remaining().take(n as int)) as i64,
            ) && -(radix(n as nat) as int) <= 2 * be_int(self.remaining().take(n as int)) < radix(
                n as nat,
            ),
            n > self.remaining().len() ==> r == Err::<i64, Error>(underrun()),
    {
        let v = self.peek_fixed(n)?;
        proof {
            lemma_radix_values();
        }
        if n == 8 {
            if v >= 0x8000_0000_0000_0000 {
                let below: u64 = u64::MAX - v;
                Ok(-(below as i64) - 1)
            } else {
                Ok(v as i64)
            }
        } else {
            let mut modulus: u64 = 1;
            let mut i: usize = 0;
            while i < n
                invariant
                    i <= n < 8,
                    modulus == radix(i as nat),
                decreases n - i,
            {
                proof {
                    lemma_radix_values();
                    assert(radix((i + 1) as nat) == 256 * radix(i as nat));
                }
                modulus = modulus * 256;
                i = i + 1;
            }
            if v >= modulus - v {
                Ok(v as i64 - modulus as i64)
            } else {
                Ok(v as i64)
            }
        }
    }

    /// The next `n` bytes as a big-endian two's-complement integer; the cursor moves past them.
    pub fn pop_signed(&mut self, n: usize) -> (r: Result<i64, Error>)
        requires
            n <= 8,
        ensures
            n <= old(self).remaining().len() ==> r == Ok::<i64, Error>(
                be_int(old(self).remaining().take(n as int)) as i64,
            ) && final(self).advanced_from(old(self), n as nat) && i64::MIN <= be_int(
                old(self).remaining().take(n as int),
            ) <= i64::MAX,
            n > old(self).remaining().len() ==> r == Err::<i64, Error>(underrun()) && *final(self)
                == *old(self),
    {
        let v = self.peek_signed(n)?;
        let _ = self.pop(n);
        proof {
            lemma_radix_values();
        }
        Ok(v)
    }

    /// The next two bytes as a big-endian unsigned integer, without moving on.
    pub fn peek_u16(&self) -> (r: Result<u16, Error>)
        ensures
            2 <= self.remaining().len() ==> r == Ok::<u16, Error>(
                be_uint(self.remaining().take(2)) as u16,
            ) && be_uint(self.remaining().take(2)) <= u16::MAX,
            2 > self.remaining().len() ==> r == Err::<u16, Error>(underrun()),
    {
        let v = self.peek_fixed(2)?;
        proof {
            lemma_radix_values();
        }
        Ok(v as u16)
    }

    /// The next two bytes as a big-endian two's-complement integer, without moving on.
    pub fn peek_i16(&self) -> (r: Result<i16, Error>)
        ensures
            2 <= self.remaining().len() ==> r == Ok::<i16, Error>(
                be_int(self.remaining().take(2)) as i16,
            ) && i16::MIN <= be_int(self.remaining().take(2)) <= i16::MAX,
            2 > self.remaining().len() ==> r == Err::<i16, Error>(underrun()),
    {
        let v = self.peek_signed(2)?;
        proof {
            lemma_radix_values();
        }
        Ok(v as i16)
    }

    /// The next two bytes as a big-endian two's-complement integer; the cursor moves past them.
    pub fn pop_i16(&mut self) -> (r: Result<i16, Error>)
        ensures
            2 <= old(self).remaining().len() ==> r == Ok::<i16, Error>(
                be_int(old(self).remaining().take(2)) as i16,
            ) && final(self).advanced_from(old(self), 2),
            2 > old(self).remaining().len() ==> r == Err::<i16, Error>(underrun()) && *final(self)
                == *old(self),
    {
        let v = self.peek_i16()?;
        let _ = self.pop(2);
        Ok(v)
    }

    /// The next four bytes as a big-endian two's-complement integer, without moving on.
    pub fn peek_i32(&self) -> (r: Result<i32, Error>)
        ensures
            4 <= self.remaining().len() ==> r == Ok::<i32, Error>(
                be_int(self.remaining().take(4)) as i32,
            ) && i32::MIN <= be_int(self.remaining().take(4)) <= i32::MAX,
            4 > self.remaining().len() ==> r == Err::<i32, Error>(underrun()),
    {
        let v = self.peek_signed(4)?;
        proof {
            lemma_radix_values();
        }
        Ok(v as i32)
    }

    /// The next four bytes as a big-endian two's-complement integer; the cursor moves past them.
    pub fn pop_i32(&mut self) -> (r: Result<i32, Error>)
        ensures
            4 <= old(self).remaining().len() ==> r == Ok::<i32, Error>(
                be_int(old(self).remaining().take(4)) as i32,
            ) && final(self).advanced_from(old(self), 4),
            4 > old(self).remaining().len() ==> r == Err::<i32, Error>(underrun()) && *final(self)
                == *old(self),
    {
        let v = self.peek_i32()?;
        let _ = self.pop(4);
        Ok(v)
    }

    /// The next byte as a two's-complement integer, without moving on.
    pub fn peek_i8(&self) -> (r: Result<i8, Error>)
        ensures
            1 <= self.remaining().len() ==> r == Ok::<i8, Error>(
                be_int(self.remaining().take(1)) as i8,
            ) && i8::MIN <= be_int(self.remaining().take(1)) <= i8::MAX,
            1 > self.remaining().len() ==> r == Err::<i8, Error>(underrun()),
    {
        let v = self.peek_signed(1)?;
        proof {
            lemma_radix_values();
        }
        Ok(v as i8)
    }

    /// The variable-length integer at the cursor; the cursor moves past it. Where the
    /// buffer ends inside the integer, the read fails and the cursor stays.
    pub fn pop_varint(&mut self) -> (r: Result<i64, Error>)
        ensures
            match varint(old(self).remaining()) {
                Some((v, n)) => r == Ok::<i64, Error>(as_signed64(v) as i64)
                    && final(self).advanced_from(old(self), n) && 1 <= n <= 9
                    && v < 0x1_0000_0000_0000_0000,
                None => r == Err::<i64, Error>(underrun()) && *final(self) == *old(self),
            },
    {
        proof {
            use_type_invariant(&*self);
        }
        let avail = self.slice.len() - self.pos;
        let ghost s = self.remaining();
        let mut acc: u64 = 0;
        let mut i: usize = 0;
        let mut done = false;
        while !done
            invariant
                self.pos + avail == self.slice@.len() <= usize::MAX,
                done ==> i <= avail,
                *self == *old(self),
                s == self.slice@.subrange(self.pos as int, self.slice@.len() as int),
                !done ==> i <= 8 && acc < groups_limit(i as nat),
                !done ==> varint(s) == varint_scan(s, i as nat, acc as nat),
                done ==> varint(s) == Some((acc as nat, i as nat)) && 1 <= i <= 9,
                !done && i >= avail ==> varint(s).is_none(),
            ensures
                done,
                varint(s) == Some((acc as nat, i as nat)),
                1 <= i <= 9,
                *self == *old(self),
                i <= avail,
            decreases 9 - i + (if done { 0int } else { 1int }),
        {
            if i >= avail {
                return Err(Error::Format(FormatError::BufferUnderrun));
            }
            let b = self.slice[self.pos + i];
            assert(b == s[i as int]);
            proof {
                lemma_groups_limit_values();
                assert(groups_limit((i + 1) as nat) == 128 * groups_limit(i as nat));
            }
            if i == 8 {
                acc = acc * 256 + b as u64;
                done = true;
            } else if b < 128 {
                acc = acc * 128 + b as u64;
                done = true;
            } else {
                acc = acc * 128 + (b - 128) as u64;
            }
            i = i + 1;
        }
        self.pos = self.pos + i;
        if acc >= 0x8000_0000_0000_0000 {
            let below: u64 = u64::MAX - acc;
            Ok(-(below as i64) - 1)
        } else {
            Ok(acc as i64)
        }
    }

    /// The next `len` bytes, copied out; the cursor moves past them.
    pub fn pop_bytes(&mut self, len: usize) -> (r: Result<Vec<u8>, Error>)
        ensures
            len <= old(self).remaining().len() ==> r is Ok && r->Ok_0@ == old(self).remaining().take(
                len as int,
            ) && final(self).advanced_from(old(self), len as nat),
            len > old(self).remaining().len() ==> r == Err::<Vec<u8>, Error>(underrun())
                && *final(self) == *old(self),
    {
        let bytes = self.pop(len)?;
        Ok(vstd::slice::slice_to_vec(bytes))
    }

    /// The next `len` bytes as text, decoded permissively; the cursor moves past them.
    pub fn pop_str(&mut self, len: usize) -> (r: Result<String, Error>)
        ensures
            len <= old(self).remaining().len() ==> r is Ok && r->Ok_0@ == lossy_utf8(
                old(self).remaining().take(len as int),
            ) && final(self).advanced_from(old(self), len as nat),
            len > old(self).remaining().len() ==> r == Err::<String, Error>(underrun())
                && *final(self) == *old(self),
    {
        let bytes = self.pop(len)?;
        Ok(decode_lossy(bytes))
    }
}

} // verus!
