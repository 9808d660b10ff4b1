//! The 100-byte preamble of a database file.

use vstd::prelude::*;
use crate::error::{Error, FormatError, underrun};
use crate::reader::{Reader, be_int, be_uint};

verus! {

/// The length in bytes of the file preamble; the first page's B-tree header follows it.
pub const HEADER_LEN: usize = 100;

/// What the preamble says of the file as a whole.
#[derive(Debug, Clone, Copy, PartialEq, Eq, Structural)]
pub struct DatabaseHeader {
    /// The size of a page in bytes: 65536, or a value within 512..=32768.
    pub page_size: usize,
    /// The schema format number, as stored.
    pub schema_format: i32,
}

/// The page size that a stored 16-bit value stands for: 1 stands for 65536, a value
/// within 512..=32768 for itself, and any other for none.
pub open spec fn page_size_of(stored: nat) -> Option<nat> {
    if stored == 1 {
        Some(65536)
    } else if 512 <= stored <= 32768 {
        Some(stored)
    } else {
        None
    }
}

/// The preamble that a file of these bytes has. The page size stands at offset 16 and
/// the schema format number at offset 44.
pub open spec fn decode_header(file: Seq<u8>) -> Result<DatabaseHeader, Error> {
    if file.len() < 100 {
        Err(underrun())
    } else {
        match page_size_of(be_uint(file.subrange(16, 18))) {
            None => Err(Error::Format(FormatError::InvalidPageSize)),
            Some(size) => Ok(
                DatabaseHeader {
                    page_size: size as usize,
                    schema_format: be_int(file.subrange(44, 48)) as i32,
                },
            ),
        }
    }
}

impl DatabaseHeader {
    /// The page size is one that a file can have.
    pub open spec fn well_formed(&self) -> bool {
        self.page_size == 65536 || 512 <= self.page_size <= 32768
    }

    /// Decodes the preamble of the file that `reader` reads, wherever the cursor is.
    pub fn from(reader: &Reader<'_, u8>) -> (r: Result<Self, Error>)
        ensures
            r == decode_header(reader.buffer()),
            r is Ok ==> r->Ok_0.well_formed(),
    {
        let start = reader.at(0)?;
        if start.len() < HEADER_LEN {
            return Err(Error::Format(FormatError::BufferUnderrun));
        }
        let ghost file = reader.buffer();
        assert(start.remaining() =~= file);
        let at_size = start.at(16)?;
        assert(at_size.remaining().take(2) =~= file.subrange(16, 18));
        let stored = at_size.peek_u16()?;
        let page_size: usize = if stored == 1 {
            0x1_0000
        } else if stored >= 512 && stored <= 32768 {
            stored as usize
        } else {
            return Err(Error::Format(FormatError::InvalidPageSize));
        };
        let at_format = start.at(44)?;
        assert(at_format.remaining().take(4) =~= file.subrange(44, 48));
        let schema_format = at_format.peek_i32()?;
        Ok(Self { page_size, schema_format })
    }
}

/// A stored page size of 1 decodes to 65536, one within 512..=32768 to itself, and a
/// file with any other stored page size is rejected.
pub proof fn lemma_page_size_normalization(file: Seq<u8>)
    requires
        file.len() >= 100,
    ensures
        be_uint(file.subrange(16, 18)) == 1 ==> decode_header(file) is Ok && decode_header(
            file,
        )->Ok_0.page_size == 65536,
        512 <= be_uint(file.subrange(16, 18)) <= 32768 ==> decode_header(file) is Ok
            && decode_header(file)->Ok_0.page_size == be_uint(file.subrange(16, 18)),
        be_uint(file.subrange(16, 18)) != 1 && !(512 <= be_uint(file.subrange(16, 18)) <= 32768)
            ==> decode_header(file) == Err::<DatabaseHeader, Error>(
            Error::Format(FormatError::InvalidPageSize),
        ),
{
}

} // verus!
