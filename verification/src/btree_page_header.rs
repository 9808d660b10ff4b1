//! The header that every B-tree page begins with.

use vstd::prelude::*;
use crate::common::BTreePageType;
use crate::error::{Error, FormatError, refines, underrun};
use crate::reader::{Reader, be_uint, lemma_be_uint_step, lemma_radix_values};

verus! {

/// What a page header says, as numbers and sequences.
pub struct PageLayout {
    pub kind: BTreePageType,
    pub cell_count: nat,
    pub cell_start_offset: nat,
    pub rightmost_pointer: Option<nat>,
    pub cell_offsets: Seq<nat>,
}

/// The offset at which the cell content area starts: a stored 0 stands for 65536.
pub open spec fn content_start(stored: nat) -> nat {
    if stored == 0 {
        65536
    } else {
        stored
    }
}

/// The header of the page that starts with the bytes `page`.
///
/// The kind tag is the first byte, the number of cells stands at offset 3 and the start of
/// the cell content at offset 5. An interior page has its right-most child at offset 8.
/// The offsets of the cells, two bytes each, follow the header.
pub open spec fn page_header(page: Seq<u8>) -> Result<PageLayout, Error> {
    if page.len() < 1 {
        Err(underrun())
    } else {
        match BTreePageType::of_tag(page[0] as int) {
            None => Err(Error::Format(FormatError::UnexpectedPageKind)),
            Some(kind) => {
                let count = be_uint(page.subrange(3, 5));
                let first = kind.header_len() as int;
                if page.len() < first || page.len() < first + 2 * count {
                    Err(underrun())
                } else {
                    Ok(
                        PageLayout {
                            kind,
                            cell_count: count,
                            cell_start_offset: content_start(be_uint(page.subrange(5, 7))),
                            rightmost_pointer: if kind.interior() {
                                Some(be_uint(page.subrange(8, 12)))
                            } else {
                                None
                            },
                            cell_offsets: Seq::new(
                                count,
                                |i: int| be_uint(page.subrange(first + 2 * i, first + 2 * i + 2)),
                            ),
                        },
                    )
                }
            },
        }
    }
}

/// The header of a B-tree page, decoded.
#[derive(Debug)]
pub struct BTreePageHeader {
    pub kind: BTreePageType,
    pub cell_count: u16,
    pub cell_start_offset: usize,
    pub rightmost_pointer: Option<u32>,
    pub cell_offsets: Vec<usize>,
}

impl View for BTreePageHeader {
    type V = PageLayout;

    open spec fn view(&self) -> PageLayout {
        PageLayout {
            kind: self.kind,
            cell_count: self.cell_count as nat,
            cell_start_offset: self.cell_start_offset as nat,
            rightmost_pointer: match self.rightmost_pointer {
                Some(p) => Some(p as nat),
                None => None,
            },
            cell_offsets: self.cell_offsets@.map_values(|o: usize| o as nat),
        }
    }
}

impl BTreePageHeader {
    /// Decodes the header of the page at whose first byte the cursor is.
    pub fn from(reader: &Reader<'_, u8>) -> (r: Result<Self, Error>)
        ensures
            refines(r, page_header(reader.remaining())),
            r is Ok ==> r->Ok_0.cell_offsets@.len() == r->Ok_0.cell_count,
    {
        let ghost page = reader.remaining();
        let avail = reader.len();
        let base = reader.offset();
        assert(base + avail == reader.buffer().len());
        if avail < 1 {
            return Err(Error::Format(FormatError::BufferUnderrun));
        }
        let tag = reader.peek_i8()?;
        proof {
            lemma_radix_values();
            lemma_be_uint_step(page.take(1), 0);
            assert(page.take(1).take(1) =~= page.take(1));
            assert(page.take(1).take(0) =~= Seq::<u8>::empty());
            assert(be_uint(page.take(1)) == page[0]);
        }
        let kind = if tag == 2 {
            BTreePageType::InteriorIndex
        } else if tag == 5 {
            BTreePageType::InteriorTable
        } else if tag == 10 {
            BTreePageType::LeafIndex
        } else if tag == 13 {
            BTreePageType::LeafTable
        } else {
            return Err(Error::Format(FormatError::UnexpectedPageKind));
        };
        let first: usize = if kind.is_interior() {
            12
        } else {
            8
        };
        if avail < first {
            return Err(Error::Format(FormatError::BufferUnderrun));
        }
        let at_count = reader.at(base + 3)?;
        assert(at_count.remaining().take(2) =~= page.subrange(3, 5));
        let cell_count = at_count.peek_u16()?;
        if (avail - first) / 2 < cell_count as usize {
            return Err(Error::Format(FormatError::BufferUnderrun));
        }
        let at_content = reader.at(base + 5)?;
        assert(at_content.remaining().take(2) =~= page.subrange(5, 7));
        let stored_start = at_content.peek_u16()?;
        let cell_start_offset: usize = if stored_start == 0 {
            0x1_0000
        } else {
            stored_start as usize
        };
        let rightmost_pointer = if kind.is_interior() {
            let at_pointer = reader.at(base + 8)?;
            assert(at_pointer.remaining().take(4) =~= page.subrange(8, 12));
            let pointer = at_pointer.peek_fixed(4)?;
            Some(pointer as u32)
        } else {
            None
        };
        let mut cell_offsets: Vec<usize> = Vec::new();
        let mut i: usize = 0;
        while i < cell_count as usize
            invariant
                i <= cell_count,
                page == reader.remaining(),
                base == reader.position(),
                avail == page.len(),
                base + avail <= usize::MAX,
                first == 8 || first == 12,
                first + 2 * cell_count <= avail,
                cell_offsets@.len() == i,
                forall|j: int|
                    0 <= j < i ==> #[trigger] cell_offsets@[j] == be_uint(
                        page.subrange(first + 2 * j, first + 2 * j + 2),
                    ),
            decreases cell_count - i,
        {
            let at_offset = reader.at(base + first + 2 * i)?;
            assert(at_offset.remaining().take(2) =~= page.subrange(
                first + 2 * i,
                first + 2 * i + 2,
            ));
            let offset = at_offset.peek_u16()?;
            cell_offsets.push(offset as usize);
            i = i + 1;
        }
        let header = Self { kind, cell_count, cell_start_offset, rightmost_pointer, cell_offsets };
        proof {
            assert(header@.cell_offsets =~= page_header(page)->Ok_0.cell_offsets);
        }
        Ok(header)
    }

    /// The length in bytes of the header, before the cell offsets: 12 for an interior
    /// page, 8 for a leaf.
    pub fn byte_len(&self) -> (n: usize)
        ensures
            n == self.kind.header_len(),
    {
        if self.kind.is_interior() {
            12
        } else {
            8
        }
    }
}

} // verus!
