use vstd::prelude::*;

verus! {

/// Everything that can go wrong while a database is decoded or a statement
/// is run. A decoding failure says at which byte it stands: counted from the
/// start of the bytes that were handed to the decoder, and from the start of
/// the file where a page was read from a file.
#[derive(Debug, Clone, Copy, PartialEq, Eq, Structural)]
pub enum DbError {
    /// The file holds fewer bytes than a read needs.
    Io,
    /// The file does not start with the magic string, or its page size is
    /// not a power of two.
    InvalidHeader,
    /// The first byte of a B-tree page header is not one of the four tags,
    /// or not the tag of the kind of page that was expected.
    UnknownPageType { offset: usize },
    /// A page header, a cell pointer or a cell reaches beyond the page.
    TruncatedPage { offset: usize },
    /// The input ends in the middle of a varint.
    MalformedVarint { offset: usize },
    /// A record header or body does not fit its payload, or a text column is
    /// not UTF-8.
    MalformedRecord { offset: usize },
    /// No table of that name is in the catalog.
    UnknownTable,
    /// No column of that name is in the table.
    UnknownColumn,
    /// The statement parsed, but the engine cannot run it.
    UnsupportedQuery,
    /// A B-tree is deeper than the file has pages, so it holds a cycle.
    CyclicTree,
}

/// An offset that is `base` bytes further on; it stops at the largest
/// offset that the machine holds.
pub open spec fn offset_sum(offset: usize, base: nat) -> usize {
    if offset + base <= usize::MAX {
        (offset + base) as usize
    } else {
        usize::MAX
    }
}

impl DbError {
    /// The same failure, seen from `base` bytes before the start of the
    /// bytes that it was found in.
    pub open spec fn moved(self, base: nat) -> DbError {
        match self {
            DbError::UnknownPageType { offset } => DbError::UnknownPageType {
                offset: offset_sum(offset, base),
            },
            DbError::TruncatedPage { offset } => DbError::TruncatedPage {
                offset: offset_sum(offset, base),
            },
            DbError::MalformedVarint { offset } => DbError::MalformedVarint {
                offset: offset_sum(offset, base),
            },
            DbError::MalformedRecord { offset } => DbError::MalformedRecord {
                offset: offset_sum(offset, base),
            },
            other => other,
        }
    }

    /// The same failure, seen from `base` bytes before the start of the
    /// bytes that it was found in.
    pub fn shifted(self, base: usize) -> (e: DbError)
        ensures
            e == self.moved(base as nat),
    {
        match self {
            DbError::UnknownPageType { offset } => DbError::UnknownPageType {
                offset: add_offsets(offset, base),
            },
            DbError::TruncatedPage { offset } => DbError::TruncatedPage {
                offset: add_offsets(offset, base),
            },
            DbError::MalformedVarint { offset } => DbError::MalformedVarint {
                offset: add_offsets(offset, base),
            },
            DbError::MalformedRecord { offset } => DbError::MalformedRecord {
                offset: add_offsets(offset, base),
            },
            other => other,
        }
    }
}

/// Adds two offsets, and stops at the largest that the machine holds.
pub fn add_offsets(offset: usize, base: usize) -> (sum: usize)
    ensures
        sum == offset_sum(offset, base as nat),
{
    match offset.checked_add(base) {
        Some(sum) => sum,
        None => usize::MAX,
    }
}

/// A result whose failure is seen from `base` bytes before.
pub open spec fn moved_result<T>(result: Result<T, DbError>, base: nat) -> Result<T, DbError> {
    match result {
        Ok(value) => Ok(value),
        Err(e) => Err(e.moved(base)),
    }
}

} // verus!
