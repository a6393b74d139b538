//! Page management: identifiers, types and page layouts.
//!
//! All data in the database file is organized into fixed-size pages.
//! Pages 0 and 1 are superblock pages; pages 2 and up are data pages
//! (interior, leaf, overflow or free).

pub mod header;
pub mod interior;
pub mod leaf;

use vstd::prelude::*;
use crate::text::{decimal, push_decimal, string_of};
use vstd::string::StringExecFns;

verus! {

/// Default page size in bytes.
pub const DEFAULT_PAGE_SIZE: usize = 4096;

/// Minimum supported page size in bytes.
pub const MIN_PAGE_SIZE: usize = 4096;

/// Maximum supported page size in bytes.
pub const MAX_PAGE_SIZE: usize = 65536;

/// Size of the common page header in bytes.
pub const COMMON_HEADER_SIZE: usize = 24;

/// Size of the file identity header in bytes.
pub const IDENTITY_HEADER_SIZE: usize = 32;

/// Size of the used portion of a superblock page in bytes.
pub const SUPERBLOCK_USED_SIZE: usize = 192;

/// A page identifier; `PageId(0)` is the null sentinel ("no page").
#[derive(Clone, Copy, PartialEq, Eq, PartialOrd, Ord, Hash, Debug, Structural)]
pub struct PageId(pub u64);

impl PageId {
    /// The null sentinel ("no page", e.g. an empty tree).
    pub fn null() -> (r: PageId)
        ensures
            r.0 == 0,
    {
        PageId(0)
    }

    /// Returns `true` if this is the null sentinel.
    pub fn is_null(self) -> (r: bool)
        ensures
            r == (self.0 == 0),
    {
        self.0 == 0
    }

    /// The display form, `PageId(n)`.
    pub fn to_string(&self) -> (r: String)
        ensures
            r@ == "PageId("@ + decimal(self.0 as nat) + ")"@,
    {
        let mut s = string_of("PageId(");
        push_decimal(&mut s, self.0);
        s.append(")");
        s
    }
}

/// Page type discriminant stored in the common page header.
#[derive(Clone, Copy, PartialEq, Eq, Debug, Structural)]
pub enum PageType {
    /// B-tree interior (branch) node, stored as `0x01`.
    Interior,
    /// B-tree leaf node, stored as `0x02`.
    Leaf,
    /// Overflow page for large values, stored as `0x03`.
    Overflow,
    /// Free (unallocated) page, stored as `0x04`.
    Free,
}

/// The byte that encodes a page type.
pub open spec fn page_type_byte(t: PageType) -> u8 {
    match t {
        PageType::Interior => 1,
        PageType::Leaf => 2,
        PageType::Overflow => 3,
        PageType::Free => 4,
    }
}

/// The page type a byte encodes, if any.
pub open spec fn page_type_of(b: u8) -> Option<PageType> {
    if b == 1 {
        Some(PageType::Interior)
    } else if b == 2 {
        Some(PageType::Leaf)
    } else if b == 3 {
        Some(PageType::Overflow)
    } else if b == 4 {
        Some(PageType::Free)
    } else {
        None
    }
}

/// The display name of a page type.
pub open spec fn page_type_text(t: PageType) -> Seq<char> {
    match t {
        PageType::Interior => "Interior"@,
        PageType::Leaf => "Leaf"@,
        PageType::Overflow => "Overflow"@,
        PageType::Free => "Free"@,
    }
}

impl PageType {
    /// The byte that encodes this page type.
    pub fn as_u8(self) -> (r: u8)
        ensures
            r == page_type_byte(self),
    {
        match self {
            PageType::Interior => 1,
            PageType::Leaf => 2,
            PageType::Overflow => 3,
            PageType::Free => 4,
        }
    }

    /// The display name (`"Interior"`, `"Leaf"`, `"Overflow"` or `"Free"`).
    pub fn to_string(&self) -> (r: String)
        ensures
            r@ == page_type_text(*self),
    {
        match self {
            PageType::Interior => string_of("Interior"),
            PageType::Leaf => string_of("Leaf"),
            PageType::Overflow => string_of("Overflow"),
            PageType::Free => string_of("Free"),
        }
    }
}

impl TryFrom<u8> for PageType {
    type Error = u8;

    fn try_from(value: u8) -> (r: Result<PageType, u8>) {
        if value == 1 {
            Ok(PageType::Interior)
        } else if value == 2 {
            Ok(PageType::Leaf)
        } else if value == 3 {
            Ok(PageType::Overflow)
        } else if value == 4 {
            Ok(PageType::Free)
        } else {
            Err(value)
        }
    }
}

impl vstd::std_specs::convert::TryFromSpecImpl<u8> for PageType {
    open spec fn obeys_try_from_spec() -> bool {
        true
    }

    open spec fn try_from_spec(v: u8) -> Result<PageType, u8> {
        match page_type_of(v) {
            Some(t) => Ok(t),
            None => Err(v),
        }
    }
}

/// Decoding the byte of a page type gives the page type back.
pub proof fn lemma_page_type_byte_round_trip(t: PageType)
    ensures
        page_type_of(page_type_byte(t)) == Some(t),
{
}

/// The page type a byte encodes, if any.
pub fn page_type_from_byte(b: u8) -> (r: Option<PageType>)
    ensures
        r == page_type_of(b),
{
    match PageType::try_from(b) {
        Ok(t) => Some(t),
        Err(_) => None,
    }
}

} // verus!
