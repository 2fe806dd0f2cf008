//! The debugging information of a compilation unit as a table of entries.
//!
//! A unit lists its entries in depth-first order. Each entry records its
//! offset within the unit and its depth in the tree, so the children of an
//! entry are the entries one level deeper that follow it before the tree
//! returns to its level. Type references are offsets into the same table.

use vstd::prelude::*;

verus! {

/// The kind of an entry, as far as signatures depend on it.
#[derive(Clone, Copy, Debug, PartialEq, Eq, Structural)]
pub enum Tag {
    Subprogram,
    FormalParameter,
    PointerType,
    ReferenceType,
    ConstType,
    VolatileType,
    RestrictType,
    SubroutineType,
    /// Any other tag, by its code.
    Other(u16),
}

pub const TAG_FORMAL_PARAMETER: u16 = 0x05;

pub const TAG_POINTER_TYPE: u16 = 0x0f;

pub const TAG_REFERENCE_TYPE: u16 = 0x10;

pub const TAG_SUBROUTINE_TYPE: u16 = 0x15;

pub const TAG_CONST_TYPE: u16 = 0x26;

pub const TAG_SUBPROGRAM: u16 = 0x2e;

pub const TAG_VOLATILE_TYPE: u16 = 0x35;

pub const TAG_RESTRICT_TYPE: u16 = 0x37;

impl Tag {
    /// The tag that a DWARF tag code stands for.
    pub open spec fn of_code(code: u16) -> Tag {
        if code == TAG_SUBPROGRAM {
            Tag::Subprogram
        } else if code == TAG_FORMAL_PARAMETER {
            Tag::FormalParameter
        } else if code == TAG_POINTER_TYPE {
            Tag::PointerType
        } else if code == TAG_REFERENCE_TYPE {
            Tag::ReferenceType
        } else if code == TAG_CONST_TYPE {
            Tag::ConstType
        } else if code == TAG_VOLATILE_TYPE {
            Tag::VolatileType
        } else if code == TAG_RESTRICT_TYPE {
            Tag::RestrictType
        } else if code == TAG_SUBROUTINE_TYPE {
            Tag::SubroutineType
        } else {
            Tag::Other(code)
        }
    }

    /// The DWARF code of a tag.
    pub open spec fn code_of(self) -> u16 {
        match self {
            Tag::Subprogram => TAG_SUBPROGRAM,
            Tag::FormalParameter => TAG_FORMAL_PARAMETER,
            Tag::PointerType => TAG_POINTER_TYPE,
            Tag::ReferenceType => TAG_REFERENCE_TYPE,
            Tag::ConstType => TAG_CONST_TYPE,
            Tag::VolatileType => TAG_VOLATILE_TYPE,
            Tag::RestrictType => TAG_RESTRICT_TYPE,
            Tag::SubroutineType => TAG_SUBROUTINE_TYPE,
            Tag::Other(code) => code,
        }
    }

    /// Reads a DWARF tag code.
    pub fn from_code(code: u16) -> (tag: Tag)
        ensures
            tag == Tag::of_code(code),
            tag.code_of() == code,
    {
        if code == TAG_SUBPROGRAM {
            Tag::Subprogram
        } else if code == TAG_FORMAL_PARAMETER {
            Tag::FormalParameter
        } else if code == TAG_POINTER_TYPE {
            Tag::PointerType
        } else if code == TAG_REFERENCE_TYPE {
            Tag::ReferenceType
        } else if code == TAG_CONST_TYPE {
            Tag::ConstType
        } else if code == TAG_VOLATILE_TYPE {
            Tag::VolatileType
        } else if code == TAG_RESTRICT_TYPE {
            Tag::RestrictType
        } else if code == TAG_SUBROUTINE_TYPE {
            Tag::SubroutineType
        } else {
            Tag::Other(code)
        }
    }

    /// The DWARF code of the tag.
    pub fn code(&self) -> (code: u16)
        ensures
            code == self.code_of(),
    {
        match self {
            Tag::Subprogram => TAG_SUBPROGRAM,
            Tag::FormalParameter => TAG_FORMAL_PARAMETER,
            Tag::PointerType => TAG_POINTER_TYPE,
            Tag::ReferenceType => TAG_REFERENCE_TYPE,
            Tag::ConstType => TAG_CONST_TYPE,
            Tag::VolatileType => TAG_VOLATILE_TYPE,
            Tag::RestrictType => TAG_RESTRICT_TYPE,
            Tag::SubroutineType => TAG_SUBROUTINE_TYPE,
            Tag::Other(code) => *code,
        }
    }
}

/// The name attribute of an entry.
#[derive(Clone, Debug, PartialEq, Eq)]
pub enum Name {
    /// The entry has no name attribute.
    Absent,
    /// The entry is named so.
    Text(String),
    /// The entry has a name attribute, but its text cannot be read.
    Unreadable,
}

/// A name attribute as a plain value.
pub ghost enum NameView {
    Absent,
    Text(Seq<char>),
    Unreadable,
}

impl View for Name {
    type V = NameView;

    open spec fn view(&self) -> NameView {
        match self {
            Name::Absent => NameView::Absent,
            Name::Text(s) => NameView::Text(s@),
            Name::Unreadable => NameView::Unreadable,
        }
    }
}

/// The type attribute of an entry.
#[derive(Clone, Copy, Debug, PartialEq, Eq, Structural)]
pub enum TypeRef {
    /// The entry has no type attribute: its type is `void`.
    Absent,
    /// The type is the entry at this offset of the same unit.
    At(usize),
    /// The entry has a type attribute of another form.
    Unsupported,
}

/// One node of the tree.
#[derive(Clone, Debug, PartialEq, Eq)]
pub struct Entry {
    /// Where the entry stands in its unit.
    pub offset: usize,
    /// How deep the entry stands in the tree; the root has depth 0.
    pub depth: usize,
    pub tag: Tag,
    pub name: Name,
    pub type_ref: TypeRef,
    /// The entry has an `external` attribute.
    pub external: bool,
    /// The entry has a `prototyped` attribute.
    pub prototyped: bool,
}

/// An entry as a plain value.
pub ghost struct EntryView {
    pub offset: usize,
    pub depth: usize,
    pub tag: Tag,
    pub name: NameView,
    pub type_ref: TypeRef,
    pub external: bool,
    pub prototyped: bool,
}

impl View for Entry {
    type V = EntryView;

    open spec fn view(&self) -> EntryView {
        EntryView {
            offset: self.offset,
            depth: self.depth,
            tag: self.tag,
            name: self.name@,
            type_ref: self.type_ref,
            external: self.external,
            prototyped: self.prototyped,
        }
    }
}

/// The plain values of a list of entries.
pub open spec fn views(entries: Seq<Entry>) -> Seq<EntryView> {
    Seq::new(entries.len(), |i: int| entries[i]@)
}

/// The offsets grow from each entry to the next.
pub open spec fn offsets_ascend(es: Seq<EntryView>) -> bool {
    forall|i: int, j: int| 0 <= i < j < es.len() ==> (#[trigger] es[i]).offset < (#[trigger] es[j]).offset
}

/// The entry at position `i` stands at the offset `off`.
pub open spec fn at_offset(es: Seq<EntryView>, off: usize, i: int) -> bool {
    0 <= i < es.len() && es[i].offset == off
}

/// The position of the entry that stands at the offset `off`.
pub open spec fn index_of(es: Seq<EntryView>, off: usize) -> Option<int> {
    if exists|i: int| at_offset(es, off, i) {
        Some(choose|i: int| at_offset(es, off, i))
    } else {
        None
    }
}

/// Where offsets ascend, an offset belongs to one entry only.
pub proof fn lemma_index_of(es: Seq<EntryView>, i: int)
    requires
        offsets_ascend(es),
        0 <= i < es.len(),
    ensures
        index_of(es, es[i].offset) == Some(i),
{
    assert(at_offset(es, es[i].offset, i));
}

/// The entries of one compilation unit, in depth-first order, with ascending
/// offsets.
pub struct Unit {
    entries: Vec<Entry>,
}

impl View for Unit {
    type V = Seq<EntryView>;

    closed spec fn view(&self) -> Seq<EntryView> {
        views(self.entries@)
    }
}

impl Unit {
    #[verifier::type_invariant]
    spec fn inv(&self) -> bool {
        offsets_ascend(views(self.entries@))
    }

    /// Makes a unit of the entries, if their offsets ascend.
    pub fn new(entries: Vec<Entry>) -> (r: Option<Unit>)
        ensures
            r is Some <==> offsets_ascend(views(entries@)),
            r matches Some(unit) ==> unit@ == views(entries@),
    {
        let ghost es = views(entries@);
        let mut i: usize = 1;
        while i < entries.len()
            invariant
                1 <= i,
                es == views(entries@),
                forall|a: int, b: int|
                    0 <= a < b < i && b < es.len() ==> (#[trigger] es[a]).offset < (
                    #[trigger] es[b]).offset,
            decreases entries.len() - i,
        {
            if entries[i - 1].offset >= entries[i].offset {
                assert(es[i - 1].offset >= es[i as int].offset);
                return None;
            }
            assert forall|a: int, b: int| 0 <= a < b < i + 1 && b < es.len() implies (
            #[trigger] es[a]).offset < (#[trigger] es[b]).offset by {
                if b == i && a < i - 1 {
                    assert(es[a].offset < es[i - 1].offset);
                }
            }
            i = i + 1;
        }
        Some(Unit { entries })
    }

    /// The number of entries. Their offsets ascend.
    pub fn len(&self) -> (n: usize)
        ensures
            n == self@.len(),
            offsets_ascend(self@),
    {
        proof {
            use_type_invariant(self);
        }
        self.entries.len()
    }

    /// The entry at position `i`.
    pub fn entry(&self, i: usize) -> (e: &Entry)
        requires
            i < self@.len(),
        ensures
            e@ == self@[i as int],
    {
        &self.entries[i]
    }

    /// The position of the entry that stands at `offset`.
    pub fn find(&self, offset: usize) -> (r: Option<usize>)
        ensures
            match r {
                Some(i) => index_of(self@, offset) == Some(i as int) && i < self@.len(),
                None => index_of(self@, offset) is None,
            },
    {
        proof {
            use_type_invariant(self);
        }
        let ghost es = self@;
        let mut lo: usize = 0;
        let mut hi: usize = self.entries.len();
        while lo < hi
            invariant
                es == views(self.entries@),
                offsets_ascend(es),
                lo <= hi <= es.len(),
                forall|i: int| 0 <= i < lo ==> (#[trigger] es[i]).offset < offset,
                forall|i: int| hi <= i < es.len() ==> (#[trigger] es[i]).offset > offset,
            decreases hi - lo,
        {
            let mid = lo + (hi - lo) / 2;
            let at = self.entries[mid].offset;
            if at == offset {
                proof {
                    lemma_index_of(es, mid as int);
                }
                return Some(mid);
            } else if at < offset {
                assert forall|i: int| 0 <= i < mid + 1 implies (#[trigger] es[i]).offset
                    < offset by {
                    if i < mid {
                        assert(es[i].offset < es[mid as int].offset);
                    }
                }
                lo = mid + 1;
            } else {
                assert forall|i: int| mid <= i < es.len() implies (#[trigger] es[i]).offset
                    > offset by {
                    if mid < i {
                        assert(es[mid as int].offset < es[i].offset);
                    }
                }
                hi = mid;
            }
        }
        proof {
            if exists|i: int| at_offset(es, offset, i) {
                let i = choose|i: int| at_offset(es, offset, i);
                assert(es[i].offset == offset);
            }
        }
        None
    }
}

} // verus!
