//! Reading the entries of the compilation units out of the debug sections.

use crate::fault::Fault;
use crate::tree::{offsets_ascend, views, Entry, EntryView, Name, NameView, Tag, TypeRef, Unit};
use vstd::prelude::*;
use vstd::string::*;
use vstd::utf8::{decode_utf8, valid_utf8};

verus! {

/// `gimli::Error`, the error of every read. Nothing is known of its value.
#[verifier::external_type_specification]
#[verifier::external_body]
pub struct ExError(gimli::Error);

/// `gimli::Abbreviations`, the abbreviation table of one unit.
#[verifier::external_type_specification]
#[verifier::external_body]
pub struct ExAbbreviations(gimli::Abbreviations);

/// `gimli::RunTimeEndian`, a byte order chosen when the program runs.
#[verifier::external_type_specification]
#[verifier::external_body]
pub struct ExRunTimeEndian(gimli::RunTimeEndian);

/// The headers of the units of a `.debug_info` section that are still to be
/// read: a `gimli::DebugInfoUnitHeadersIter` over a byte slice.
#[verifier::external_body]
pub struct Headers<'a> {
    inner: gimli::DebugInfoUnitHeadersIter<gimli::EndianSlice<'a, gimli::RunTimeEndian>>,
}

/// The header of one unit: a `gimli::UnitHeader` over a byte slice.
#[verifier::external_body]
pub struct Header<'a> {
    inner: gimli::UnitHeader<gimli::EndianSlice<'a, gimli::RunTimeEndian>>,
}

/// A place among the entries of a unit: a `gimli::EntriesCursor` that reads
/// with the abbreviation table it borrows.
#[verifier::external_body]
pub struct Cursor<'a, 'b> {
    inner: gimli::EntriesCursor<'b, gimli::EndianSlice<'a, gimli::RunTimeEndian>>,
}

/// One entry as it was read: a `gimli::DebuggingInformationEntry`.
#[verifier::external_body]
pub struct Die<'a> {
    inner: gimli::DebuggingInformationEntry<gimli::EndianSlice<'a, gimli::RunTimeEndian>>,
}

pub const AT_NAME: u16 = 0x03;

pub const AT_PROTOTYPED: u16 = 0x27;

pub const AT_EXTERNAL: u16 = 0x3f;

pub const AT_TYPE: u16 = 0x49;

/// Whether a byte order is the little-endian one.
pub uninterp spec fn is_little(endian: gimli::RunTimeEndian) -> bool;

/// What `gimli::DebugInfo::units` finds in a `.debug_info` section that is
/// read in a byte order: the headers that the iterator hands out, in their
/// order, before it ends or a read fails, and whether a read fails after
/// them.
pub uninterp spec fn section_headers(debug_info: Seq<u8>, little_endian: bool) -> (
    Seq<Header<'static>>,
    bool,
);

/// What an iterator over the headers of a section still holds: the headers
/// that `gimli::DebugInfoUnitHeadersIter::next` will hand out, in their
/// order, before it ends or fails, and whether it fails after them.
pub uninterp spec fn headers_left(headers: Headers) -> (Seq<Header<'static>>, bool);

/// What `gimli::UnitHeader::abbreviations` reads for a unit from a
/// `.debug_abbrev` section: the unit's abbreviation table, or nothing where
/// the read fails.
pub uninterp spec fn unit_abbreviations(
    header: Header,
    debug_abbrev: Seq<u8>,
    little_endian: bool,
) -> Option<gimli::Abbreviations>;

/// What `gimli::UnitHeader::entries` finds in a unit that is read with an
/// abbreviation table: the entries that the cursor hands out in depth-first
/// order before it ends or a read fails, and whether a read fails after
/// them.
pub uninterp spec fn unit_entries(header: Header, abbreviations: gimli::Abbreviations) -> (
    Seq<Die<'static>>,
    bool,
);

/// What a cursor still holds: the entries that
/// `gimli::EntriesCursor::next_dfs` will hand out, in their order, before it
/// ends or fails, and whether it fails after them.
pub uninterp spec fn cursor_left(cursor: Cursor) -> (Seq<Die<'static>>, bool);

/// What `gimli::DebuggingInformationEntry::offset` gives for an entry.
pub uninterp spec fn die_offset_of(die: Die) -> usize;

/// What `gimli::DebuggingInformationEntry::depth` gives for an entry.
pub uninterp spec fn die_depth_of(die: Die) -> isize;

/// The code of what `gimli::DebuggingInformationEntry::tag` gives for an
/// entry.
pub uninterp spec fn die_tag_of(die: Die) -> u16;

/// What `gimli::DebuggingInformationEntry::has_attr` gives for an entry and
/// the code of an attribute.
pub uninterp spec fn die_has(die: Die, code: u16) -> bool;

/// What `gimli::DebuggingInformationEntry::attr_value` gives for an entry
/// and the code of an attribute, read as a reference into the unit:
/// nothing without such an attribute, `Some(None)` where its value is no
/// `UnitRef`, else the offset.
pub uninterp spec fn die_reference(die: Die, code: u16) -> Option<Option<usize>>;

/// What `gimli::DebuggingInformationEntry::attr_value` and then
/// `gimli::AttributeValue::string_value` give for an entry, the code of an
/// attribute and a `.debug_str` section: nothing without such an attribute,
/// `Some(None)` where its value is no string that stands in the entry or in
/// the section, else the bytes of the string.
pub uninterp spec fn die_text(die: Die, code: u16, debug_str: Seq<u8>, little_endian: bool) -> Option<
    Option<Seq<u8>>,
>;

/// The bytes of what was read of a string attribute, as a plain value.
pub open spec fn bytes_of(raw: Option<Option<Vec<u8>>>) -> Option<Option<Seq<u8>>> {
    match raw {
        None => None,
        Some(None) => Some(None),
        Some(Some(bytes)) => Some(Some(bytes@)),
    }
}

/// The two values of `gimli::RunTimeEndian`.
#[verifier::external_body]
fn endian_of(little_endian: bool) -> (r: gimli::RunTimeEndian)
    ensures
        is_little(r) == little_endian,
{
    if little_endian {
        gimli::RunTimeEndian::Little
    } else {
        gimli::RunTimeEndian::Big
    }
}

/// `gimli::DebugInfo::units` on the section: an iterator that has read no
/// header yet, and so holds what `section_headers` names. Over a section
/// without bytes it holds no header and does not fail.
#[verifier::external_body]
fn unit_headers<'a>(debug_info: &'a [u8], endian: gimli::RunTimeEndian) -> (r: Headers<'a>)
    ensures
        headers_left(r) == section_headers(debug_info@, is_little(endian)),
        debug_info@.len() == 0 ==> headers_left(r).0.len() == 0 && !headers_left(r).1,
{
    Headers { inner: gimli::DebugInfo::new(debug_info, endian).units() }
}

/// `gimli::DebugInfoUnitHeadersIter::next`: the first header that the
/// iterator holds, and the iterator holds the rest; `None` where it holds
/// none and ends; the error of the read where it holds none and fails.
#[verifier::external_body]
fn next_header<'a>(headers: &mut Headers<'a>) -> (r: Result<Option<Header<'a>>, gimli::Error>)
    ensures
        match r {
            Ok(Some(header)) => headers_left(*old(headers)).0.len() > 0 && header == headers_left(
                *old(headers),
            ).0[0] && headers_left(*final(headers)) == (
                headers_left(*old(headers)).0.drop_first(),
                headers_left(*old(headers)).1,
            ),
            Ok(None) => headers_left(*old(headers)).0.len() == 0 && !headers_left(*old(headers)).1,
            Err(_) => headers_left(*old(headers)).0.len() == 0 && headers_left(*old(headers)).1,
        },
{
    Ok(headers.inner.next()?.map(|inner| Header { inner }))
}

/// `gimli::UnitHeader::abbreviations`: the unit's abbreviation table, read
/// from the `.debug_abbrev` section, or the error of the read.
#[verifier::external_body]
fn abbreviations<'a>(
    header: &Header<'a>,
    debug_abbrev: &'a [u8],
    endian: gimli::RunTimeEndian,
) -> (r: Result<gimli::Abbreviations, gimli::Error>)
    ensures
        match r {
            Ok(table) => unit_abbreviations(*header, debug_abbrev@, is_little(endian)) == Some(
                table,
            ),
            Err(_) => unit_abbreviations(*header, debug_abbrev@, is_little(endian)) is None,
        },
{
    header.inner.abbreviations(&gimli::DebugAbbrev::new(debug_abbrev, endian))
}

/// `gimli::UnitHeader::entries`: a cursor before the first entry of the
/// unit, which holds what `unit_entries` names.
#[verifier::external_body]
fn entries<'a, 'b>(header: &Header<'a>, abbreviations: &'b gimli::Abbreviations) -> (r: Cursor<
    'a,
    'b,
>)
    ensures
        cursor_left(r) == unit_entries(*header, *abbreviations),
{
    Cursor { inner: header.inner.entries(abbreviations) }
}

/// `gimli::EntriesCursor::next_dfs`: a copy of the first entry that the
/// cursor holds, and the cursor holds the rest; `None` where it holds none
/// and ends; the error of the read where it holds none and fails.
#[verifier::external_body]
fn next_dfs<'a, 'b>(cursor: &mut Cursor<'a, 'b>) -> (r: Result<Option<Die<'a>>, gimli::Error>)
    ensures
        match r {
            Ok(Some(die)) => cursor_left(*old(cursor)).0.len() > 0 && die == cursor_left(
                *old(cursor),
            ).0[0] && cursor_left(*final(cursor)) == (
                cursor_left(*old(cursor)).0.drop_first(),
                cursor_left(*old(cursor)).1,
            ),
            Ok(None) => cursor_left(*old(cursor)).0.len() == 0 && !cursor_left(*old(cursor)).1,
            Err(_) => cursor_left(*old(cursor)).0.len() == 0 && cursor_left(*old(cursor)).1,
        },
{
    Ok(cursor.inner.next_dfs()?.map(|entry| Die { inner: entry.clone() }))
}

/// `gimli::DebuggingInformationEntry::offset`: where the entry stands in
/// its unit.
#[verifier::external_body]
fn die_offset<'a>(die: &Die<'a>) -> (r: usize)
    ensures
        r == die_offset_of(*die),
{
    die.inner.offset().0
}

/// `gimli::DebuggingInformationEntry::depth`: the depth of the entry below
/// the entry at which the cursor began.
#[verifier::external_body]
fn die_depth<'a>(die: &Die<'a>) -> (r: isize)
    ensures
        r == die_depth_of(*die),
{
    die.inner.depth()
}

/// `gimli::DebuggingInformationEntry::tag`: the code of the entry's tag.
#[verifier::external_body]
fn die_tag<'a>(die: &Die<'a>) -> (r: u16)
    ensures
        r == die_tag_of(*die),
{
    die.inner.tag().0
}

/// `gimli::DebuggingInformationEntry::has_attr`: whether the entry has an
/// attribute with this code.
#[verifier::external_body]
fn die_has_attr<'a>(die: &Die<'a>, code: u16) -> (r: bool)
    ensures
        r == die_has(*die, code),
{
    die.inner.has_attr(gimli::DwAt(code))
}

/// `gimli::DebuggingInformationEntry::attr_value`, read as a reference into
/// the unit: `None` without such an attribute, `Some(None)` where its value
/// is no `UnitRef`, else the offset.
#[verifier::external_body]
fn die_unit_ref<'a>(die: &Die<'a>, code: u16) -> (r: Option<Option<usize>>)
    ensures
        r == die_reference(*die, code),
{
    match die.inner.attr_value(gimli::DwAt(code)) {
        None => None,
        Some(gimli::AttributeValue::UnitRef(offset)) => Some(Some(offset.0)),
        Some(_) => Some(None),
    }
}

/// `gimli::DebuggingInformationEntry::attr_value` and
/// `gimli::AttributeValue::string_value`: `None` without such an attribute,
/// `Some(None)` where its value is no string that stands in the entry or in
/// the `.debug_str` section, else the bytes of the string.
#[verifier::external_body]
fn die_string<'a>(
    die: &Die<'a>,
    code: u16,
    debug_str: &'a [u8],
    endian: gimli::RunTimeEndian,
) -> (r: Option<Option<Vec<u8>>>)
    ensures
        bytes_of(r) == die_text(*die, code, debug_str@, is_little(endian)),
{
    let strings = gimli::DebugStr::new(debug_str, endian);
    die.inner.attr_value(gimli::DwAt(code)).map(
        |value| value.string_value(&strings).map(|text| text.slice().to_vec()),
    )
}

/// The `Display` text of a `gimli::Error`.
#[verifier::external_body]
fn describe(error: &gimli::Error) -> String {
    format!("{}", error)
}

/// `String::from_utf8`: the text that the bytes encode, if they are UTF-8.
#[verifier::external_body]
fn text_of(bytes: Vec<u8>) -> (r: Option<String>)
    ensures
        r is Some <==> valid_utf8(bytes@),
        r matches Some(s) ==> s@ == decode_utf8(bytes@),
{
    String::from_utf8(bytes).ok()
}

/// The name attribute, from what was read of it: nothing, something that is
/// no string, or the bytes of a string. Bytes that are no UTF-8 cannot be
/// read as a name.
pub open spec fn name_of(raw: Option<Option<Seq<u8>>>) -> NameView {
    match raw {
        None => NameView::Absent,
        Some(None) => NameView::Unreadable,
        Some(Some(bytes)) => if valid_utf8(bytes) {
            NameView::Text(decode_utf8(bytes))
        } else {
            NameView::Unreadable
        },
    }
}

/// The type attribute, from what was read of it: nothing, something that is
/// no reference into the unit, or an offset.
pub open spec fn type_ref_of(raw: Option<Option<usize>>) -> TypeRef {
    match raw {
        None => TypeRef::Absent,
        Some(None) => TypeRef::Unsupported,
        Some(Some(offset)) => TypeRef::At(offset),
    }
}

/// Makes a name attribute of what was read of it.
pub fn get_name(raw: Option<Option<Vec<u8>>>) -> (name: Name)
    ensures
        name@ == name_of(bytes_of(raw)),
{
    match raw {
        None => Name::Absent,
        Some(None) => Name::Unreadable,
        Some(Some(bytes)) => match text_of(bytes) {
            Some(text) => Name::Text(text),
            None => Name::Unreadable,
        },
    }
}

/// Makes a type attribute of what was read of it.
pub fn get_type_offset(raw: Option<Option<usize>>) -> (r: TypeRef)
    ensures
        r == type_ref_of(raw),
{
    match raw {
        None => TypeRef::Absent,
        Some(None) => TypeRef::Unsupported,
        Some(Some(offset)) => TypeRef::At(offset),
    }
}

/// The entry that was read, as a plain value. An entry above the root, at a
/// negative depth, is none.
pub open spec fn entry_of(
    offset: usize,
    depth: isize,
    tag: u16,
    name: Option<Option<Seq<u8>>>,
    type_ref: Option<Option<usize>>,
    external: bool,
    prototyped: bool,
) -> Option<EntryView> {
    if depth < 0 {
        None
    } else {
        Some(
            EntryView {
                offset,
                depth: depth as usize,
                tag: Tag::of_code(tag),
                name: name_of(name),
                type_ref: type_ref_of(type_ref),
                external,
                prototyped,
            },
        )
    }
}

/// Makes an entry of what was read of it.
pub fn make_entry(
    offset: usize,
    depth: isize,
    tag: u16,
    name: Option<Option<Vec<u8>>>,
    type_ref: Option<Option<usize>>,
    external: bool,
    prototyped: bool,
) -> (r: Option<Entry>)
    ensures
        match r {
            Some(entry) => entry_of(
                offset,
                depth,
                tag,
                bytes_of(name),
                type_ref,
                external,
                prototyped,
            ) == Some(entry@),
            None => depth < 0,
        },
{
    if depth < 0 {
        return None;
    }
    Some(
        Entry {
            offset,
            depth: depth as usize,
            tag: Tag::from_code(tag),
            name: get_name(name),
            type_ref: get_type_offset(type_ref),
            external,
            prototyped,
        },
    )
}

/// The entry that is made of an entry as it was read, with its name from a
/// `.debug_str` section.
pub open spec fn entry_read(die: Die, debug_str: Seq<u8>, little_endian: bool) -> Option<EntryView> {
    entry_of(
        die_offset_of(die),
        die_depth_of(die),
        die_tag_of(die),
        die_text(die, AT_NAME, debug_str, little_endian),
        die_reference(die, AT_TYPE),
        die_has(die, AT_EXTERNAL),
        die_has(die, AT_PROTOTYPED),
    )
}

/// The entries that are made of the first `n` entries as they were read, or
/// nothing where one of them stands above the root.
pub open spec fn entries_read(dies: Seq<Die>, n: int, debug_str: Seq<u8>, little_endian: bool) -> Option<
    Seq<EntryView>,
>
    decreases n,
{
    if n <= 0 {
        Some(Seq::empty())
    } else {
        match entries_read(dies, n - 1, debug_str, little_endian) {
            None => None,
            Some(before) => match entry_read(dies[n - 1], debug_str, little_endian) {
                None => None,
                Some(entry) => Some(before.push(entry)),
            },
        }
    }
}

/// The entries of one unit: those that are made of the entries that the
/// unit holds. There are none to be had where the abbreviations cannot be
/// read, where a read of an entry fails, where an entry stands above the
/// root, or where the offsets of the entries do not ascend.
pub open spec fn unit_read(
    header: Header,
    debug_abbrev: Seq<u8>,
    debug_str: Seq<u8>,
    little_endian: bool,
) -> Option<Seq<EntryView>> {
    match unit_abbreviations(header, debug_abbrev, little_endian) {
        None => None,
        Some(table) => {
            let held = unit_entries(header, table);
            match entries_read(held.0, held.0.len() as int, debug_str, little_endian) {
                None => None,
                Some(es) => if !held.1 && offsets_ascend(es) {
                    Some(es)
                } else {
                    None
                },
            }
        },
    }
}

/// The entries of the first `n` units, or nothing where those of one of
/// them are not to be had.
pub open spec fn units_from(
    headers: Seq<Header>,
    n: int,
    debug_abbrev: Seq<u8>,
    debug_str: Seq<u8>,
    little_endian: bool,
) -> Option<Seq<Seq<EntryView>>>
    decreases n,
{
    if n <= 0 {
        Some(Seq::empty())
    } else {
        match units_from(headers, n - 1, debug_abbrev, debug_str, little_endian) {
            None => None,
            Some(before) => match unit_read(headers[n - 1], debug_abbrev, debug_str, little_endian) {
                None => None,
                Some(unit) => Some(before.push(unit)),
            },
        }
    }
}

/// The entries of every unit of a `.debug_info` section, in the order of the
/// section, or nothing where any read fails: there is no part of a section
/// to be had.
pub open spec fn units_read(
    debug_info: Seq<u8>,
    debug_abbrev: Seq<u8>,
    debug_str: Seq<u8>,
    little_endian: bool,
) -> Option<Seq<Seq<EntryView>>> {
    let held = section_headers(debug_info, little_endian);
    if held.1 {
        None
    } else {
        units_from(held.0, held.0.len() as int, debug_abbrev, debug_str, little_endian)
    }
}

/// Where the first entries are not to be had, none are.
pub proof fn lemma_entries_read_fail(
    dies: Seq<Die>,
    k: int,
    n: int,
    debug_str: Seq<u8>,
    little_endian: bool,
)
    requires
        0 <= k <= n,
        entries_read(dies, k, debug_str, little_endian) is None,
    ensures
        entries_read(dies, n, debug_str, little_endian) is None,
    decreases n - k,
{
    if k < n {
        lemma_entries_read_fail(dies, k, n - 1, debug_str, little_endian);
    }
}

/// Where the first units are not to be had, none are.
pub proof fn lemma_units_from_fail(
    headers: Seq<Header>,
    k: int,
    n: int,
    debug_abbrev: Seq<u8>,
    debug_str: Seq<u8>,
    little_endian: bool,
)
    requires
        0 <= k <= n,
        units_from(headers, k, debug_abbrev, debug_str, little_endian) is None,
    ensures
        units_from(headers, n, debug_abbrev, debug_str, little_endian) is None,
    decreases n - k,
{
    if k < n {
        lemma_units_from_fail(headers, k, n - 1, debug_abbrev, debug_str, little_endian);
    }
}

/// The units as plain values.
pub open spec fn unit_views(units: Seq<Unit>) -> Seq<Seq<EntryView>> {
    Seq::new(units.len(), |k: int| units[k]@)
}

/// Reads the attributes that signatures depend on from an entry, and makes
/// an entry of them. An entry above the root is none.
fn read_entry<'a>(die: &Die<'a>, debug_str: &'a [u8], endian: gimli::RunTimeEndian) -> (r: Option<
    Entry,
>)
    ensures
        match r {
            Some(entry) => entry_read(*die, debug_str@, is_little(endian)) == Some(entry@),
            None => entry_read(*die, debug_str@, is_little(endian)) is None,
        },
{
    make_entry(
        die_offset(die),
        die_depth(die),
        die_tag(die),
        die_string(die, AT_NAME, debug_str, endian),
        die_unit_ref(die, AT_TYPE),
        die_has_attr(die, AT_EXTERNAL),
        die_has_attr(die, AT_PROTOTYPED),
    )
}

/// The fault that stands for an error of a read.
fn malformed(error: &gimli::Error) -> (fault: Fault)
    ensures
        fault is Malformed,
{
    Fault::Malformed(describe(error))
}

/// Reads the entries of one unit. A read that fails fails the unit: no part
/// of it comes back.
fn read_unit<'a>(
    header: &Header<'a>,
    debug_abbrev: &'a [u8],
    debug_str: &'a [u8],
    endian: gimli::RunTimeEndian,
) -> (r: Result<Unit, Fault>)
    ensures
        match r {
            Ok(unit) => unit_read(*header, debug_abbrev@, debug_str@, is_little(endian)) == Some(
                unit@,
            ),
            Err(fault) => fault is Malformed && unit_read(
                *header,
                debug_abbrev@,
                debug_str@,
                is_little(endian),
            ) is None,
        },
{
    let ghost little = is_little(endian);
    let table = match abbreviations(header, debug_abbrev, endian) {
        Ok(table) => table,
        Err(e) => {
            return Err(malformed(&e));
        },
    };
    let mut cursor = entries(header, &table);
    let ghost held = cursor_left(cursor);
    let ghost mut k: int = 0;
    let mut list: Vec<Entry> = Vec::new();
    assert(held.0.skip(0) =~= held.0);
    assert(views(list@) =~= Seq::<EntryView>::empty());
    loop
        invariant
            little == is_little(endian),
            unit_abbreviations(*header, debug_abbrev@, little) == Some(table),
            held == unit_entries(*header, table),
            0 <= k <= held.0.len(),
            cursor_left(cursor) == (held.0.skip(k), held.1),
            entries_read(held.0, k, debug_str@, little) == Some(views(list@)),
        decreases held.0.len() - k,
    {
        match next_dfs(&mut cursor) {
            Err(e) => {
                return Err(malformed(&e));
            },
            Ok(None) => {
                assert(k == held.0.len());
                return match Unit::new(list) {
                    Some(unit) => Ok(unit),
                    None => Err(Fault::Malformed(String::from_str("entries out of order"))),
                };
            },
            Ok(Some(die)) => {
                assert(die == held.0[k]);
                match read_entry(&die, debug_str, endian) {
                    None => {
                        proof {
                            assert(entries_read(held.0, k + 1, debug_str@, little) is None);
                            lemma_entries_read_fail(
                                held.0,
                                k + 1,
                                held.0.len() as int,
                                debug_str@,
                                little,
                            );
                        }
                        return Err(Fault::Malformed(String::from_str("entry above the root")));
                    },
                    Some(entry) => {
                        let ghost before = views(list@);
                        list.push(entry);
                        proof {
                            assert(views(list@) =~= before.push(entry@));
                            assert(held.0.skip(k).drop_first() =~= held.0.skip(k + 1));
                            k = k + 1;
                        }
                    },
                }
            },
        }
    }
}

/// Reads the entries of every compilation unit of a `.debug_info` section,
/// in the order of the section. The abbreviations are read from
/// `debug_abbrev` and the names from `debug_str`; `little_endian` tells the
/// byte order of all three. What comes back is what `units_read` says of
/// the sections: a read that fails fails the whole, as malformed, and no
/// part of a section comes back. A section without bytes holds no unit.
pub fn read_units(
    debug_info: &[u8],
    debug_abbrev: &[u8],
    debug_str: &[u8],
    little_endian: bool,
) -> (r: Result<Vec<Unit>, Fault>)
    ensures
        match r {
            Ok(units) => units_read(debug_info@, debug_abbrev@, debug_str@, little_endian) == Some(
                unit_views(units@),
            ),
            Err(fault) => fault is Malformed && units_read(
                debug_info@,
                debug_abbrev@,
                debug_str@,
                little_endian,
            ) is None,
        },
        debug_info@.len() == 0 ==> (r matches Ok(units) && units@.len() == 0),
{
    let endian = endian_of(little_endian);
    let mut headers = unit_headers(debug_info, endian);
    let ghost held = headers_left(headers);
    let ghost mut k: int = 0;
    let mut units: Vec<Unit> = Vec::new();
    assert(held.0.skip(0) =~= held.0);
    assert(unit_views(units@) =~= Seq::<Seq<EntryView>>::empty());
    loop
        invariant
            is_little(endian) == little_endian,
            held == section_headers(debug_info@, little_endian),
            debug_info@.len() == 0 ==> held.0.len() == 0 && !held.1,
            units@.len() == k,
            0 <= k <= held.0.len(),
            headers_left(headers) == (held.0.skip(k), held.1),
            units_from(held.0, k, debug_abbrev@, debug_str@, little_endian) == Some(
                unit_views(units@),
            ),
        decreases held.0.len() - k,
    {
        match next_header(&mut headers) {
            Err(e) => {
                return Err(malformed(&e));
            },
            Ok(None) => {
                assert(k == held.0.len());
                return Ok(units);
            },
            Ok(Some(header)) => {
                assert(header == held.0[k]);
                match read_unit(&header, debug_abbrev, debug_str, endian) {
                    Ok(unit) => {
                        let ghost before = unit_views(units@);
                        units.push(unit);
                        proof {
                            assert(unit_views(units@) =~= before.push(unit@));
                            assert(held.0.skip(k).drop_first() =~= held.0.skip(k + 1));
                            k = k + 1;
                        }
                    },
                    Err(fault) => {
                        proof {
                            assert(units_from(
                                held.0,
                                k + 1,
                                debug_abbrev@,
                                debug_str@,
                                little_endian,
                            ) is None);
                            lemma_units_from_fail(
                                held.0,
                                k + 1,
                                held.0.len() as int,
                                debug_abbrev@,
                                debug_str@,
                                little_endian,
                            );
                        }
                        return Err(fault);
                    },
                }
            },
        }
    }
}

} // verus!
