//! The walk over the debugging information of a binary: which entries are
//! exported functions, and the table of their signatures.

use crate::container::{little_endian_of, sections_of, ObjectFile};
use crate::fault::Fault;
use crate::reader::{read_units, unit_views, units_read};
use crate::signature::{dump_subprogram, signature};
use crate::table::Table;
use crate::tree::{EntryView, Tag, Unit};
use vstd::prelude::*;

verus! {

/// A table of signatures as a plain value: from the name that a function is
/// declared with to its signature.
pub type Signatures = Map<Seq<char>, Seq<char>>;

/// The entry is a function that is visible outside its unit and declared
/// with a prototype. Only the presence of the two attributes counts.
pub open spec fn is_exported_function(e: EntryView) -> bool {
    e.tag == Tag::Subprogram && e.external && e.prototyped
}

/// `start` with the signatures of the exported functions among the first `n`
/// entries of a unit put into it, in the order of the unit: of two functions
/// with one name the later stays. The first function whose signature cannot
/// be built decides the error.
pub open spec fn unit_signatures(es: Seq<EntryView>, n: int, start: Signatures) -> Result<
    Signatures,
    Fault,
>
    decreases n,
{
    if n <= 0 {
        Ok(start)
    } else {
        match unit_signatures(es, n - 1, start) {
            Err(e) => Err(e),
            Ok(found) => if is_exported_function(es[n - 1]) {
                match signature(es, n - 1) {
                    Err(e) => Err(e),
                    Ok((name, text)) => Ok(found.insert(name, text)),
                }
            } else {
                Ok(found)
            },
        }
    }
}

/// The signatures of the exported functions of the first `n` units, later
/// units over earlier ones.
pub open spec fn file_signatures(units: Seq<Seq<EntryView>>, n: int) -> Result<Signatures, Fault>
    decreases n,
{
    if n <= 0 {
        Ok(Map::empty())
    } else {
        match file_signatures(units, n - 1) {
            Err(e) => Err(e),
            Ok(found) => unit_signatures(units[n - 1], units[n - 1].len() as int, found),
        }
    }
}

/// An error among the first entries of a unit is the error of the unit.
pub proof fn lemma_unit_signatures_fail(es: Seq<EntryView>, k: int, n: int, start: Signatures)
    requires
        0 <= k <= n,
        unit_signatures(es, k, start) is Err,
    ensures
        unit_signatures(es, n, start) == unit_signatures(es, k, start),
    decreases n - k,
{
    if k < n {
        lemma_unit_signatures_fail(es, k, n - 1, start);
    }
}

/// An error among the first units is the error of the file.
pub proof fn lemma_file_signatures_fail(units: Seq<Seq<EntryView>>, k: int, n: int)
    requires
        0 <= k <= n,
        file_signatures(units, k) is Err,
    ensures
        file_signatures(units, n) == file_signatures(units, k),
    decreases n - k,
{
    if k < n {
        lemma_file_signatures_fail(units, k, n - 1);
    }
}

/// Of the exported functions of a unit that are declared with one name, the
/// last gives the table its signature.
pub proof fn lemma_last_function_stays(es: Seq<EntryView>, n: int, start: Signatures, k: int)
    requires
        0 <= k < n <= es.len(),
        unit_signatures(es, n, start) is Ok,
        is_exported_function(es[k]),
        forall|j: int|
            k < j < n && is_exported_function(es[j]) ==> (#[trigger] signature(es, j))->Ok_0.0
                != signature(es, k)->Ok_0.0,
    ensures
        signature(es, k) is Ok,
        unit_signatures(es, n, start)->Ok_0.contains_key(signature(es, k)->Ok_0.0),
        unit_signatures(es, n, start)->Ok_0[signature(es, k)->Ok_0.0] == signature(es, k)->Ok_0.1,
    decreases n - k,
{
    if k < n - 1 {
        lemma_last_function_stays(es, n - 1, start, k);
    }
}

/// Puts the signatures of the exported functions of a unit into `symbols`.
pub fn dump_unit(unit: &Unit, symbols: Table) -> (r: Result<Table, Fault>)
    ensures
        match r {
            Ok(found) => unit_signatures(unit@, unit@.len() as int, symbols@) == Ok::<
                Signatures,
                Fault,
            >(found@),
            Err(e) => unit_signatures(unit@, unit@.len() as int, symbols@) == Err::<
                Signatures,
                Fault,
            >(e),
        },
{
    let ghost es = unit@;
    let ghost start = symbols@;
    let n = unit.len();
    let mut found = symbols;
    let mut i: usize = 0;
    while i < n
        invariant
            es == unit@,
            start == symbols@,
            n == es.len(),
            i <= n,
            unit_signatures(es, i as int, start) == Ok::<Signatures, Fault>(found@),
        decreases n - i,
    {
        let entry = unit.entry(i);
        if entry.tag == Tag::Subprogram && entry.external && entry.prototyped {
            match dump_subprogram(unit, i) {
                Ok(s) => {
                    found.insert(s.name, s.text);
                },
                Err(e) => {
                    proof {
                        assert(unit_signatures(es, i + 1, start) == Err::<Signatures, Fault>(e));
                        lemma_unit_signatures_fail(es, i + 1, n as int, start);
                    }
                    return Err(e);
                },
            }
        }
        i = i + 1;
    }
    Ok(found)
}

/// The table of the signatures of all exported functions of the units.
pub fn dump_units(units: &Vec<Unit>) -> (r: Result<Table, Fault>)
    ensures
        match r {
            Ok(found) => file_signatures(unit_views(units@), units@.len() as int) == Ok::<
                Signatures,
                Fault,
            >(found@),
            Err(e) => file_signatures(unit_views(units@), units@.len() as int) == Err::<
                Signatures,
                Fault,
            >(e),
        },
{
    let ghost all = unit_views(units@);
    let mut found = Table::new();
    let mut k: usize = 0;
    while k < units.len()
        invariant
            all == unit_views(units@),
            k <= units.len(),
            file_signatures(all, k as int) == Ok::<Signatures, Fault>(found@),
        decreases units.len() - k,
    {
        match dump_unit(&units[k], found) {
            Ok(next) => {
                found = next;
            },
            Err(e) => {
                proof {
                    assert(file_signatures(all, k + 1) == Err::<Signatures, Fault>(e));
                    lemma_file_signatures_fail(all, k + 1, units@.len() as int);
                }
                return Err(e);
            },
        }
        k = k + 1;
    }
    Ok(found)
}

/// What the debug sections of a binary give: the table of the signatures of
/// the units that are read from them, or the first fault among their
/// functions. Where the sections cannot be read there is neither.
pub open spec fn sections_signatures(
    debug_info: Seq<u8>,
    debug_abbrev: Seq<u8>,
    debug_str: Seq<u8>,
    little_endian: bool,
) -> Option<Result<Signatures, Fault>> {
    match units_read(debug_info, debug_abbrev, debug_str, little_endian) {
        None => None,
        Some(units) => Some(file_signatures(units, units.len() as int)),
    }
}

/// `r` is the table, or the fault, that `given` asks for; where the sections
/// cannot be read it is a fault that says they are malformed.
pub open spec fn is_dump_of(r: Result<Table, Fault>, given: Option<Result<Signatures, Fault>>) -> bool {
    match given {
        None => r matches Err(fault) && fault is Malformed,
        Some(Ok(found)) => r matches Ok(table) && table@ == found,
        Some(Err(fault)) => r == Err::<Table, Fault>(fault),
    }
}

/// The contents of the section of a binary by its name, empty where the
/// binary has no such section.
pub open spec fn section_or_empty(file: ObjectFile, name: Seq<char>) -> Seq<u8> {
    if sections_of(file).contains_key(name) {
        sections_of(file)[name]
    } else {
        Seq::empty()
    }
}

/// The table of the signatures of all exported functions that the debug
/// sections of a binary describe.
///
/// The units are read from `debug_info` with the abbreviations of
/// `debug_abbrev` and the names of `debug_str`; a section that the binary
/// lacks is given as empty. A read that fails fails the whole, as malformed;
/// else the result is the table of the units that were read, or the fault of
/// the first function whose signature cannot be built.
pub fn dump_sections(
    debug_info: &[u8],
    debug_abbrev: &[u8],
    debug_str: &[u8],
    little_endian: bool,
) -> (r: Result<Table, Fault>)
    ensures
        is_dump_of(r, sections_signatures(debug_info@, debug_abbrev@, debug_str@, little_endian)),
        debug_info@.len() == 0 ==> (r matches Ok(table) && table@ == Map::<
            Seq<char>,
            Seq<char>,
        >::empty()),
{
    let units = match read_units(debug_info, debug_abbrev, debug_str, little_endian) {
        Ok(units) => units,
        Err(fault) => {
            return Err(fault);
        },
    };
    assert(unit_views(units@).len() == units@.len());
    dump_units(&units)
}

/// The table of the signatures of all exported functions of a binary, from
/// its sections `.debug_info`, `.debug_abbrev` and `.debug_str` and in its
/// byte order. A binary without debugging information has none.
pub fn dump_file(file: &ObjectFile) -> (r: Result<Table, Fault>)
    ensures
        is_dump_of(
            r,
            sections_signatures(
                section_or_empty(*file, ".debug_info"@),
                section_or_empty(*file, ".debug_abbrev"@),
                section_or_empty(*file, ".debug_str"@),
                little_endian_of(*file),
            ),
        ),
        !sections_of(*file).contains_key(".debug_info"@) ==> (r matches Ok(table) && table@
            == Map::<Seq<char>, Seq<char>>::empty()),
{
    let nothing: Vec<u8> = Vec::new();
    let debug_info = match file.section(".debug_info") {
        Some(bytes) => bytes,
        None => nothing.as_slice(),
    };
    let debug_abbrev = match file.section(".debug_abbrev") {
        Some(bytes) => bytes,
        None => nothing.as_slice(),
    };
    let debug_str = match file.section(".debug_str") {
        Some(bytes) => bytes,
        None => nothing.as_slice(),
    };
    dump_sections(debug_info, debug_abbrev, debug_str, file.is_little_endian())
}

} // verus!
