//! The binary itself: its sections and its byte order.

use crate::fault::Fault;
use object::{Object, ObjectSection};
use vstd::prelude::*;

verus! {

/// `object::Error`, the error of reading a binary. Nothing is known of its
/// value.
#[verifier::external_type_specification]
#[verifier::external_body]
pub struct ExObjectError(object::Error);

/// A binary whose headers were read: an `object::File` over a byte slice.
#[verifier::external_body]
pub struct ObjectFile<'a> {
    inner: object::File<'a>,
}

/// What `object::File::parse` reads from these bytes: the file, or nothing
/// where they do not begin a binary of a format that it knows, with headers
/// that it can read.
pub uninterp spec fn file_of(data: Seq<u8>) -> Option<ObjectFile<'static>>;

/// What a file holds: for each name that `object::Object::section_by_name`
/// finds a section for, the contents of that section as
/// `object::ObjectSection::data` gives them. A section whose contents cannot
/// be had is not among them.
pub uninterp spec fn sections_of(file: ObjectFile) -> Map<Seq<char>, Seq<u8>>;

/// What `object::Object::is_little_endian` says of a file.
pub uninterp spec fn little_endian_of(file: ObjectFile) -> bool;

/// `object::File::parse`: the file that the bytes hold, or the error of
/// reading them. That is what `file_of` names for the bytes.
#[verifier::external_body]
fn parse_file<'a>(data: &'a [u8]) -> (r: Result<ObjectFile<'a>, object::Error>)
    ensures
        match r {
            Ok(file) => file_of(data@) == Some(file),
            Err(_) => file_of(data@) is None,
        },
{
    object::File::parse(data).map(|inner| ObjectFile { inner })
}

/// The `Display` text of an `object::Error`.
#[verifier::external_body]
fn describe(error: &object::Error) -> String {
    format!("{}", error)
}

/// `object::Object::section_by_name` and `object::ObjectSection::data`: the
/// contents of the first section of that name, `None` where the file has no
/// such section or its contents cannot be had. That is what `sections_of`
/// names for the file.
#[verifier::external_body]
fn section_data<'a>(file: &ObjectFile<'a>, name: &str) -> (r: Option<&'a [u8]>)
    ensures
        match r {
            Some(bytes) => sections_of(*file).contains_key(name@) && bytes@ == sections_of(
                *file,
            )[name@],
            None => !sections_of(*file).contains_key(name@),
        },
{
    file.inner.section_by_name(name).and_then(|section| section.data().ok())
}

/// `object::Object::is_little_endian`: what `little_endian_of` names for the
/// file.
#[verifier::external_body]
fn little_endian<'a>(file: &ObjectFile<'a>) -> (r: bool)
    ensures
        r == little_endian_of(*file),
{
    file.inner.is_little_endian()
}

impl<'a> ObjectFile<'a> {
    /// Reads the headers of a binary. Bytes that are no binary of a known
    /// format are malformed, and no other fault comes of reading.
    pub fn parse(data: &'a [u8]) -> (r: Result<ObjectFile<'a>, Fault>)
        ensures
            match r {
                Ok(file) => file_of(data@) == Some(file),
                Err(fault) => fault is Malformed && file_of(data@) is None,
            },
    {
        match parse_file(data) {
            Ok(file) => Ok(file),
            Err(e) => Err(Fault::Malformed(describe(&e))),
        }
    }

    /// The contents of the section of this name, if the binary has one.
    pub fn section(&self, name: &str) -> (r: Option<&'a [u8]>)
        ensures
            match r {
                Some(bytes) => sections_of(*self).contains_key(name@) && bytes@ == sections_of(
                    *self,
                )[name@],
                None => !sections_of(*self).contains_key(name@),
            },
    {
        section_data(self, name)
    }

    /// Whether the binary is in little-endian byte order.
    pub fn is_little_endian(&self) -> (r: bool)
        ensures
            r == little_endian_of(*self),
    {
        little_endian(self)
    }
}

} // verus!
