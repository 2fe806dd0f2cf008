use sigdump::fault::Fault;
use sigdump::tree::{Entry, Name, Tag, TypeRef, Unit};
use sigdump::types::{get_type_specifier, keep, resolve, specifier_text, Qualifier};

fn entry(offset: usize, depth: usize, tag: Tag, name: Option<&str>, type_ref: Option<usize>) -> Entry {
    Entry {
        offset,
        depth,
        tag,
        name: match name {
            Some(text) => Name::Text(text.to_string()),
            None => Name::Absent,
        },
        type_ref: match type_ref {
            Some(at) => TypeRef::At(at),
            None => TypeRef::Absent,
        },
        external: false,
        prototyped: false,
    }
}

fn unit(entries: Vec<Entry>) -> Unit {
    Unit::new(entries).expect("offsets ascend")
}

fn specifiers(unit: &Unit, holder: usize) -> Result<String, Fault> {
    let chain = resolve(unit, holder)?;
    let (qualifiers, _) = keep(&chain.steps);
    Ok(specifier_text(&chain.base, &qualifiers))
}

#[test]
fn tags_are_read_by_their_codes() {
    assert_eq!(Tag::from_code(gimli::DW_TAG_subprogram.0), Tag::Subprogram);
    assert_eq!(Tag::from_code(gimli::DW_TAG_formal_parameter.0), Tag::FormalParameter);
    assert_eq!(Tag::from_code(gimli::DW_TAG_pointer_type.0), Tag::PointerType);
    assert_eq!(Tag::from_code(gimli::DW_TAG_reference_type.0), Tag::ReferenceType);
    assert_eq!(Tag::from_code(gimli::DW_TAG_const_type.0), Tag::ConstType);
    assert_eq!(Tag::from_code(gimli::DW_TAG_volatile_type.0), Tag::VolatileType);
    assert_eq!(Tag::from_code(gimli::DW_TAG_restrict_type.0), Tag::RestrictType);
    assert_eq!(Tag::from_code(gimli::DW_TAG_subroutine_type.0), Tag::SubroutineType);
    assert_eq!(Tag::from_code(gimli::DW_TAG_base_type.0), Tag::Other(0x24));
    for code in [0u16, 0x05, 0x0f, 0x10, 0x15, 0x24, 0x26, 0x2e, 0x35, 0x37, 0xffff] {
        assert_eq!(Tag::from_code(code).code(), code);
    }
}

#[test]
fn qualifiers_are_read_from_tags() {
    assert_eq!(get_type_specifier(Tag::PointerType), Ok(Qualifier::Pointer));
    assert_eq!(get_type_specifier(Tag::ReferenceType), Ok(Qualifier::Reference));
    assert_eq!(get_type_specifier(Tag::SubroutineType), Ok(Qualifier::Subroutine));
    assert_eq!(get_type_specifier(Tag::ConstType), Ok(Qualifier::Const));
    assert_eq!(get_type_specifier(Tag::VolatileType), Ok(Qualifier::Volatile));
    assert_eq!(get_type_specifier(Tag::RestrictType), Ok(Qualifier::Restrict));
    assert_eq!(get_type_specifier(Tag::Other(0x13)), Err(Fault::UnknownTag(0x13)));
    assert_eq!(get_type_specifier(Tag::Subprogram), Err(Fault::UnknownTag(0x2e)));
    assert_eq!(get_type_specifier(Tag::FormalParameter), Err(Fault::UnknownTag(0x05)));
}

#[test]
fn qualifier_texts() {
    assert_eq!(Qualifier::Pointer.as_str(), "*");
    assert_eq!(Qualifier::Reference.as_str(), "&");
    assert_eq!(Qualifier::Const.as_str(), " const");
    assert_eq!(Qualifier::Volatile.as_str(), " volatile");
    assert_eq!(Qualifier::Restrict.as_str(), " restrict");
    assert_eq!(Qualifier::Subroutine.as_str(), "");
}

#[test]
fn absent_type_is_void() {
    let u = unit(vec![entry(11, 0, Tag::FormalParameter, Some("p"), None)]);
    let chain = resolve(&u, 0).unwrap();
    assert_eq!(chain.base, "void");
    assert!(chain.steps.is_empty());
    assert_eq!(specifiers(&u, 0), Ok("void".to_string()));
}

#[test]
fn chain_that_ends_without_a_type_ends_in_void() {
    let u = unit(vec![
        entry(11, 0, Tag::FormalParameter, None, Some(20)),
        entry(20, 0, Tag::PointerType, None, Some(30)),
        entry(30, 0, Tag::ConstType, None, None),
    ]);
    let chain = resolve(&u, 0).unwrap();
    assert_eq!(chain.base, "void");
    assert_eq!(chain.steps, vec![(Qualifier::Pointer, 1), (Qualifier::Const, 2)]);
    assert_eq!(specifiers(&u, 0), Ok("void* const".to_string()));
}

#[test]
fn named_type_ends_the_chain() {
    let u = unit(vec![
        entry(11, 0, Tag::FormalParameter, Some("x"), Some(20)),
        entry(20, 0, Tag::Other(0x24), Some("int"), None),
    ]);
    let chain = resolve(&u, 0).unwrap();
    assert_eq!(chain.base, "int");
    assert!(chain.steps.is_empty());
    // a name ends the chain whatever the tag and the type of its entry
    let v = unit(vec![
        entry(11, 0, Tag::FormalParameter, None, Some(20)),
        entry(20, 0, Tag::Other(0x16), Some("size_t"), Some(30)),
        entry(30, 0, Tag::Other(0x24), Some("unsigned long"), None),
    ]);
    assert_eq!(specifiers(&v, 0), Ok("size_t".to_string()));
}

#[test]
fn qualifiers_follow_the_order_of_the_chain() {
    let u = unit(vec![
        entry(11, 0, Tag::FormalParameter, None, Some(20)),
        entry(20, 0, Tag::PointerType, None, Some(30)),
        entry(30, 0, Tag::ConstType, None, Some(40)),
        entry(40, 0, Tag::PointerType, None, Some(50)),
        entry(50, 0, Tag::VolatileType, None, Some(60)),
        entry(60, 0, Tag::RestrictType, None, Some(70)),
        entry(70, 0, Tag::ReferenceType, None, Some(80)),
        entry(80, 0, Tag::Other(0x24), Some("char"), None),
    ]);
    let chain = resolve(&u, 0).unwrap();
    assert_eq!(
        chain.steps,
        vec![
            (Qualifier::Pointer, 1),
            (Qualifier::Const, 2),
            (Qualifier::Pointer, 3),
            (Qualifier::Volatile, 4),
            (Qualifier::Restrict, 5),
            (Qualifier::Reference, 6),
        ]
    );
    assert_eq!(specifiers(&u, 0), Ok("char* const* volatile restrict&".to_string()));
    // the same chain read again gives the same text
    assert_eq!(specifiers(&u, 0), specifiers(&u, 0));
}

#[test]
fn type_references_may_point_backwards() {
    let u = unit(vec![
        entry(11, 0, Tag::Other(0x24), Some("int"), None),
        entry(20, 0, Tag::PointerType, None, Some(11)),
        entry(30, 0, Tag::FormalParameter, Some("p"), Some(20)),
    ]);
    assert_eq!(specifiers(&u, 2), Ok("int*".to_string()));
}

#[test]
fn function_type_takes_the_place_of_its_pointer() {
    let steps = vec![(Qualifier::Pointer, 3), (Qualifier::Subroutine, 4), (Qualifier::Pointer, 5)];
    assert_eq!(keep(&steps), (vec![Qualifier::Subroutine, Qualifier::Pointer], Some(4)));
    let bare = vec![(Qualifier::Subroutine, 7)];
    assert_eq!(keep(&bare), (vec![Qualifier::Subroutine], Some(7)));
    let two = vec![(Qualifier::Pointer, 1), (Qualifier::Subroutine, 2), (Qualifier::Pointer, 3), (Qualifier::Subroutine, 4)];
    assert_eq!(keep(&two), (vec![Qualifier::Subroutine, Qualifier::Subroutine], Some(4)));
    let inner = vec![(Qualifier::Const, 1), (Qualifier::Pointer, 2), (Qualifier::Subroutine, 3)];
    assert_eq!(keep(&inner), (vec![Qualifier::Const, Qualifier::Subroutine], Some(3)));
    let plain = vec![(Qualifier::Const, 1), (Qualifier::Pointer, 2)];
    assert_eq!(keep(&plain), (vec![Qualifier::Const, Qualifier::Pointer], None));
    assert_eq!(keep(&vec![]), (vec![], None));
}

#[test]
fn specifier_text_appends_each_qualifier() {
    let base = "int".to_string();
    assert_eq!(specifier_text(&base, &vec![]), "int");
    assert_eq!(specifier_text(&base, &vec![Qualifier::Pointer, Qualifier::Const]), "int* const");
    assert_eq!(specifier_text(&base, &vec![Qualifier::Subroutine, Qualifier::Pointer]), "int*");
    assert_eq!(specifier_text(&base, &vec![Qualifier::Volatile, Qualifier::Reference, Qualifier::Restrict]), "int volatile& restrict");
}

#[test]
fn unknown_tag_in_a_chain_is_a_fault() {
    let u = unit(vec![
        entry(11, 0, Tag::FormalParameter, None, Some(20)),
        entry(20, 0, Tag::PointerType, None, Some(30)),
        entry(30, 0, Tag::Other(0x13), None, Some(40)),
        entry(40, 0, Tag::Other(0x24), Some("int"), None),
    ]);
    assert_eq!(resolve(&u, 0).err(), Some(Fault::UnknownTag(0x13)));
}

#[test]
fn reference_to_no_entry_is_a_fault() {
    let u = unit(vec![
        entry(11, 0, Tag::FormalParameter, None, Some(20)),
        entry(20, 0, Tag::PointerType, None, Some(31)),
        entry(30, 0, Tag::Other(0x24), Some("int"), None),
    ]);
    assert_eq!(resolve(&u, 0).err(), Some(Fault::DanglingReference(31)));
}

#[test]
fn chain_in_a_circle_is_a_fault() {
    let u = unit(vec![
        entry(11, 0, Tag::FormalParameter, None, Some(20)),
        entry(20, 0, Tag::PointerType, None, Some(30)),
        entry(30, 0, Tag::ConstType, None, Some(20)),
    ]);
    assert_eq!(resolve(&u, 0).err(), Some(Fault::EndlessType));
    let own = unit(vec![entry(11, 0, Tag::PointerType, None, Some(11))]);
    assert_eq!(resolve(&own, 0).err(), Some(Fault::EndlessType));
}

#[test]
fn longest_chain_of_a_unit_is_resolved() {
    let mut entries = vec![entry(0, 0, Tag::FormalParameter, None, Some(1))];
    for k in 1..50 {
        entries.push(entry(k, 0, Tag::PointerType, None, Some(k + 1)));
    }
    entries.push(entry(50, 0, Tag::PointerType, None, None));
    let u = unit(entries);
    let chain = resolve(&u, 0).unwrap();
    assert_eq!(chain.steps.len(), 50);
    assert_eq!(specifiers(&u, 0), Ok(format!("void{}", "*".repeat(50))));
}

#[test]
fn unsupported_reference_and_unreadable_name_are_faults() {
    let mut holder = entry(11, 0, Tag::FormalParameter, None, None);
    holder.type_ref = TypeRef::Unsupported;
    let u = unit(vec![holder]);
    assert_eq!(resolve(&u, 0).err(), Some(Fault::UnsupportedReference(11)));
    let mut pointer = entry(20, 0, Tag::PointerType, None, None);
    pointer.type_ref = TypeRef::Unsupported;
    let v = unit(vec![entry(11, 0, Tag::FormalParameter, None, Some(20)), pointer]);
    assert_eq!(resolve(&v, 0).err(), Some(Fault::UnsupportedReference(20)));
    let mut named = entry(20, 0, Tag::Other(0x24), None, None);
    named.name = Name::Unreadable;
    let w = unit(vec![entry(11, 0, Tag::FormalParameter, None, Some(20)), named]);
    assert_eq!(resolve(&w, 0).err(), Some(Fault::UnreadableName(20)));
}

#[test]
fn unit_wants_ascending_offsets() {
    assert!(Unit::new(vec![]).is_some());
    assert!(Unit::new(vec![entry(5, 0, Tag::Subprogram, None, None)]).is_some());
    assert!(Unit::new(vec![entry(5, 0, Tag::Subprogram, None, None), entry(5, 1, Tag::FormalParameter, None, None)]).is_none());
    assert!(Unit::new(vec![entry(9, 0, Tag::Subprogram, None, None), entry(5, 1, Tag::FormalParameter, None, None)]).is_none());
    let u = unit(vec![
        entry(11, 0, Tag::Subprogram, None, None),
        entry(20, 1, Tag::FormalParameter, None, None),
        entry(35, 1, Tag::FormalParameter, None, None),
    ]);
    assert_eq!(u.len(), 3);
    assert_eq!(u.find(11), Some(0));
    assert_eq!(u.find(20), Some(1));
    assert_eq!(u.find(35), Some(2));
    assert_eq!(u.find(0), None);
    assert_eq!(u.find(21), None);
    assert_eq!(u.find(36), None);
    assert_eq!(u.entry(1).offset, 20);
}
