use sigdump::fault::Fault;
use sigdump::signature::{dump_parameters, dump_subprogram, get_parameter, join_items, parameters, Signature};
use sigdump::tree::{Entry, Name, Tag, TypeRef, Unit};

const BASE: Tag = Tag::Other(0x24);
const BLOCK: Tag = Tag::Other(0x0b);
const VARIABLE: Tag = Tag::Other(0x34);

fn node(offset: usize, depth: usize, tag: Tag, name: Option<&str>, type_ref: Option<usize>) -> Entry {
    Entry {
        offset,
        depth,
        tag,
        name: match name {
            Some(text) => Name::Text(text.to_string()),
            None => Name::Absent,
        },
        type_ref: match type_ref {
            Some(at) => TypeRef::At(at),
            None => TypeRef::Absent,
        },
        external: false,
        prototyped: false,
    }
}

fn function(offset: usize, depth: usize, name: Option<&str>, type_ref: Option<usize>) -> Entry {
    let mut entry = node(offset, depth, Tag::Subprogram, name, type_ref);
    entry.external = true;
    entry.prototyped = true;
    entry
}

fn unit(entries: Vec<Entry>) -> Unit {
    Unit::new(entries).expect("offsets ascend")
}

/// `int add(int a, int b)` below a unit root, with `int` at offset 100.
fn add_unit() -> Unit {
    unit(vec![
        node(11, 0, Tag::Other(0x11), Some("add.c"), None),
        function(20, 1, Some("add"), Some(100)),
        node(30, 2, Tag::FormalParameter, Some("a"), Some(100)),
        node(40, 2, Tag::FormalParameter, Some("b"), Some(100)),
        node(100, 1, BASE, Some("int"), None),
    ])
}

/// `void take(<pointer to function from int to void> cb)`, the parameter
/// named or not.
fn callback_unit(name: Option<&str>) -> Unit {
    unit(vec![
        node(11, 0, Tag::Other(0x11), Some("cb.c"), None),
        function(20, 1, Some("take"), None),
        node(30, 2, Tag::FormalParameter, name, Some(60)),
        node(60, 1, Tag::PointerType, None, Some(70)),
        node(70, 1, Tag::SubroutineType, None, None),
        node(80, 2, Tag::FormalParameter, None, Some(100)),
        node(100, 1, BASE, Some("int"), None),
    ])
}

#[test]
fn function_without_parameters_has_an_empty_list() {
    let u = unit(vec![function(11, 0, Some("f"), None)]);
    assert_eq!(dump_parameters(&u, 0, u.len()), Ok("()".to_string()));
    assert_eq!(parameters(&u, 0), Vec::<usize>::new());
    assert_eq!(
        dump_subprogram(&u, 0),
        Ok(Signature { name: "f".to_string(), text: "void f()".to_string() })
    );
}

#[test]
fn children_that_are_no_parameters_are_passed_over() {
    let u = unit(vec![
        node(11, 0, Tag::Other(0x11), None, None),
        function(20, 1, Some("f"), Some(100)),
        node(30, 2, VARIABLE, Some("local"), Some(100)),
        node(40, 2, BLOCK, None, None),
        node(50, 3, Tag::FormalParameter, Some("inner"), Some(100)),
        node(60, 3, VARIABLE, Some("deep"), Some(100)),
        node(100, 1, BASE, Some("int"), None),
        node(110, 2, Tag::FormalParameter, Some("stray"), Some(100)),
    ]);
    assert_eq!(parameters(&u, 1), Vec::<usize>::new());
    assert_eq!(dump_parameters(&u, 1, u.len()), Ok("()".to_string()));
    assert_eq!(dump_subprogram(&u, 1).unwrap().text, "int f()");
}

#[test]
fn only_direct_children_are_parameters() {
    let u = unit(vec![
        node(11, 0, Tag::Other(0x11), None, None),
        function(20, 1, Some("f"), None),
        node(30, 2, Tag::FormalParameter, Some("a"), Some(100)),
        node(40, 2, BLOCK, None, None),
        node(50, 3, Tag::FormalParameter, Some("hidden"), Some(100)),
        node(60, 2, Tag::FormalParameter, Some("b"), Some(100)),
        function(70, 1, Some("g"), None),
        node(80, 2, Tag::FormalParameter, Some("c"), Some(100)),
        node(100, 1, BASE, Some("int"), None),
    ]);
    assert_eq!(parameters(&u, 1), vec![2, 5]);
    assert_eq!(parameters(&u, 6), vec![7]);
    assert_eq!(parameters(&u, 0), Vec::<usize>::new());
    assert_eq!(parameters(&u, 8), Vec::<usize>::new());
    assert_eq!(dump_parameters(&u, 1, u.len()), Ok("(int a, int b)".to_string()));
    assert_eq!(dump_parameters(&u, 6, u.len()), Ok("(int c)".to_string()));
}

#[test]
fn add_has_two_int_parameters() {
    let u = add_unit();
    assert_eq!(get_parameter(&u, 1, u.len()), Ok("int add".to_string()));
    assert_eq!(get_parameter(&u, 2, u.len()), Ok("int a".to_string()));
    assert_eq!(dump_parameters(&u, 1, u.len()), Ok("(int a, int b)".to_string()));
    assert_eq!(
        dump_subprogram(&u, 1),
        Ok(Signature { name: "add".to_string(), text: "int add(int a, int b)".to_string() })
    );
}

#[test]
fn unnamed_parameter_is_its_type_alone() {
    let u = unit(vec![
        function(11, 0, Some("f"), None),
        node(20, 1, Tag::FormalParameter, None, Some(100)),
        node(30, 1, Tag::FormalParameter, None, Some(90)),
        node(40, 1, Tag::FormalParameter, None, None),
        node(90, 0, Tag::PointerType, None, Some(95)),
        node(95, 0, Tag::ConstType, None, Some(100)),
        node(100, 0, BASE, Some("char"), None),
    ]);
    assert_eq!(get_parameter(&u, 1, u.len()), Ok("char".to_string()));
    assert_eq!(get_parameter(&u, 2, u.len()), Ok("char* const".to_string()));
    assert_eq!(get_parameter(&u, 3, u.len()), Ok("void".to_string()));
    assert_eq!(dump_subprogram(&u, 0).unwrap().text, "void f(char, char* const, void)");
}

#[test]
fn function_pointer_parameter_without_a_name() {
    let u = callback_unit(None);
    assert_eq!(get_parameter(&u, 2, u.len()), Ok("void (*)(int)".to_string()));
    assert_eq!(dump_subprogram(&u, 1).unwrap().text, "void take(void (*)(int))");
}

#[test]
fn function_pointer_parameter_with_a_name() {
    let u = callback_unit(Some("cb"));
    assert_eq!(get_parameter(&u, 2, u.len()), Ok("void (*cb)(int)".to_string()));
    assert_eq!(dump_subprogram(&u, 1).unwrap().text, "void take(void (*cb)(int))");
}

#[test]
fn function_pointer_behind_a_qualifier() {
    // a constant pointer to a function from int to void
    let u = unit(vec![
        node(11, 0, BASE, Some("int"), None),
        node(20, 0, Tag::SubroutineType, None, None),
        node(30, 1, Tag::FormalParameter, None, Some(11)),
        node(40, 0, Tag::PointerType, None, Some(20)),
        node(50, 0, Tag::ConstType, None, Some(40)),
        node(60, 0, Tag::FormalParameter, Some("cb"), Some(50)),
        node(70, 0, Tag::FormalParameter, None, Some(50)),
    ]);
    assert_eq!(get_parameter(&u, 5, u.len()), Ok("void const (*cb)(int)".to_string()));
    assert_eq!(get_parameter(&u, 6, u.len()), Ok("void const (*)(int)".to_string()));
}

#[test]
fn function_pointer_to_a_function_with_a_qualified_result() {
    // pointer to a function from char to pointer to constant int
    let u = unit(vec![
        node(11, 0, BASE, Some("int"), None),
        node(15, 0, BASE, Some("char"), None),
        node(20, 0, Tag::ConstType, None, Some(11)),
        node(25, 0, Tag::PointerType, None, Some(20)),
        node(30, 0, Tag::SubroutineType, None, Some(25)),
        node(35, 1, Tag::FormalParameter, Some("c"), Some(15)),
        node(40, 0, Tag::PointerType, None, Some(30)),
        node(50, 0, Tag::FormalParameter, Some("pick"), Some(40)),
    ]);
    assert_eq!(get_parameter(&u, 7, u.len()), Ok("int* const (*pick)(char c)".to_string()));
}

#[test]
fn function_pointer_with_result_and_nested_function_pointer() {
    // char *(*handler)(int n, void (*done)(void))
    let u = unit(vec![
        function(11, 0, Some("install"), Some(100)),
        node(20, 1, Tag::FormalParameter, Some("handler"), Some(30)),
        node(30, 0, Tag::PointerType, None, Some(40)),
        node(40, 0, Tag::SubroutineType, None, Some(80)),
        node(50, 1, Tag::FormalParameter, Some("n"), Some(100)),
        node(55, 1, Tag::FormalParameter, Some("done"), Some(60)),
        node(60, 0, Tag::PointerType, None, Some(70)),
        node(70, 0, Tag::SubroutineType, None, None),
        node(80, 0, Tag::PointerType, None, Some(90)),
        node(90, 0, BASE, Some("char"), None),
        node(100, 0, BASE, Some("int"), None),
    ]);
    assert_eq!(get_parameter(&u, 5, u.len()), Ok("void (*done)()".to_string()));
    assert_eq!(
        get_parameter(&u, 1, u.len()),
        Ok("char* (*handler)(int n, void (*done)())".to_string())
    );
    assert_eq!(
        dump_subprogram(&u, 0).unwrap().text,
        "int install(char* (*handler)(int n, void (*done)()))"
    );
}

#[test]
fn function_that_returns_a_function_pointer() {
    let u = unit(vec![
        function(11, 0, Some("signal"), Some(30)),
        node(20, 1, Tag::FormalParameter, Some("sig"), Some(100)),
        node(30, 0, Tag::PointerType, None, Some(40)),
        node(40, 0, Tag::SubroutineType, None, None),
        node(50, 1, Tag::FormalParameter, None, Some(100)),
        node(100, 0, BASE, Some("int"), None),
    ]);
    assert_eq!(dump_subprogram(&u, 0).unwrap().text, "void (*signal)(int)(int sig)");
}

#[test]
fn function_without_a_name_is_a_fault() {
    let u = unit(vec![function(11, 0, None, None)]);
    assert_eq!(dump_subprogram(&u, 0), Err(Fault::MissingName(11)));
    let mut unreadable = function(11, 0, None, None);
    unreadable.name = Name::Unreadable;
    let v = unit(vec![unreadable]);
    assert_eq!(dump_subprogram(&v, 0), Err(Fault::UnreadableName(11)));
    assert_eq!(get_parameter(&v, 0, 1), Err(Fault::UnreadableName(11)));
}

#[test]
fn first_parameter_that_fails_decides_the_fault() {
    let u = unit(vec![
        function(11, 0, Some("f"), None),
        node(20, 1, Tag::FormalParameter, Some("a"), Some(100)),
        node(30, 1, Tag::FormalParameter, Some("b"), Some(77)),
        node(40, 1, Tag::FormalParameter, Some("c"), Some(90)),
        node(90, 0, Tag::Other(0x13), None, None),
        node(100, 0, BASE, Some("int"), None),
    ]);
    assert_eq!(dump_parameters(&u, 0, u.len()), Err(Fault::DanglingReference(77)));
    assert_eq!(dump_subprogram(&u, 0), Err(Fault::DanglingReference(77)));
    assert_eq!(get_parameter(&u, 3, u.len()), Err(Fault::UnknownTag(0x13)));
}

#[test]
fn function_pointers_nested_in_a_circle_are_a_fault() {
    // a function type whose parameter is a pointer to that function type
    let u = unit(vec![
        function(11, 0, Some("f"), None),
        node(20, 1, Tag::FormalParameter, Some("p"), Some(30)),
        node(30, 0, Tag::PointerType, None, Some(40)),
        node(40, 0, Tag::SubroutineType, None, None),
        node(50, 1, Tag::FormalParameter, None, Some(30)),
    ]);
    assert_eq!(dump_subprogram(&u, 0), Err(Fault::EndlessType));
    assert_eq!(get_parameter(&u, 1, 0), Err(Fault::EndlessType));
}

#[test]
fn join_items_puts_commas_between() {
    assert_eq!(join_items(&vec![]), "");
    assert_eq!(join_items(&vec!["int a".to_string()]), "int a");
    assert_eq!(join_items(&vec!["int a".to_string(), "char".to_string(), "void* p".to_string()]), "int a, char, void* p");
    assert_eq!(join_items(&vec!["".to_string(), "int".to_string()]), ", int");
}
