use sigdump::correlate::{correlate, make_row, names_alias, Row};
use sigdump::table::Table;
use sigdump::text::chars_of;

fn table(pairs: &[(&str, &str)]) -> Table {
    let mut out = Table::new();
    for (key, value) in pairs.iter() {
        out.insert(key.to_string(), value.to_string());
    }
    out
}

fn row(name: &str, signature: &str) -> Row {
    Row { name: name.to_string(), signature: signature.to_string() }
}

#[test]
fn only_the_default_version_is_shown() {
    let dwarf = table(&[("foo", "int foo(void)")]);
    let text = table(&[("foo", "0x100"), ("foo@v1", "0x100"), ("foo@@v2", "0x100")]);
    let rows = correlate(&dwarf, &text, &Table::new(), false);
    assert_eq!(rows, vec![row("foo", "int foo(void)")]);
    // without a code symbol of the declared name no address is known to be
    // that of the function, and no version of it has a row
    let only = table(&[("foo@v1", "0x100"), ("foo@@v2", "0x100")]);
    assert_eq!(correlate(&dwarf, &only, &Table::new(), false), vec![]);
}

#[test]
fn one_row_for_each_shown_name() {
    let dwarf = table(&[("foo", "int foo()"), ("foo1", "int foo1()")]);
    let text = table(&[("foo", "0x100"), ("foo@@v2", "0x100"), ("foo1", "0x200")]);
    let rows = correlate(&dwarf, &text, &Table::new(), false);
    assert_eq!(rows, vec![row("foo", "int foo()"), row("foo1", "int foo1()")]);
}

#[test]
fn later_symbol_of_a_shown_name_gives_the_row() {
    let dwarf = table(&[("f", "void f()"), ("g", "int g()")]);
    let text = table(&[("f", "0x10"), ("g", "0x20")]);
    let weak = table(&[("f@@v", "0x20")]);
    let rows = correlate(&dwarf, &text, &weak, false);
    assert_eq!(rows, vec![row("f", "int f()"), row("g", "int g()")]);
}

#[test]
fn versioned_symbols_at_the_address_of_a_declared_function() {
    let dwarf = table(&[("foo", "int foo(void)")]);
    let text = table(&[("foo", "0x100"), ("foo@v1", "0x100"), ("foo@@v2", "0x100"), ("other", "0x200")]);
    let rows = correlate(&dwarf, &text, &Table::new(), true);
    assert_eq!(rows, vec![row("foo", "int foo(void)")]);
}

#[test]
fn alias_tests() {
    assert!(names_alias(&chars_of("foo@v1")));
    assert!(!names_alias(&chars_of("foo@@v2")));
    assert!(!names_alias(&chars_of("foo")));
    assert!(!names_alias(&chars_of("foo@v1@@v2")));
    assert!(names_alias(&chars_of("@")));
    assert!(!names_alias(&chars_of("")));
}

#[test]
fn signature_is_written_with_the_visible_name() {
    let dwarf = table(&[("bar", "int bar(int x)")]);
    let text = table(&[("bar", "0x100")]);
    let weak = table(&[("bar_impl", "0x100")]);
    let rows = correlate(&dwarf, &text, &weak, false);
    assert_eq!(rows, vec![row("bar", "int bar(int x)"), row("bar_impl", "int bar_impl(int x)")]);
}

#[test]
fn make_row_strips_the_version_and_substitutes_the_name() {
    let declared = "bar".to_string();
    let signature = "int bar(int x)".to_string();
    assert_eq!(make_row(&chars_of("bar_impl"), &declared, &signature), row("bar_impl", "int bar_impl(int x)"));
    assert_eq!(make_row(&chars_of("bar"), &declared, &signature), row("bar", "int bar(int x)"));
    assert_eq!(make_row(&chars_of("bar@@V1"), &declared, &signature), row("bar", "int bar(int x)"));
    assert_eq!(make_row(&chars_of("baz@@V1@@V2"), &declared, &signature), row("baz", "int baz(int x)"));
    assert_eq!(make_row(&chars_of("@@V1"), &declared, &signature), row("", "int (int x)"));
    let recursive = "bar (*bar(bar b))(bar)".to_string();
    assert_eq!(make_row(&chars_of("q"), &declared, &recursive), row("q", "q (*q(q b))(q)"));
}

#[test]
fn reserved_symbols_are_shown_on_request_only() {
    let dwarf = table(&[("_hidden", "void _hidden()"), ("shown", "void shown()")]);
    let text = table(&[("_hidden", "0x10"), ("shown", "0x20")]);
    let none = Table::new();
    assert_eq!(correlate(&dwarf, &text, &none, false), vec![row("shown", "void shown()")]);
    assert_eq!(
        correlate(&dwarf, &text, &none, true),
        vec![row("_hidden", "void _hidden()"), row("shown", "void shown()")]
    );
}

#[test]
fn rows_ascend_by_shown_name() {
    let dwarf = table(&[("b", "void b()"), ("a", "void a()"), ("c", "void c()")]);
    let text = table(&[("c", "3"), ("a", "1"), ("b", "2"), ("a@@V", "1"), ("a0", "1")]);
    let weak = table(&[("ab", "1"), ("zz", "9"), ("B", "2")]);
    let rows = correlate(&dwarf, &text, &weak, false);
    assert_eq!(
        rows,
        vec![
            row("B", "void B()"),
            row("a", "void a()"),
            row("a0", "void a0()"),
            row("ab", "void ab()"),
            row("b", "void b()"),
            row("c", "void c()"),
        ]
    );
}

#[test]
fn symbols_at_other_addresses_have_no_row() {
    let dwarf = table(&[("f", "void f()"), ("g", "void g()")]);
    let text = table(&[("f", "0x10"), ("h", "0x20")]);
    let weak = table(&[("w", "0x30"), ("g", "0x40")]);
    assert_eq!(correlate(&dwarf, &text, &weak, true), vec![row("f", "void f()")]);
    assert_eq!(correlate(&dwarf, &Table::new(), &weak, true), vec![]);
    assert_eq!(correlate(&Table::new(), &text, &weak, true), vec![]);
}

#[test]
fn later_declared_symbol_owns_a_shared_address() {
    let dwarf = table(&[("first", "int first()"), ("second", "long second()")]);
    let text = table(&[("first", "0x10"), ("second", "0x10"), ("third", "0x10")]);
    let rows = correlate(&dwarf, &text, &Table::new(), false);
    assert_eq!(
        rows,
        vec![row("first", "long first()"), row("second", "long second()"), row("third", "long third()")]
    );
}

#[test]
fn weak_symbol_takes_the_place_of_a_code_symbol_of_its_name() {
    let dwarf = table(&[("f", "void f()"), ("g", "int g()")]);
    let text = table(&[("f", "0x10"), ("g", "0x20"), ("x", "0x10")]);
    let weak = table(&[("x", "0x20"), ("y@v1", "0x10")]);
    let rows = correlate(&dwarf, &text, &weak, false);
    assert_eq!(
        rows,
        vec![row("f", "void f()"), row("g", "int g()"), row("x", "int x()"), row("y@v1", "void y@v1()")]
    );
}

#[test]
fn addresses_are_joined_as_they_are_written() {
    let dwarf = table(&[("f", "void f()")]);
    let text = table(&[("f", "0000000000001000")]);
    let weak = table(&[("a", "1000"), ("b", "0000000000001000"), ("c", "0000000000001000 ")]);
    assert_eq!(correlate(&dwarf, &text, &weak, false), vec![row("b", "void b()"), row("f", "void f()")]);
}
