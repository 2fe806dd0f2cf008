use sigdump::fault::Fault;
use sigdump::objfile::{dump_file, lines_of, read_binding, read_line, split_at_each, Binding, Symbol};
use sigdump::table::Table;
use sigdump::text::{chars_of, string_of};
use std::io::BufRead;

fn listed(table: &Table) -> Vec<(String, String)> {
    (0..table.len()).map(|i| (table.key(i).clone(), table.value(i).clone())).collect()
}

fn pairs(items: &[(&str, &str)]) -> Vec<(String, String)> {
    items.iter().map(|(k, v)| (k.to_string(), v.to_string())).collect()
}

fn strings(pieces: Vec<Vec<char>>) -> Vec<String> {
    pieces.iter().map(|p| string_of(p)).collect()
}

#[test]
fn split_keeps_empty_pieces() {
    assert_eq!(strings(split_at_each(&chars_of("a b c"), ' ')), vec!["a", "b", "c"]);
    assert_eq!(strings(split_at_each(&chars_of(""), ' ')), vec![""]);
    assert_eq!(strings(split_at_each(&chars_of(" a  b "), ' ')), vec!["", "a", "", "b", ""]);
    for text in ["", " ", "a", "0000 T main", "         U printf", "a  b ", "  "] {
        let expected: Vec<String> = text.split(" ").map(|s| s.to_string()).collect();
        assert_eq!(strings(split_at_each(&chars_of(text), ' ')), expected);
    }
}

#[test]
fn lines_end_at_line_feeds() {
    assert_eq!(strings(lines_of(&chars_of(""))), Vec::<String>::new());
    assert_eq!(strings(lines_of(&chars_of("a"))), vec!["a"]);
    assert_eq!(strings(lines_of(&chars_of("a\n"))), vec!["a"]);
    assert_eq!(strings(lines_of(&chars_of("a\nb"))), vec!["a", "b"]);
    assert_eq!(strings(lines_of(&chars_of("a\n\nb\n"))), vec!["a", "", "b"]);
    assert_eq!(strings(lines_of(&chars_of("\n"))), vec![""]);
    assert_eq!(strings(lines_of(&chars_of("a\r\nb\r"))), vec!["a", "b\r"]);
    assert_eq!(strings(lines_of(&chars_of("a\r\r\n"))), vec!["a\r"]);
}

#[test]
fn lines_agree_with_buffered_reading() {
    for text in ["", "\n", "a", "a\n", "a\nb", "a\r\nb\r\n", "\r\n\r\n", "x\n\ny", "tail\r", "\r"] {
        let expected: Vec<String> = std::io::BufReader::new(text.as_bytes()).lines().map(|l| l.unwrap()).collect();
        assert_eq!(strings(lines_of(&chars_of(text))), expected);
    }
}

#[test]
fn type_letters() {
    assert_eq!(read_binding(&['T']), Some(Binding::Text));
    assert_eq!(read_binding(&['t']), Some(Binding::Text));
    assert_eq!(read_binding(&['W']), Some(Binding::Weak));
    assert_eq!(read_binding(&['w']), None);
    assert_eq!(read_binding(&['U']), None);
    assert_eq!(read_binding(&['D']), None);
    assert_eq!(read_binding(&[]), None);
    assert_eq!(read_binding(&['T', 'T']), None);
}

#[test]
fn read_line_reads_address_type_and_name() {
    assert_eq!(
        read_line(&chars_of("0000000000001000 T add"), 0),
        Ok(Some(Symbol { name: "add".to_string(), address: "0000000000001000".to_string(), binding: Binding::Text }))
    );
    assert_eq!(
        read_line(&chars_of("0000000000001040 t helper"), 1),
        Ok(Some(Symbol { name: "helper".to_string(), address: "0000000000001040".to_string(), binding: Binding::Text }))
    );
    assert_eq!(
        read_line(&chars_of("0000000000001080 W fallback extra"), 2),
        Ok(Some(Symbol { name: "fallback".to_string(), address: "0000000000001080".to_string(), binding: Binding::Weak }))
    );
    assert_eq!(read_line(&chars_of("0000000000004000 D table"), 3), Ok(None));
    assert_eq!(read_line(&chars_of("0000000000004000 w soft"), 3), Ok(None));
    assert_eq!(read_line(&chars_of("                 U printf"), 4), Ok(None));
}

#[test]
fn malformed_lines_are_faults() {
    assert_eq!(read_line(&chars_of(""), 7), Err(Fault::MissingType(7)));
    assert_eq!(read_line(&chars_of("0000000000001000"), 8), Err(Fault::MissingType(8)));
    assert_eq!(read_line(&chars_of("0000000000001000 T"), 9), Err(Fault::MissingSymbol(9)));
    assert_eq!(read_line(&chars_of("0000000000001000 W"), 10), Err(Fault::MissingSymbol(10)));
    assert_eq!(read_line(&chars_of("0000000000001000 D"), 11), Ok(None));
    assert_eq!(
        read_line(&chars_of("0000000000001000 T "), 12),
        Ok(Some(Symbol { name: "".to_string(), address: "0000000000001000".to_string(), binding: Binding::Text }))
    );
}

#[test]
fn dump_file_sorts_the_symbols_into_two_tables() {
    let listing = "0000000000004010 B buffer\n\
                   0000000000001000 T add\n\
                   0000000000001020 t helper\n\
                   \x20                U printf\n\
                   0000000000001040 W fallback\n\
                   0000000000001000 T add@@V2\n\
                   0000000000001060 T _start\n";
    let symbols = dump_file(listing).ok().unwrap();
    assert_eq!(
        listed(&symbols.text),
        pairs(&[
            ("_start", "0000000000001060"),
            ("add", "0000000000001000"),
            ("add@@V2", "0000000000001000"),
            ("helper", "0000000000001020"),
        ])
    );
    assert_eq!(listed(&symbols.weak), pairs(&[("fallback", "0000000000001040")]));
}

#[test]
fn dump_file_of_an_empty_listing_is_empty() {
    let symbols = dump_file("").ok().unwrap();
    assert_eq!(symbols.text.len(), 0);
    assert_eq!(symbols.weak.len(), 0);
}

#[test]
fn later_symbol_of_a_name_stays() {
    let symbols = dump_file("10 T f\n20 W f\n30 T f\n40 W f").ok().unwrap();
    assert_eq!(listed(&symbols.text), pairs(&[("f", "30")]));
    assert_eq!(listed(&symbols.weak), pairs(&[("f", "40")]));
}

#[test]
fn first_malformed_line_decides_the_fault() {
    assert_eq!(dump_file("10 T f\n\n20 T").err(), Some(Fault::MissingType(1)));
    assert_eq!(dump_file("10 T f\n20 T\n\n").err(), Some(Fault::MissingSymbol(1)));
    assert_eq!(dump_file("10 T f\n20 W\r\n").err(), Some(Fault::MissingSymbol(1)));
    assert_eq!(dump_file("10\n").err(), Some(Fault::MissingType(0)));
}
