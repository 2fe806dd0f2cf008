//! The symbol list of a binary: one symbol a line, as `nm` prints it.
//!
//! A line holds an address, a type letter and a name, with one space between
//! them. The letters `T` and `t` mark code symbols, `W` marks weak symbols;
//! lines with any other letter are passed over.

use crate::fault::Fault;
use crate::table::Table;
use crate::text::{chars_of, string_of};
use vstd::prelude::*;

verus! {

/// The pieces of `s` between the occurrences of `sep`. There is always one
/// piece more than there are separators, and pieces may be empty.
pub open spec fn split(s: Seq<char>, sep: char) -> Seq<Seq<char>>
    decreases s.len(),
{
    if s.len() == 0 {
        seq![Seq::empty()]
    } else {
        let before = split(s.drop_last(), sep);
        if s.last() == sep {
            before.push(Seq::empty())
        } else {
            before.drop_last().push(before.last().push(s.last()))
        }
    }
}

/// `split` always yields a piece.
pub proof fn lemma_split_nonempty(s: Seq<char>, sep: char)
    ensures
        split(s, sep).len() >= 1,
    decreases s.len(),
{
    if s.len() > 0 {
        lemma_split_nonempty(s.drop_last(), sep);
    }
}

/// `line` without the carriage return at its end, if it has one.
pub open spec fn without_return(line: Seq<char>) -> Seq<char> {
    if line.len() > 0 && line.last() == '\r' {
        line.drop_last()
    } else {
        line
    }
}

/// The lines of a text. A line ends at a line feed, and a carriage return
/// before that line feed is no part of it. What follows the last line feed
/// is a line as it stands, unless it is empty.
pub open spec fn lines(s: Seq<char>) -> Seq<Seq<char>> {
    let pieces = split(s, '\n');
    let ended = Seq::new((pieces.len() - 1) as nat, |k: int| without_return(pieces[k]));
    if pieces.last().len() == 0 {
        ended
    } else {
        ended.push(pieces.last())
    }
}

/// How a symbol is bound.
#[derive(Clone, Copy, Debug, PartialEq, Eq, Structural)]
pub enum Binding {
    /// A code symbol, global or local.
    Text,
    /// A weak symbol.
    Weak,
}

/// The binding that a type letter stands for, if the symbols of that type
/// are listed.
pub open spec fn binding_of(letter: Seq<char>) -> Option<Binding> {
    if letter == seq!['T'] || letter == seq!['t'] {
        Some(Binding::Text)
    } else if letter == seq!['W'] {
        Some(Binding::Weak)
    } else {
        None
    }
}

/// A symbol of the list as a plain value.
pub ghost struct SymbolView {
    pub name: Seq<char>,
    pub address: Seq<char>,
    pub binding: Binding,
}

/// What line number `number` of a symbol list says: a symbol, nothing, or
/// that it is malformed.
pub open spec fn parse_line(line: Seq<char>, number: usize) -> Result<Option<SymbolView>, Fault> {
    let columns = split(line, ' ');
    if columns.len() < 2 {
        Err(Fault::MissingType(number))
    } else {
        match binding_of(columns[1]) {
            None => Ok(None),
            Some(binding) => if columns.len() < 3 {
                Err(Fault::MissingSymbol(number))
            } else {
                Ok(Some(SymbolView { name: columns[2], address: columns[0], binding }))
            },
        }
    }
}

/// The two tables of a symbol list as plain values: the addresses of the
/// code symbols and of the weak symbols, each by the symbol's name.
pub ghost struct SymbolsView {
    pub text: Map<Seq<char>, Seq<char>>,
    pub weak: Map<Seq<char>, Seq<char>>,
}

/// The tables that the first `n` lines make: of two symbols with one name
/// and one binding the later stays. The first malformed line decides the
/// fault.
pub open spec fn symbols_of(ls: Seq<Seq<char>>, n: int) -> Result<SymbolsView, Fault>
    decreases n,
{
    if n <= 0 {
        Ok(SymbolsView { text: Map::empty(), weak: Map::empty() })
    } else {
        match symbols_of(ls, n - 1) {
            Err(fault) => Err(fault),
            Ok(found) => match parse_line(ls[n - 1], (n - 1) as usize) {
                Err(fault) => Err(fault),
                Ok(None) => Ok(found),
                Ok(Some(symbol)) => match symbol.binding {
                    Binding::Text => Ok(
                        SymbolsView {
                            text: found.text.insert(symbol.name, symbol.address),
                            weak: found.weak,
                        },
                    ),
                    Binding::Weak => Ok(
                        SymbolsView {
                            text: found.text,
                            weak: found.weak.insert(symbol.name, symbol.address),
                        },
                    ),
                },
            },
        }
    }
}

/// A malformed line among the first is the fault of the list.
pub proof fn lemma_symbols_fail(ls: Seq<Seq<char>>, k: int, n: int)
    requires
        0 <= k <= n,
        symbols_of(ls, k) is Err,
    ensures
        symbols_of(ls, n) == symbols_of(ls, k),
    decreases n - k,
{
    if k < n {
        lemma_symbols_fail(ls, k, n - 1);
    }
}

/// The pieces as plain values.
pub open spec fn pieces_of(v: Seq<Vec<char>>) -> Seq<Seq<char>> {
    Seq::new(v.len(), |k: int| v[k]@)
}

/// Splits `s` at every `sep`.
pub fn split_at_each(s: &[char], sep: char) -> (r: Vec<Vec<char>>)
    ensures
        pieces_of(r@) == split(s@, sep),
{
    let mut done: Vec<Vec<char>> = Vec::new();
    let mut piece: Vec<char> = Vec::new();
    let mut i: usize = 0;
    assert(s@.take(0) =~= Seq::<char>::empty());
    assert(pieces_of(done@).push(piece@) =~= split(s@.take(0), sep));
    while i < s.len()
        invariant
            i <= s.len(),
            pieces_of(done@).push(piece@) == split(s@.take(i as int), sep),
        decreases s.len() - i,
    {
        let ghost before = pieces_of(done@);
        let ghost last = piece@;
        proof {
            let next = s@.take(i + 1);
            assert(next.drop_last() =~= s@.take(i as int));
            assert(next.last() == s@[i as int]);
            assert(before.push(last).drop_last() =~= before);
        }
        if s[i] == sep {
            done.push(piece);
            piece = Vec::new();
            assert(pieces_of(done@) =~= before.push(last));
        } else {
            piece.push(s[i]);
        }
        i = i + 1;
    }
    assert(s@.take(i as int) =~= s@);
    let ghost before = pieces_of(done@);
    done.push(piece);
    assert(pieces_of(done@) =~= before.push(piece@));
    done
}

/// The lines of a text.
pub fn lines_of(s: &[char]) -> (r: Vec<Vec<char>>)
    ensures
        pieces_of(r@) == lines(s@),
{
    proof {
        lemma_split_nonempty(s@, '\n');
    }
    let mut pieces = split_at_each(s, '\n');
    let ghost all = pieces_of(pieces@);
    let last = match pieces.pop() {
        Some(last) => last,
        None => Vec::new(),
    };
    let mut out: Vec<Vec<char>> = Vec::new();
    let mut k: usize = 0;
    assert(pieces_of(pieces@) =~= all.drop_last());
    while k < pieces.len()
        invariant
            k <= pieces.len(),
            out@.len() == k,
            forall|j: int| 0 <= j < k ==> out@[j]@ == without_return(pieces@[j]@),
        decreases pieces.len() - k,
    {
        let piece = &pieces[k];
        let mut line: Vec<char> = piece.clone();
        assert(line@ =~= piece@);
        if line.len() > 0 && line[line.len() - 1] == '\r' {
            line.pop();
        }
        out.push(line);
        k = k + 1;
    }
    let ghost ended = pieces_of(out@);
    if last.len() > 0 {
        out.push(last);
        assert(pieces_of(out@) =~= ended.push(last@));
    }
    assert(ended =~= Seq::new((all.len() - 1) as nat, |k: int| without_return(all[k])));
    out
}

/// A symbol of the list.
#[derive(Clone, Debug, PartialEq, Eq)]
pub struct Symbol {
    pub name: String,
    /// The address as the list prints it.
    pub address: String,
    pub binding: Binding,
}

impl View for Symbol {
    type V = SymbolView;

    open spec fn view(&self) -> SymbolView {
        SymbolView { name: self.name@, address: self.address@, binding: self.binding }
    }
}

/// Reads a type letter.
pub fn read_binding(letter: &[char]) -> (r: Option<Binding>)
    ensures
        r == binding_of(letter@),
{
    if letter.len() != 1 {
        assert(seq!['T'].len() == 1 && seq!['t'].len() == 1 && seq!['W'].len() == 1);
        return None;
    }
    let c = letter[0];
    if c == 'T' || c == 't' {
        assert(letter@ =~= seq![c]);
        Some(Binding::Text)
    } else if c == 'W' {
        assert(letter@ =~= seq![c]);
        Some(Binding::Weak)
    } else {
        assert(seq!['T'][0] == 'T' && seq!['t'][0] == 't' && seq!['W'][0] == 'W');
        None
    }
}

/// Reads line number `number` of a symbol list.
pub fn read_line(line: &[char], number: usize) -> (r: Result<Option<Symbol>, Fault>)
    ensures
        match r {
            Ok(Some(symbol)) => parse_line(line@, number) == Ok::<Option<SymbolView>, Fault>(
                Some(symbol@),
            ),
            Ok(None) => parse_line(line@, number) == Ok::<Option<SymbolView>, Fault>(None),
            Err(fault) => parse_line(line@, number) == Err::<Option<SymbolView>, Fault>(fault),
        },
{
    let columns = split_at_each(line, ' ');
    assert(columns@.len() == pieces_of(columns@).len());
    if columns.len() < 2 {
        return Err(Fault::MissingType(number));
    }
    assert(pieces_of(columns@)[1] == columns@[1]@);
    match read_binding(columns[1].as_slice()) {
        None => Ok(None),
        Some(binding) => {
            if columns.len() < 3 {
                return Err(Fault::MissingSymbol(number));
            }
            assert(pieces_of(columns@)[2] == columns@[2]@);
            assert(pieces_of(columns@)[0] == columns@[0]@);
            Ok(
                Some(
                    Symbol {
                        name: string_of(columns[2].as_slice()),
                        address: string_of(columns[0].as_slice()),
                        binding,
                    },
                ),
            )
        },
    }
}

/// The two tables of a symbol list.
pub struct Symbols {
    /// The addresses of the code symbols, by name.
    pub text: Table,
    /// The addresses of the weak symbols, by name.
    pub weak: Table,
}

impl View for Symbols {
    type V = SymbolsView;

    open spec fn view(&self) -> SymbolsView {
        SymbolsView { text: self.text@, weak: self.weak@ }
    }
}

/// Reads the symbol list of a binary into the table of its code symbols and
/// the table of its weak symbols.
pub fn dump_file(listing: &str) -> (r: Result<Symbols, Fault>)
    ensures
        match r {
            Ok(found) => symbols_of(lines(listing@), lines(listing@).len() as int) == Ok::<
                SymbolsView,
                Fault,
            >(found@),
            Err(fault) => symbols_of(lines(listing@), lines(listing@).len() as int) == Err::<
                SymbolsView,
                Fault,
            >(fault),
        },
{
    let chars = chars_of(listing);
    let all = lines_of(chars.as_slice());
    let ghost ls = lines(listing@);
    let mut text = Table::new();
    let mut weak = Table::new();
    let mut k: usize = 0;
    while k < all.len()
        invariant
            ls == pieces_of(all@),
            ls == lines(listing@),
            k <= all.len(),
            symbols_of(ls, k as int) == Ok::<SymbolsView, Fault>(
                SymbolsView { text: text@, weak: weak@ },
            ),
        decreases all.len() - k,
    {
        assert(ls[k as int] == all@[k as int]@);
        match read_line(all[k].as_slice(), k) {
            Err(fault) => {
                proof {
                    assert(symbols_of(ls, k + 1) == Err::<SymbolsView, Fault>(fault));
                    lemma_symbols_fail(ls, k + 1, ls.len() as int);
                }
                return Err(fault);
            },
            Ok(None) => {},
            Ok(Some(symbol)) => {
                match symbol.binding {
                    Binding::Text => {
                        text.insert(symbol.name, symbol.address);
                    },
                    Binding::Weak => {
                        weak.insert(symbol.name, symbol.address);
                    },
                }
            },
        }
        k = k + 1;
    }
    Ok(Symbols { text, weak })
}

} // verus!
