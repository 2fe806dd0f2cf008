//! The join of the signatures with the symbols that a binary exports.
//!
//! The debugging information names a function as it was declared; the binary
//! may export it under other names at the same address, with a version
//! behind the name or as a weak symbol. Each exported name that stands at the
//! address of a declared function gets that function's signature, written
//! with the exported name.

use crate::table::{ascending, lemma_ascending_unique, lemma_map_of_index, map_of, Pair, Table};
use crate::text::{chars_of, contains, find, first_at, replace, string_of, substitute};
use vstd::prelude::*;

verus! {

/// The separator before a version.
pub open spec fn version_mark() -> Seq<char> {
    seq!['@']
}

/// The separator before the default version.
pub open spec fn default_mark() -> Seq<char> {
    seq!['@', '@']
}

/// The symbol names a version that is not the default one.
pub open spec fn is_alias(symbol: Seq<char>) -> bool {
    contains(symbol, version_mark()) && !contains(symbol, default_mark())
}

/// The symbol is one of those reserved to the implementation: it begins with
/// an underscore.
pub open spec fn is_reserved(symbol: Seq<char>) -> bool {
    symbol.len() > 0 && symbol[0] == '_'
}

/// The symbol without its default version: what stands before the first
/// separator of a default version, or all of it.
pub open spec fn display_name(symbol: Seq<char>) -> Seq<char> {
    if contains(symbol, default_mark()) {
        symbol.take(choose|i: int| first_at(symbol, default_mark(), i))
    } else {
        symbol
    }
}

/// The declared function of each address, from the first `n` code symbols:
/// a code symbol that is the name of a declared function gives its name to
/// its address, and of two such symbols at one address the later stays.
pub open spec fn owners(
    dwarf: Map<Seq<char>, Seq<char>>,
    text: Seq<Pair>,
    n: int,
) -> Map<Seq<char>, Seq<char>>
    decreases n,
{
    if n <= 0 {
        Map::empty()
    } else {
        let before = owners(dwarf, text, n - 1);
        if dwarf.contains_key(text[n - 1].0) {
            before.insert(text[n - 1].1, text[n - 1].0)
        } else {
            before
        }
    }
}

/// The declared function of each visible code symbol among the first `n`:
/// a code symbol is visible if it names no version but the default one and
/// stands at the address of a declared function.
pub open spec fn versions(
    own: Map<Seq<char>, Seq<char>>,
    text: Seq<Pair>,
    n: int,
) -> Map<Seq<char>, Seq<char>>
    decreases n,
{
    if n <= 0 {
        Map::empty()
    } else {
        let before = versions(own, text, n - 1);
        if !is_alias(text[n - 1].0) && own.contains_key(text[n - 1].1) {
            before.insert(text[n - 1].0, own[text[n - 1].1])
        } else {
            before
        }
    }
}

/// `start` with the declared function of each of the first `n` weak symbols
/// that stands at the address of one. Versions do not count here.
pub open spec fn with_weak(
    own: Map<Seq<char>, Seq<char>>,
    weak: Seq<Pair>,
    n: int,
    start: Map<Seq<char>, Seq<char>>,
) -> Map<Seq<char>, Seq<char>>
    decreases n,
{
    if n <= 0 {
        start
    } else {
        let before = with_weak(own, weak, n - 1, start);
        if own.contains_key(weak[n - 1].1) {
            before.insert(weak[n - 1].0, own[weak[n - 1].1])
        } else {
            before
        }
    }
}

/// The declared function of every visible symbol of a binary. `text` and
/// `weak` list the code symbols and the weak symbols with their addresses,
/// in ascending order of the names.
pub open spec fn visible(
    dwarf: Map<Seq<char>, Seq<char>>,
    text: Seq<Pair>,
    weak: Seq<Pair>,
) -> Map<Seq<char>, Seq<char>> {
    let own = owners(dwarf, text, text.len() as int);
    with_weak(own, weak, weak.len() as int, versions(own, text, text.len() as int))
}

/// The row of a visible symbol: the name to show, and the signature of the
/// declared function with that name in place of the declared one.
pub open spec fn row(dwarf: Map<Seq<char>, Seq<char>>, symbol: Seq<char>, declared: Seq<char>) -> Pair {
    let name = display_name(symbol);
    if name == declared {
        (name, dwarf[declared])
    } else {
        (name, substitute(dwarf[declared], declared, name))
    }
}

/// The visible symbol has a row: it is not reserved, or reserved symbols are
/// asked for.
pub open spec fn has_row(symbol: Seq<char>, print_reserved: bool) -> bool {
    print_reserved || !is_reserved(symbol)
}

/// The rows of the first `n` visible symbols, each signature by the name
/// that is shown with it. Reserved symbols have a row only where
/// `print_reserved` asks for them. Of two symbols that are shown under one
/// name the later stays.
pub open spec fn rows(
    dwarf: Map<Seq<char>, Seq<char>>,
    shown: Seq<Pair>,
    n: int,
    print_reserved: bool,
) -> Map<Seq<char>, Seq<char>>
    decreases n,
{
    if n <= 0 {
        Map::empty()
    } else {
        let before = rows(dwarf, shown, n - 1, print_reserved);
        if has_row(shown[n - 1].0, print_reserved) {
            let made = row(dwarf, shown[n - 1].0, shown[n - 1].1);
            before.insert(made.0, made.1)
        } else {
            before
        }
    }
}

/// The pairs of a map in ascending order of the keys.
pub open spec fn listing(m: Map<Seq<char>, Seq<char>>) -> Seq<Pair> {
    choose|ps: Seq<Pair>| ascending(ps) && map_of(ps) == m
}

/// The rows of a binary: one for each name that is shown, in ascending
/// order of the names. The visible symbols are taken in ascending order, so
/// that of two symbols shown under one name the greater gives the row.
pub open spec fn correlation(
    dwarf: Map<Seq<char>, Seq<char>>,
    text: Seq<Pair>,
    weak: Seq<Pair>,
    print_reserved: bool,
) -> Seq<Pair> {
    let shown = listing(visible(dwarf, text, weak));
    listing(rows(dwarf, shown, shown.len() as int, print_reserved))
}

/// Every value of `m` is a key of `dwarf`.
pub open spec fn declared_in(m: Map<Seq<char>, Seq<char>>, dwarf: Map<Seq<char>, Seq<char>>) -> bool {
    forall|k: Seq<char>| m.contains_key(k) ==> dwarf.contains_key(#[trigger] m[k])
}

/// A pattern stands first at one position only.
pub proof fn lemma_first_unique(text: Seq<char>, pat: Seq<char>, i: int, j: int)
    requires
        first_at(text, pat, i),
        first_at(text, pat, j),
    ensures
        i == j,
{
}

/// Of the code symbols at one address that name a declared function, the
/// last owns the address.
pub proof fn lemma_last_claim_owns(dwarf: Map<Seq<char>, Seq<char>>, text: Seq<Pair>, n: int, k: int)
    requires
        0 <= k < n <= text.len(),
        dwarf.contains_key(text[k].0),
        forall|j: int| k < j < n && dwarf.contains_key(#[trigger] text[j].0) ==> text[j].1 != text[k].1,
    ensures
        owners(dwarf, text, n).contains_key(text[k].1),
        owners(dwarf, text, n)[text[k].1] == text[k].0,
    decreases n - k,
{
    if k < n - 1 {
        lemma_last_claim_owns(dwarf, text, n - 1, k);
    }
}

/// An address has an owner only if a code symbol that names a declared
/// function stands at it, and its owner is such a symbol.
pub proof fn lemma_owner_claims(dwarf: Map<Seq<char>, Seq<char>>, text: Seq<Pair>, n: int, address: Seq<char>)
    requires
        0 <= n <= text.len(),
        owners(dwarf, text, n).contains_key(address),
    ensures
        dwarf.contains_key(owners(dwarf, text, n)[address]),
        exists|k: int|
            0 <= k < n && #[trigger] text[k].1 == address && text[k].0 == owners(
                dwarf,
                text,
                n,
            )[address],
    decreases n,
{
    if n > 0 {
        if dwarf.contains_key(text[n - 1].0) && text[n - 1].1 == address {
            assert(text[n - 1].1 == address && text[n - 1].0 == owners(dwarf, text, n)[address]);
        } else {
            lemma_owner_claims(dwarf, text, n - 1, address);
            let k = choose|k: int|
                0 <= k < n - 1 && #[trigger] text[k].1 == address && text[k].0 == owners(
                    dwarf,
                    text,
                    n - 1,
                )[address];
            assert(0 <= k < n && text[k].1 == address && text[k].0 == owners(dwarf, text, n)[address]);
        }
    }
}

/// Every visible code symbol among the first `n` is one of them and names
/// no version but the default one.
pub proof fn lemma_versions_keys(own: Map<Seq<char>, Seq<char>>, text: Seq<Pair>, n: int, s: Seq<char>)
    requires
        0 <= n <= text.len(),
        versions(own, text, n).contains_key(s),
    ensures
        !is_alias(s),
        exists|k: int| 0 <= k < n && text[k].0 == s,
    decreases n,
{
    if n > 0 {
        if versions(own, text, n - 1).contains_key(s) {
            lemma_versions_keys(own, text, n - 1, s);
            let k = choose|k: int| 0 <= k < n - 1 && text[k].0 == s;
            assert(0 <= k < n && text[k].0 == s);
        } else {
            assert(text[n - 1].0 == s);
        }
    }
}

/// A weak symbol among the first `n` adds itself to the visible symbols and
/// no other.
pub proof fn lemma_with_weak_keys(
    own: Map<Seq<char>, Seq<char>>,
    weak: Seq<Pair>,
    n: int,
    start: Map<Seq<char>, Seq<char>>,
    s: Seq<char>,
)
    requires
        0 <= n <= weak.len(),
        with_weak(own, weak, n, start).contains_key(s),
    ensures
        start.contains_key(s) || exists|k: int| 0 <= k < n && weak[k].0 == s,
    decreases n,
{
    if n > 0 {
        if with_weak(own, weak, n - 1, start).contains_key(s) {
            lemma_with_weak_keys(own, weak, n - 1, start, s);
            if !start.contains_key(s) {
                let k = choose|k: int| 0 <= k < n - 1 && weak[k].0 == s;
                assert(0 <= k < n && weak[k].0 == s);
            }
        } else {
            assert(weak[n - 1].0 == s);
        }
    }
}

/// A name with a version that is not the default one is visible only as a
/// weak symbol.
pub proof fn lemma_alias_not_visible(
    dwarf: Map<Seq<char>, Seq<char>>,
    text: Seq<Pair>,
    weak: Seq<Pair>,
    s: Seq<char>,
)
    requires
        is_alias(s),
        forall|k: int| 0 <= k < weak.len() ==> weak[k].0 != s,
    ensures
        !visible(dwarf, text, weak).contains_key(s),
{
    let own = owners(dwarf, text, text.len() as int);
    let start = versions(own, text, text.len() as int);
    if visible(dwarf, text, weak).contains_key(s) {
        lemma_with_weak_keys(own, weak, weak.len() as int, start, s);
        if start.contains_key(s) {
            lemma_versions_keys(own, text, text.len() as int, s);
        }
    }
}

/// A name has a row exactly if it is the shown name of a visible symbol
/// that has one: with reserved symbols asked for every visible symbol,
/// without them every visible symbol that is not reserved, and no other.
pub proof fn lemma_rows_keys(
    dwarf: Map<Seq<char>, Seq<char>>,
    shown: Seq<Pair>,
    n: int,
    print_reserved: bool,
    name: Seq<char>,
)
    requires
        0 <= n <= shown.len(),
    ensures
        rows(dwarf, shown, n, print_reserved).contains_key(name) <==> exists|k: int|
            0 <= k < n && has_row(shown[k].0, print_reserved) && #[trigger] display_name(
                shown[k].0,
            ) == name,
    decreases n,
{
    if n > 0 {
        lemma_rows_keys(dwarf, shown, n - 1, print_reserved, name);
        let before = rows(dwarf, shown, n - 1, print_reserved);
        if before.contains_key(name) {
            let k = choose|k: int|
                0 <= k < n - 1 && has_row(shown[k].0, print_reserved) && #[trigger] display_name(
                    shown[k].0,
                ) == name;
            assert(0 <= k < n && has_row(shown[k].0, print_reserved) && display_name(shown[k].0)
                == name);
        }
        if exists|k: int|
            0 <= k < n && has_row(shown[k].0, print_reserved) && #[trigger] display_name(
                shown[k].0,
            ) == name {
            let k = choose|k: int|
                0 <= k < n && has_row(shown[k].0, print_reserved) && #[trigger] display_name(
                    shown[k].0,
                ) == name;
            if k < n - 1 {
                assert(0 <= k < n - 1 && has_row(shown[k].0, print_reserved) && display_name(
                    shown[k].0,
                ) == name);
            }
        }
    }
}

/// Of the visible symbols that are shown under one name, the last gives the
/// row.
pub proof fn lemma_last_row_stays(
    dwarf: Map<Seq<char>, Seq<char>>,
    shown: Seq<Pair>,
    n: int,
    print_reserved: bool,
    k: int,
)
    requires
        0 <= k < n <= shown.len(),
        has_row(shown[k].0, print_reserved),
        forall|j: int|
            k < j < n && has_row(shown[j].0, print_reserved) ==> #[trigger] display_name(
                shown[j].0,
            ) != display_name(shown[k].0),
    ensures
        rows(dwarf, shown, n, print_reserved).contains_key(display_name(shown[k].0)),
        rows(dwarf, shown, n, print_reserved)[display_name(shown[k].0)] == row(
            dwarf,
            shown[k].0,
            shown[k].1,
        ).1,
    decreases n - k,
{
    if k < n - 1 {
        lemma_last_row_stays(dwarf, shown, n - 1, print_reserved, k);
        assert(display_name(shown[n - 1].0) == display_name(shown[n - 1].0));
    }
}

/// Without reserved symbols asked for, a binary whose visible symbols are
/// all reserved has no row.
pub proof fn lemma_reserved_have_no_rows(dwarf: Map<Seq<char>, Seq<char>>, shown: Seq<Pair>, n: int)
    requires
        0 <= n <= shown.len(),
        forall|k: int| 0 <= k < n ==> is_reserved(#[trigger] shown[k].0),
    ensures
        rows(dwarf, shown, n, false) == Map::<Seq<char>, Seq<char>>::empty(),
    decreases n,
{
    if n > 0 {
        lemma_reserved_have_no_rows(dwarf, shown, n - 1);
        assert(is_reserved(shown[n - 1].0));
    }
}

/// One line of the result.
#[derive(Clone, Debug, PartialEq, Eq)]
pub struct Row {
    /// The name under which the binary exports the function, without its
    /// version.
    pub name: String,
    /// The signature of the function, written with that name.
    pub signature: String,
}

impl View for Row {
    type V = Pair;

    open spec fn view(&self) -> Pair {
        (self.name@, self.signature@)
    }
}

/// The rows as plain values.
pub open spec fn row_views(v: Seq<Row>) -> Seq<Pair> {
    Seq::new(v.len(), |k: int| v[k]@)
}

/// Tells whether the symbol names a version that is not the default one.
pub fn names_alias(symbol: &[char]) -> (r: bool)
    ensures
        r == is_alias(symbol@),
{
    let version = vec!['@'];
    let default = vec!['@', '@'];
    assert(version@ =~= version_mark());
    assert(default@ =~= default_mark());
    let versioned = find(symbol, version.as_slice()).is_some();
    let defaulted = find(symbol, default.as_slice()).is_some();
    versioned && !defaulted
}

/// Makes the row of a visible symbol from the declared name of its function
/// and the function's signature.
pub fn make_row(symbol: &[char], declared: &String, signature: &String) -> (r: Row)
    ensures
        r.name@ == display_name(symbol@),
        r.signature@ == if display_name(symbol@) == declared@ {
            signature@
        } else {
            substitute(signature@, declared@, display_name(symbol@))
        },
{
    let default = vec!['@', '@'];
    assert(default@ =~= default_mark());
    let shown: Vec<char> = match find(symbol, default.as_slice()) {
        Some(i) => {
            proof {
                lemma_first_unique(
                    symbol@,
                    default_mark(),
                    i as int,
                    choose|i: int| first_at(symbol@, default_mark(), i),
                );
            }
            let mut head: Vec<char> = Vec::new();
            let mut k: usize = 0;
            while k < i
                invariant
                    k <= i <= symbol@.len(),
                    head@ == symbol@.take(k as int),
                decreases i - k,
            {
                head.push(symbol[k]);
                k = k + 1;
                assert(head@ =~= symbol@.take(k as int));
            }
            head
        },
        None => {
            let mut whole: Vec<char> = Vec::new();
            whole.extend_from_slice(symbol);
            assert(whole@ =~= symbol@);
            whole
        },
    };
    let name = string_of(shown.as_slice());
    let text = if name == *declared {
        signature.clone()
    } else {
        let from = chars_of(declared.as_str());
        let all = chars_of(signature.as_str());
        string_of(replace(all.as_slice(), from.as_slice(), shown.as_slice()).as_slice())
    };
    Row { name, signature: text }
}

/// Joins the signatures of the declared functions with the symbols of the
/// binary.
///
/// `dwarf` gives the signature of each declared function by its name;
/// `text` and `weak` give the addresses of the code symbols and of the weak
/// symbols by their names. The result holds one row for each name that is
/// shown, in ascending order of the names.
pub fn correlate(dwarf: &Table, text: &Table, weak: &Table, print_reserved: bool) -> (r: Vec<Row>)
    ensures
        row_views(r@) == correlation(dwarf@, text.pairs(), weak.pairs(), print_reserved),
{
    let ghost tp = text.pairs();
    let ghost wp = weak.pairs();
    // the declared function at each address
    let mut own = Table::new();
    let text_len = text.len();
    let mut i: usize = 0;
    while i < text_len
        invariant
            tp == text.pairs(),
            text_len == tp.len(),
            i <= text_len,
            own@ == owners(dwarf@, tp, i as int),
            declared_in(own@, dwarf@),
        decreases text_len - i,
    {
        let symbol = text.key(i);
        if dwarf.contains_key(symbol.as_str()) {
            own.insert(text.value(i).clone(), symbol.clone());
        }
        i = i + 1;
    }
    // the code symbols that are visible
    let mut shown = Table::new();
    i = 0;
    while i < text_len
        invariant
            tp == text.pairs(),
            text_len == tp.len(),
            i <= text_len,
            shown@ == versions(own@, tp, i as int),
            declared_in(own@, dwarf@),
            declared_in(shown@, dwarf@),
        decreases text_len - i,
    {
        let symbol = text.key(i);
        let chars = chars_of(symbol.as_str());
        if !names_alias(chars.as_slice()) {
            if let Some(declared) = own.get(text.value(i).as_str()) {
                shown.insert(symbol.clone(), declared.clone());
            }
        }
        i = i + 1;
    }
    // the weak symbols
    let ghost start = shown@;
    let weak_len = weak.len();
    i = 0;
    while i < weak_len
        invariant
            wp == weak.pairs(),
            weak_len == wp.len(),
            i <= weak_len,
            shown@ == with_weak(own@, wp, i as int, start),
            declared_in(own@, dwarf@),
            declared_in(shown@, dwarf@),
        decreases weak_len - i,
    {
        if let Some(declared) = own.get(weak.value(i).as_str()) {
            shown.insert(weak.key(i).clone(), declared.clone());
        }
        i = i + 1;
    }
    assert(shown@ == visible(dwarf@, tp, wp));
    // the row of each shown name
    let ghost sp = shown.pairs();
    let shown_len = shown.len();
    proof {
        lemma_ascending_unique(sp, listing(shown@));
    }
    let mut named = Table::new();
    i = 0;
    while i < shown_len
        invariant
            sp == shown.pairs(),
            ascending(sp),
            shown_len == sp.len(),
            i <= shown_len,
            declared_in(shown@, dwarf@),
            named@ == rows(dwarf@, sp, i as int, print_reserved),
        decreases shown_len - i,
    {
        let symbol = shown.key(i);
        let declared = shown.value(i);
        let chars = chars_of(symbol.as_str());
        let reserved = chars.len() > 0 && chars[0] == '_';
        if !reserved || print_reserved {
            proof {
                lemma_map_of_index(sp, i as int);
            }
            if let Some(signature) = dwarf.get(declared.as_str()) {
                let made = make_row(chars.as_slice(), declared, signature);
                named.insert(made.name, made.signature);
            }
        }
        i = i + 1;
    }
    // in ascending order of the names
    let ghost np = named.pairs();
    let named_len = named.len();
    proof {
        lemma_ascending_unique(np, listing(named@));
    }
    let mut out: Vec<Row> = Vec::new();
    i = 0;
    while i < named_len
        invariant
            np == named.pairs(),
            named_len == np.len(),
            i <= named_len,
            row_views(out@) == np.take(i as int),
        decreases named_len - i,
    {
        let ghost listed = row_views(out@);
        let made = Row { name: named.key(i).clone(), signature: named.value(i).clone() };
        assert(made@ == np[i as int]);
        out.push(made);
        assert(row_views(out@) =~= listed.push(np[i as int]));
        i = i + 1;
        assert(row_views(out@) =~= np.take(i as int));
    }
    assert(np.take(i as int) =~= np);
    out
}

} // verus!
