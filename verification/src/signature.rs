//! Declarations: a parameter with its type, a parameter list, and the
//! signature of a function.

use crate::fault::Fault;
use crate::tree::{EntryView, Name, NameView, Tag, TypeRef, Unit};
use crate::types::{
    chain_from, Chain, is_function_pointer, joined, keep, last_subroutine, lemma_absent_type_is_void,
    lemma_chain_indices, lemma_function_pointer_keeps, lemma_last_subroutine_is_link,
    lemma_pigeonhole, lemma_plain_chain_keeps_all, qualifiers_of, resolve, specifier_text,
    specifiers, Qualifier,
};
use vstd::prelude::*;
use vstd::string::*;

verus! {

/// The first position from `j` on at which the tree is back at the depth of
/// the entry at position `i`, or the end of the unit: where the entries below
/// `i` end.
pub open spec fn subtree_end(es: Seq<EntryView>, i: int, j: int) -> int
    decreases es.len() - j,
{
    if j < 0 || j >= es.len() || es[j].depth <= es[i].depth {
        j
    } else {
        subtree_end(es, i, j + 1)
    }
}

/// The entry at position `k` is one level below the entry at position `i`
/// and is a formal parameter.
pub open spec fn is_parameter_of(es: Seq<EntryView>, i: int, k: int) -> bool {
    es[k].depth == es[i].depth + 1 && es[k].tag == Tag::FormalParameter
}

/// The positions from `from` up to `to` that hold a formal parameter one
/// level below the entry at position `i`, in ascending order.
pub open spec fn parameters_in(es: Seq<EntryView>, i: int, from: int, to: int) -> Seq<int>
    decreases to - from,
{
    if to <= from {
        Seq::empty()
    } else if is_parameter_of(es, i, to - 1) {
        parameters_in(es, i, from, to - 1).push(to - 1)
    } else {
        parameters_in(es, i, from, to - 1)
    }
}

/// The positions of the formal parameters that are direct children of the
/// entry at position `i`, in the order of the unit.
pub open spec fn parameters_of(es: Seq<EntryView>, i: int) -> Seq<int> {
    parameters_in(es, i, i + 1, subtree_end(es, i, i + 1))
}

/// The items with `", "` between them.
pub open spec fn join(items: Seq<Seq<char>>) -> Seq<char>
    decreases items.len(),
{
    if items.len() == 0 {
        Seq::empty()
    } else if items.len() == 1 {
        items[0]
    } else {
        join(items.drop_last()) + ", "@ + items.last()
    }
}

/// The text of a name, empty where there is none.
pub open spec fn name_text(name: NameView) -> Seq<char> {
    match name {
        NameView::Text(text) => text,
        _ => Seq::empty(),
    }
}

/// The declaration of the entry at position `i`: the specifiers of its type
/// and its name.
///
/// An entry with a name is declared as `<specifiers> <name>`, one without as
/// `<specifiers>`. Where a function type stands in the chain the declaration
/// is `<specifiers> (*<name>)(<parameters>)`, with the parameters of the last
/// function type of the chain. `depth` bounds how deep function
/// pointers may nest in parameter lists: a nest that needs more runs in a
/// circle.
pub open spec fn declaration(es: Seq<EntryView>, i: int, depth: nat) -> Result<Seq<char>, Fault>
    decreases depth, 0nat, 0nat,
{
    if es[i].name == NameView::Unreadable {
        Err(Fault::UnreadableName(es[i].offset))
    } else {
        match chain_from(es, i, es.len()) {
            Err(e) => Err(e),
            Ok(c) => if is_function_pointer(c) {
                if depth == 0 {
                    Err(Fault::EndlessType)
                } else {
                    match parameter_list(es, last_subroutine(c.steps).unwrap(), (depth - 1) as nat) {
                        Err(e) => Err(e),
                        Ok(ps) => Ok(specifiers(c) + " (*"@ + name_text(es[i].name) + ")"@ + ps),
                    }
                }
            } else {
                match es[i].name {
                    NameView::Text(name) => Ok(specifiers(c) + " "@ + name),
                    _ => Ok(specifiers(c)),
                }
            },
        }
    }
}

/// The declarations of the entries at the positions `js`, in their order.
/// The first that fails decides the error.
pub open spec fn declarations(es: Seq<EntryView>, js: Seq<int>, depth: nat) -> Result<
    Seq<Seq<char>>,
    Fault,
>
    decreases depth, 1nat, js.len(),
{
    if js.len() == 0 {
        Ok(Seq::empty())
    } else {
        match declarations(es, js.drop_last(), depth) {
            Err(e) => Err(e),
            Ok(before) => match declaration(es, js.last(), depth) {
                Err(e) => Err(e),
                Ok(last) => Ok(before.push(last)),
            },
        }
    }
}

/// The parameter list of the entry at position `i`: the declarations of its
/// formal parameters, separated by `", "`, in parentheses.
pub open spec fn parameter_list(es: Seq<EntryView>, i: int, depth: nat) -> Result<Seq<char>, Fault>
    decreases depth, 2nat, 0nat,
{
    match declarations(es, parameters_of(es, i), depth) {
        Err(e) => Err(e),
        Ok(items) => Ok("("@ + join(items) + ")"@),
    }
}

/// The name and the signature of the function entry at position `i`. The
/// signature is the declaration of the function followed by its parameter
/// list: `<result> <name>(<parameters>)`.
pub open spec fn signature(es: Seq<EntryView>, i: int) -> Result<(Seq<char>, Seq<char>), Fault> {
    match es[i].name {
        NameView::Absent => Err(Fault::MissingName(es[i].offset)),
        NameView::Unreadable => Err(Fault::UnreadableName(es[i].offset)),
        NameView::Text(name) => match declaration(es, i, es.len()) {
            Err(e) => Err(e),
            Ok(head) => match parameter_list(es, i, es.len()) {
                Err(e) => Err(e),
                Ok(ps) => Ok((name, head + ps)),
            },
        },
    }
}

/// An error among the first declarations is the error of all of them.
pub proof fn lemma_declarations_fail(es: Seq<EntryView>, js: Seq<int>, k: int, depth: nat)
    requires
        0 <= k <= js.len(),
        declarations(es, js.take(k), depth) is Err,
    ensures
        declarations(es, js, depth) == declarations(es, js.take(k), depth),
    decreases js.len(),
{
    if k == js.len() {
        assert(js.take(k) =~= js);
    } else {
        assert(js.drop_last().take(k) =~= js.take(k));
        lemma_declarations_fail(es, js.drop_last(), k, depth);
    }
}

/// From `j` up to where the entries below the entry at position `i` end,
/// every entry stands deeper than that entry, and the entry at the end, if
/// there is one, does not.
pub proof fn lemma_subtree_end(es: Seq<EntryView>, i: int, j: int)
    requires
        0 <= j <= es.len(),
    ensures
        j <= subtree_end(es, i, j) <= es.len(),
        forall|k: int| j <= k < subtree_end(es, i, j) ==> (#[trigger] es[k]).depth > es[i].depth,
        subtree_end(es, i, j) < es.len() ==> es[subtree_end(es, i, j)].depth <= es[i].depth,
    decreases es.len() - j,
{
    if j < es.len() && es[j].depth > es[i].depth {
        lemma_subtree_end(es, i, j + 1);
    }
}

/// The parameters that are found stand in ascending order, within the
/// bounds of the search.
pub proof fn lemma_parameters_ascend(es: Seq<EntryView>, i: int, from: int, to: int)
    ensures
        forall|a: int|
            0 <= a < parameters_in(es, i, from, to).len() ==> from <= #[trigger] parameters_in(
                es,
                i,
                from,
                to,
            )[a] < to,
        forall|a: int, b: int|
            0 <= a < b < parameters_in(es, i, from, to).len() ==> parameters_in(es, i, from, to)[a]
                < parameters_in(es, i, from, to)[b],
    decreases to - from,
{
    let found = parameters_in(es, i, from, to);
    if to > from {
        let before = parameters_in(es, i, from, to - 1);
        lemma_parameters_ascend(es, i, from, to - 1);
        assert forall|a: int| 0 <= a < found.len() implies from <= #[trigger] found[a] < to by {
            if a < before.len() {
                assert(found[a] == before[a]);
            }
        }
        assert forall|a: int, b: int| 0 <= a < b < found.len() implies found[a] < found[b] by {
            assert(found[a] == before[a]);
            if b < before.len() {
                assert(found[b] == before[b]);
            }
        }
    }
}

/// A position is among the parameters found between `from` and `to` exactly
/// if it lies there and holds a formal parameter one level below the entry.
pub proof fn lemma_parameters_in(es: Seq<EntryView>, i: int, from: int, to: int, k: int)
    ensures
        parameters_in(es, i, from, to).contains(k) <==> from <= k < to && is_parameter_of(
            es,
            i,
            k,
        ),
    decreases to - from,
{
    let found = parameters_in(es, i, from, to);
    if to > from {
        let before = parameters_in(es, i, from, to - 1);
        lemma_parameters_in(es, i, from, to - 1, k);
        if is_parameter_of(es, i, to - 1) {
            assert(found == before.push(to - 1));
            if before.contains(k) {
                let j = choose|j: int| 0 <= j < before.len() && before[j] == k;
                assert(found[j] == k);
            }
            if k == to - 1 {
                assert(found[found.len() - 1] == k);
            }
            if found.contains(k) {
                let j = choose|j: int| 0 <= j < found.len() && found[j] == k;
                if j < before.len() {
                    assert(before[j] == k);
                }
            }
        }
    }
}

/// An entry without formal parameters among its direct children has the
/// parameter list `()`.
pub proof fn lemma_no_parameters(es: Seq<EntryView>, i: int, depth: nat)
    requires
        forall|k: int| i < k < subtree_end(es, i, i + 1) ==> !is_parameter_of(es, i, k),
    ensures
        parameter_list(es, i, depth) == Ok::<Seq<char>, Fault>("()"@),
{
    let found = parameters_of(es, i);
    if found.len() > 0 {
        lemma_parameters_in(es, i, i + 1, subtree_end(es, i, i + 1), found[0]);
        assert(found.contains(found[0]));
    }
    assert(declarations(es, found, depth) == Ok::<Seq<Seq<char>>, Fault>(Seq::empty()));
    reveal_strlit("(");
    reveal_strlit(")");
    reveal_strlit("()");
    assert("("@ + join(Seq::<Seq<char>>::empty()) + ")"@ =~= "()"@);
}

/// An entry without a type attribute is declared `void`, followed by its
/// name if it has one.
pub proof fn lemma_void_declaration(es: Seq<EntryView>, i: int, depth: nat)
    requires
        es[i].type_ref == TypeRef::Absent,
        es[i].name != NameView::Unreadable,
    ensures
        declaration(es, i, depth) == match es[i].name {
            NameView::Text(name) => Ok::<Seq<char>, Fault>("void"@ + " "@ + name),
            _ => Ok::<Seq<char>, Fault>("void"@),
        },
{
    lemma_absent_type_is_void(es, i, es.len());
}

/// Where the chain of an entry holds no function type, the entry is declared
/// with the name at the end of the chain, then what each qualifier adds, in
/// the order of the chain, then its own name if it has one.
pub proof fn lemma_plain_declaration(es: Seq<EntryView>, i: int, depth: nat)
    requires
        es[i].name != NameView::Unreadable,
        chain_from(es, i, es.len()) is Ok,
        forall|k: int|
            0 <= k < chain_from(es, i, es.len())->Ok_0.steps.len() ==> chain_from(
                es,
                i,
                es.len(),
            )->Ok_0.steps[k].qualifier != Qualifier::Subroutine,
    ensures
        declaration(es, i, depth) == {
            let c = chain_from(es, i, es.len())->Ok_0;
            let head = c.base + joined(qualifiers_of(c.steps));
            match es[i].name {
                NameView::Text(name) => Ok::<Seq<char>, Fault>(head + " "@ + name),
                _ => Ok::<Seq<char>, Fault>(head),
            }
        },
{
    lemma_plain_chain_keeps_all(chain_from(es, i, es.len())->Ok_0.steps);
}

/// An entry whose type is a pointer to a function type is declared in the
/// form of a function pointer: the specifiers of the function's result, then
/// `(*`, the name of the entry if it has one, `)`, and the parameter list of
/// the function type. The pointer adds nothing to the specifiers.
pub proof fn lemma_function_pointer_declaration(es: Seq<EntryView>, i: int, depth: nat)
    requires
        es[i].name != NameView::Unreadable,
        depth > 0,
        chain_from(es, i, es.len()) is Ok,
        chain_from(es, i, es.len())->Ok_0.steps.len() >= 2,
        chain_from(es, i, es.len())->Ok_0.steps[1].qualifier == Qualifier::Subroutine,
        forall|k: int|
            2 <= k < chain_from(es, i, es.len())->Ok_0.steps.len() ==> chain_from(
                es,
                i,
                es.len(),
            )->Ok_0.steps[k].qualifier != Qualifier::Subroutine,
    ensures
        declaration(es, i, depth) == {
            let c = chain_from(es, i, es.len())->Ok_0;
            match parameter_list(es, c.steps[1].index, (depth - 1) as nat) {
                Err(e) => Err::<Seq<char>, Fault>(e),
                Ok(list) => Ok(
                    c.base + joined(qualifiers_of(c.steps.skip(2))) + " (*"@ + name_text(
                        es[i].name,
                    ) + ")"@ + list,
                ),
            }
        },
{
    lemma_function_pointer_keeps(chain_from(es, i, es.len())->Ok_0.steps);
}

/// The function type at position `t` stands in the parameter list of the
/// entry at position `s`: it is the last function type in the chain of one
/// of the formal parameters of `s`.
pub open spec fn nests(es: Seq<EntryView>, s: int, t: int) -> bool {
    exists|p: int|
        #![trigger parameters_of(es, s).contains(p)]
        parameters_of(es, s).contains(p) && chain_from(es, p, es.len()) is Ok && last_subroutine(
            chain_from(es, p, es.len())->Ok_0.steps,
        ) == Some(t)
}

/// Each entry of the path but the first stands in the parameter list of the
/// one before it.
pub open spec fn is_nest(es: Seq<EntryView>, path: Seq<int>) -> bool {
    forall|k: int| 0 <= k < path.len() - 1 ==> nests(es, #[trigger] path[k], path[k + 1])
}

/// No chain of the unit runs in a circle.
pub open spec fn chains_end(es: Seq<EntryView>) -> bool {
    forall|j: int| #[trigger] chain_from(es, j, es.len()) != Err::<Chain, Fault>(Fault::EndlessType)
}

/// Some entry stands on the path twice.
pub open spec fn repeats(path: Seq<int>) -> bool {
    exists|a: int, b: int| 0 <= a < b < path.len() && path[a] == path[b]
}

/// A function type in a parameter list is an entry of the unit.
proof fn lemma_nested_is_entry(es: Seq<EntryView>, s: int, t: int)
    requires
        nests(es, s, t),
    ensures
        0 <= t < es.len(),
{
    let p = choose|p: int|
        #![trigger parameters_of(es, s).contains(p)]
        parameters_of(es, s).contains(p) && chain_from(es, p, es.len()) is Ok && last_subroutine(
            chain_from(es, p, es.len())->Ok_0.steps,
        ) == Some(t);
    let steps = chain_from(es, p, es.len())->Ok_0.steps;
    lemma_chain_indices(es, p, es.len());
    lemma_last_subroutine_is_link(steps);
}

/// Declarations that are found endless hold one that is.
proof fn lemma_endless_among(es: Seq<EntryView>, js: Seq<int>, depth: nat) -> (p: int)
    requires
        declarations(es, js, depth) == Err::<Seq<Seq<char>>, Fault>(Fault::EndlessType),
    ensures
        js.contains(p),
        declaration(es, p, depth) == Err::<Seq<char>, Fault>(Fault::EndlessType),
    decreases js.len(),
{
    if declarations(es, js.drop_last(), depth) is Err {
        let p = lemma_endless_among(es, js.drop_last(), depth);
        let k = choose|k: int| 0 <= k < js.drop_last().len() && js.drop_last()[k] == p;
        assert(js[k] == p);
        p
    } else {
        assert(js[js.len() - 1] == js.last());
        js.last()
    }
}

/// A parameter list that is found endless, in a unit whose chains all end,
/// begins a nest of function types as deep as `depth` allows and one
/// deeper.
proof fn lemma_endless_nest(es: Seq<EntryView>, s: int, depth: nat) -> (path: Seq<int>)
    requires
        chains_end(es),
        parameter_list(es, s, depth) == Err::<Seq<char>, Fault>(Fault::EndlessType),
    ensures
        is_nest(es, path),
        path.len() == depth + 2,
        path[0] == s,
    decreases depth,
{
    let p = lemma_endless_among(es, parameters_of(es, s), depth);
    assert(chain_from(es, p, es.len()) != Err::<Chain, Fault>(Fault::EndlessType));
    let c = chain_from(es, p, es.len())->Ok_0;
    let t = last_subroutine(c.steps)->0;
    assert(nests(es, s, t));
    if depth == 0 {
        let path = seq![s, t];
        assert(is_nest(es, path));
        path
    } else {
        let rest = lemma_endless_nest(es, t, (depth - 1) as nat);
        let path = seq![s] + rest;
        assert forall|k: int| 0 <= k < path.len() - 1 implies nests(
            es,
            #[trigger] path[k],
            path[k + 1],
        ) by {
            if k > 0 {
                assert(path[k] == rest[k - 1]);
                assert(path[k + 1] == rest[k]);
                assert(nests(es, rest[k - 1], rest[k - 1 + 1]));
            }
        }
        path
    }
}

/// A function whose signature is found endless has a chain that runs in a
/// circle, or function types that nest in a circle: each in the parameter
/// list of the one before, and one of them twice. The depth that
/// `signature` allows is enough for every function without such a circle.
pub proof fn lemma_endless_signature_is_circular(es: Seq<EntryView>, i: int)
    requires
        0 <= i < es.len(),
        signature(es, i) == Err::<(Seq<char>, Seq<char>), Fault>(Fault::EndlessType),
    ensures
        !chains_end(es) || exists|path: Seq<int>| #[trigger] is_nest(es, path) && repeats(path),
{
    if chains_end(es) {
        let n = es.len();
        assert(chain_from(es, i, n) != Err::<Chain, Fault>(Fault::EndlessType));
        let path = if declaration(es, i, n) is Err {
            let c = chain_from(es, i, n)->Ok_0;
            let t = last_subroutine(c.steps)->0;
            lemma_chain_indices(es, i, n);
            lemma_last_subroutine_is_link(c.steps);
            let path = lemma_endless_nest(es, t, (n - 1) as nat);
            assert forall|k: int| 0 <= k < path.len() implies 0 <= #[trigger] path[k] < n by {
                if k > 0 {
                    assert(nests(es, path[k - 1], path[k - 1 + 1]));
                    lemma_nested_is_entry(es, path[k - 1], path[k]);
                }
            }
            lemma_pigeonhole(path, n);
            path
        } else {
            let path = lemma_endless_nest(es, i, n);
            let tail = path.skip(1);
            assert forall|k: int| 0 <= k < tail.len() implies 0 <= #[trigger] tail[k] < n by {
                assert(nests(es, path[k], path[k + 1]));
                lemma_nested_is_entry(es, path[k], path[k + 1]);
            }
            lemma_pigeonhole(tail, n);
            let (a, b) = choose|a: int, b: int| 0 <= a < b < tail.len() && tail[a] == tail[b];
            assert(0 <= a + 1 < b + 1 < path.len() && path[a + 1] == path[b + 1]);
            path
        };
        assert(is_nest(es, path) && repeats(path));
    }
}

/// The positions as plain integers.
pub open spec fn ints(v: Seq<usize>) -> Seq<int> {
    Seq::new(v.len(), |k: int| v[k] as int)
}

/// The texts of the strings.
pub open spec fn texts(v: Seq<String>) -> Seq<Seq<char>> {
    Seq::new(v.len(), |k: int| v[k]@)
}

/// Finds the formal parameters that are direct children of the entry at
/// position `i`.
pub fn parameters(unit: &Unit, i: usize) -> (r: Vec<usize>)
    requires
        i < unit@.len(),
    ensures
        ints(r@) == parameters_of(unit@, i as int),
        forall|k: int| 0 <= k < r@.len() ==> r@[k] < unit@.len(),
{
    let ghost es = unit@;
    let n = unit.len();
    let depth = unit.entry(i).depth;
    let mut found: Vec<usize> = Vec::new();
    let mut j: usize = i + 1;
    assert(ints(found@) =~= parameters_in(es, i as int, i + 1, j as int));
    while j < n && unit.entry(j).depth > depth
        invariant
            es == unit@,
            n == es.len(),
            i < n,
            depth == es[i as int].depth,
            i + 1 <= j <= n,
            subtree_end(es, i as int, i + 1) == subtree_end(es, i as int, j as int),
            ints(found@) == parameters_in(es, i as int, i + 1, j as int),
            forall|k: int| 0 <= k < found@.len() ==> found@[k] < n,
        decreases n - j,
    {
        let entry = unit.entry(j);
        let ghost before = ints(found@);
        if entry.depth - 1 == depth && entry.tag == Tag::FormalParameter {
            found.push(j);
            assert(ints(found@) =~= before.push(j as int));
        }
        j = j + 1;
    }
    found
}

/// Puts `", "` between the items.
pub fn join_items(items: &Vec<String>) -> (r: String)
    ensures
        r@ == join(texts(items@)),
{
    let mut out = String::new();
    let mut k: usize = 0;
    let ghost all = texts(items@);
    assert(all.take(0) =~= Seq::<Seq<char>>::empty());
    while k < items.len()
        invariant
            k <= items.len(),
            all == texts(items@),
            out@ == join(all.take(k as int)),
        decreases items.len() - k,
    {
        proof {
            let next = all.take(k + 1);
            assert(next.drop_last() =~= all.take(k as int));
            assert(next.last() == items@[k as int]@);
            if k == 0 {
                assert(out@ + next[0] =~= next[0]);
            }
        }
        if k > 0 {
            out.append(", ");
        }
        out.append(items[k].as_str());
        k = k + 1;
    }
    assert(all.take(k as int) =~= all);
    out
}

/// Declares the entry at position `i` with its type.
pub fn get_parameter(unit: &Unit, i: usize, depth: usize) -> (r: Result<String, Fault>)
    requires
        i < unit@.len(),
    ensures
        match r {
            Ok(s) => declaration(unit@, i as int, depth as nat) == Ok::<Seq<char>, Fault>(s@),
            Err(e) => declaration(unit@, i as int, depth as nat) == Err::<Seq<char>, Fault>(e),
        },
    decreases depth, 0nat, 0nat,
{
    let entry = unit.entry(i);
    if let Name::Unreadable = entry.name {
        return Err(Fault::UnreadableName(entry.offset));
    }
    let chain = match resolve(unit, i) {
        Ok(chain) => chain,
        Err(e) => {
            return Err(e);
        },
    };
    let (qualifiers, subroutine) = keep(&chain.steps);
    let mut out = specifier_text(&chain.base, &qualifiers);
    if let Some(at) = subroutine {
        if depth == 0 {
            return Err(Fault::EndlessType);
        }
        let list = match dump_parameters(unit, at, depth - 1) {
            Ok(list) => list,
            Err(e) => {
                return Err(e);
            },
        };
        out.append(" (*");
        if let Name::Text(name) = &entry.name {
            out.append(name.as_str());
        } else {
            assert(out@ + Seq::<char>::empty() =~= out@);
        }
        out.append(")");
        out.append(list.as_str());
        Ok(out)
    } else {
        if let Name::Text(name) = &entry.name {
            out.append(" ");
            out.append(name.as_str());
        }
        Ok(out)
    }
}

/// Lists the parameters of the entry at position `i` in parentheses.
pub fn dump_parameters(unit: &Unit, i: usize, depth: usize) -> (r: Result<String, Fault>)
    requires
        i < unit@.len(),
    ensures
        match r {
            Ok(s) => parameter_list(unit@, i as int, depth as nat) == Ok::<Seq<char>, Fault>(s@),
            Err(e) => parameter_list(unit@, i as int, depth as nat) == Err::<Seq<char>, Fault>(
                e,
            ),
        },
    decreases depth, 2nat, 0nat,
{
    let ghost es = unit@;
    let found = parameters(unit, i);
    let ghost js = ints(found@);
    let mut items: Vec<String> = Vec::new();
    let mut k: usize = 0;
    assert(js.take(0) =~= Seq::<int>::empty());
    assert(texts(items@) =~= Seq::<Seq<char>>::empty());
    while k < found.len()
        invariant
            es == unit@,
            js == ints(found@),
            js == parameters_of(es, i as int),
            k <= found.len(),
            forall|k: int| 0 <= k < found@.len() ==> found@[k] < es.len(),
            declarations(es, js.take(k as int), depth as nat) == Ok::<Seq<Seq<char>>, Fault>(
                texts(items@),
            ),
        decreases found.len() - k,
    {
        proof {
            let next = js.take(k + 1);
            assert(next.drop_last() =~= js.take(k as int));
            assert(next.last() == found@[k as int] as int);
        }
        let ghost before = texts(items@);
        match get_parameter(unit, found[k], depth) {
            Ok(item) => {
                items.push(item);
                assert(texts(items@) =~= before.push(item@));
            },
            Err(e) => {
                proof {
                    assert(declarations(es, js.take(k + 1), depth as nat) == Err::<
                        Seq<Seq<char>>,
                        Fault,
                    >(e));
                    lemma_declarations_fail(es, js, k + 1, depth as nat);
                }
                return Err(e);
            },
        }
        k = k + 1;
    }
    assert(js.take(k as int) =~= js);
    let mut out = String::from_str("(");
    out.append(join_items(&items).as_str());
    out.append(")");
    Ok(out)
}

/// The name of a function and its signature.
#[derive(Clone, Debug, PartialEq, Eq)]
pub struct Signature {
    /// The name that the function is declared with.
    pub name: String,
    /// The whole signature: result, name and parameter list.
    pub text: String,
}

/// Builds the signature of the function entry at position `i`.
pub fn dump_subprogram(unit: &Unit, i: usize) -> (r: Result<Signature, Fault>)
    requires
        i < unit@.len(),
    ensures
        match r {
            Ok(s) => signature(unit@, i as int) == Ok::<(Seq<char>, Seq<char>), Fault>(
                (s.name@, s.text@),
            ),
            Err(e) => signature(unit@, i as int) == Err::<(Seq<char>, Seq<char>), Fault>(e),
        },
{
    let entry = unit.entry(i);
    let name = match &entry.name {
        Name::Text(name) => name.clone(),
        Name::Absent => {
            return Err(Fault::MissingName(entry.offset));
        },
        Name::Unreadable => {
            return Err(Fault::UnreadableName(entry.offset));
        },
    };
    let depth = unit.len();
    let mut text = match get_parameter(unit, i, depth) {
        Ok(head) => head,
        Err(e) => {
            return Err(e);
        },
    };
    let list = match dump_parameters(unit, i, depth) {
        Ok(list) => list,
        Err(e) => {
            return Err(e);
        },
    };
    text.append(list.as_str());
    Ok(Signature { name, text })
}

} // verus!
