//! Type chains: from a type reference through pointers and qualifiers to a
//! named type or `void`.

use crate::fault::Fault;
use crate::tree::{index_of, EntryView, Name, NameView, Tag, TypeRef, Unit};
use vstd::prelude::*;
use vstd::string::*;

verus! {

/// One link of a type chain.
#[derive(Clone, Copy, Debug, PartialEq, Eq, Structural)]
pub enum Qualifier {
    Pointer,
    Reference,
    Const,
    Volatile,
    Restrict,
    /// A function type. It adds nothing to the specifiers; it makes the
    /// declaration a function pointer.
    Subroutine,
}

impl Qualifier {
    /// The qualifier that a tag stands for, if it stands for one.
    pub open spec fn of_tag(tag: Tag) -> Option<Qualifier> {
        match tag {
            Tag::PointerType => Some(Qualifier::Pointer),
            Tag::ReferenceType => Some(Qualifier::Reference),
            Tag::ConstType => Some(Qualifier::Const),
            Tag::VolatileType => Some(Qualifier::Volatile),
            Tag::RestrictType => Some(Qualifier::Restrict),
            Tag::SubroutineType => Some(Qualifier::Subroutine),
            _ => None,
        }
    }

    /// What the qualifier adds to a type's specifiers: a marker without a
    /// space before it, or a keyword after one space.
    pub open spec fn text(self) -> Seq<char> {
        match self {
            Qualifier::Pointer => "*"@,
            Qualifier::Reference => "&"@,
            Qualifier::Const => " const"@,
            Qualifier::Volatile => " volatile"@,
            Qualifier::Restrict => " restrict"@,
            Qualifier::Subroutine => ""@,
        }
    }

    /// What the qualifier adds to a type's specifiers.
    pub fn as_str(&self) -> (s: &'static str)
        ensures
            s@ == self.text(),
    {
        match self {
            Qualifier::Pointer => "*",
            Qualifier::Reference => "&",
            Qualifier::Const => " const",
            Qualifier::Volatile => " volatile",
            Qualifier::Restrict => " restrict",
            Qualifier::Subroutine => "",
        }
    }
}

/// Reads a tag as a type qualifier. Any other tag is an error.
pub fn get_type_specifier(tag: Tag) -> (r: Result<Qualifier, Fault>)
    ensures
        r == match Qualifier::of_tag(tag) {
            Some(q) => Ok::<Qualifier, Fault>(q),
            None => Err(Fault::UnknownTag(tag.code_of())),
        },
{
    match tag {
        Tag::PointerType => Ok(Qualifier::Pointer),
        Tag::ReferenceType => Ok(Qualifier::Reference),
        Tag::ConstType => Ok(Qualifier::Const),
        Tag::VolatileType => Ok(Qualifier::Volatile),
        Tag::RestrictType => Ok(Qualifier::Restrict),
        Tag::SubroutineType => Ok(Qualifier::Subroutine),
        _ => Err(Fault::UnknownTag(tag.code())),
    }
}

/// A link of a chain as a plain value: the qualifier, and the position in
/// the unit of the entry that holds it.
pub ghost struct Step {
    pub qualifier: Qualifier,
    pub index: int,
}

/// A type chain as a plain value: its links from the outermost on, and the
/// name at its end.
pub ghost struct Chain {
    pub steps: Seq<Step>,
    pub base: Seq<char>,
}

/// The chain `r` with the links `prefix` before its own.
pub open spec fn prepend(prefix: Seq<Step>, r: Result<Chain, Fault>) -> Result<Chain, Fault> {
    match r {
        Ok(c) => Ok(Chain { steps: prefix + c.steps, base: c.base }),
        Err(e) => Err(e),
    }
}

/// The chain of the type of the entry at position `holder`.
///
/// The chain follows type references from entry to entry. It ends at the
/// first entry that has a name, with that name, or where an entry has no
/// type attribute, with `void`. Every entry passed on the way must be a type
/// qualifier. `fuel` bounds the number of links: a chain that needs more runs
/// in a circle.
pub open spec fn chain_from(es: Seq<EntryView>, holder: int, fuel: nat) -> Result<Chain, Fault>
    decreases fuel,
{
    match es[holder].type_ref {
        TypeRef::Absent => Ok(Chain { steps: Seq::empty(), base: "void"@ }),
        TypeRef::Unsupported => Err(Fault::UnsupportedReference(es[holder].offset)),
        TypeRef::At(off) => match index_of(es, off) {
            None => Err(Fault::DanglingReference(off)),
            Some(i) => match es[i].name {
                NameView::Text(name) => Ok(Chain { steps: Seq::empty(), base: name }),
                NameView::Unreadable => Err(Fault::UnreadableName(es[i].offset)),
                NameView::Absent => match Qualifier::of_tag(es[i].tag) {
                    None => Err(Fault::UnknownTag(es[i].tag.code_of())),
                    Some(q) => if fuel == 0 {
                        Err(Fault::EndlessType)
                    } else {
                        prepend(
                            seq![Step { qualifier: q, index: i }],
                            chain_from(es, i, (fuel - 1) as nat),
                        )
                    },
                },
            },
        },
    }
}

/// The qualifiers that make the specifiers of a type: those of the chain, in
/// its order, but that a function type takes the place of the link before
/// it, which is the pointer to the function.
pub open spec fn kept(steps: Seq<Step>) -> Seq<Qualifier>
    decreases steps.len(),
{
    if steps.len() == 0 {
        Seq::empty()
    } else {
        let before = kept(steps.drop_last());
        let q = steps.last().qualifier;
        if q == Qualifier::Subroutine && before.len() > 0 {
            before.drop_last().push(q)
        } else {
            before.push(q)
        }
    }
}

/// The position in the unit of the last function type of the chain.
pub open spec fn last_subroutine(steps: Seq<Step>) -> Option<int>
    decreases steps.len(),
{
    if steps.len() == 0 {
        None
    } else if steps.last().qualifier == Qualifier::Subroutine {
        Some(steps.last().index)
    } else {
        last_subroutine(steps.drop_last())
    }
}

/// The texts of the qualifiers, one after the other.
pub open spec fn joined(qs: Seq<Qualifier>) -> Seq<char>
    decreases qs.len(),
{
    if qs.len() == 0 {
        Seq::empty()
    } else {
        joined(qs.drop_last()) + qs.last().text()
    }
}

/// The specifiers of the type that a chain describes: the name at its end,
/// then what each kept qualifier adds, in the order of the chain.
pub open spec fn specifiers(c: Chain) -> Seq<char> {
    c.base + joined(kept(c.steps))
}

/// The chain describes a function pointer: a function type stands in it.
pub open spec fn is_function_pointer(c: Chain) -> bool {
    last_subroutine(c.steps) is Some
}

/// The qualifiers of the links, in the order of the chain.
pub open spec fn qualifiers_of(steps: Seq<Step>) -> Seq<Qualifier> {
    Seq::new(steps.len(), |k: int| steps[k].qualifier)
}

/// The position of the entry at which the chain of the entry at position
/// `holder` ends: the entry of the last link, or the holder itself.
pub open spec fn chain_end(holder: int, c: Chain) -> int {
    if c.steps.len() == 0 {
        holder
    } else {
        c.steps.last().index
    }
}

/// An entry without a type attribute has the type `void`, whatever else the
/// unit holds.
pub proof fn lemma_absent_type_is_void(es: Seq<EntryView>, holder: int, fuel: nat)
    requires
        es[holder].type_ref == TypeRef::Absent,
    ensures
        chain_from(es, holder, fuel) matches Ok(c) && specifiers(c) == "void"@ && !is_function_pointer(c),
{
    let c = chain_from(es, holder, fuel)->Ok_0;
    assert(c.steps =~= Seq::<Step>::empty());
    assert(specifiers(c) =~= "void"@);
}

/// A chain that ends at an entry without a type attribute ends in `void`:
/// the specifiers are `void` followed by what the kept qualifiers add.
pub proof fn lemma_chain_ends_in_void(es: Seq<EntryView>, holder: int, fuel: nat)
    requires
        chain_from(es, holder, fuel) is Ok,
        es[chain_end(holder, chain_from(es, holder, fuel)->Ok_0)].type_ref == TypeRef::Absent,
    ensures
        chain_from(es, holder, fuel)->Ok_0.base == "void"@,
        specifiers(chain_from(es, holder, fuel)->Ok_0) == "void"@ + joined(
            kept(chain_from(es, holder, fuel)->Ok_0.steps),
        ),
    decreases fuel,
{
    let c = chain_from(es, holder, fuel)->Ok_0;
    match es[holder].type_ref {
        TypeRef::At(off) => {
            let i = index_of(es, off)->0;
            if es[i].name == NameView::Absent {
                let q = Qualifier::of_tag(es[i].tag)->0;
                let inner = chain_from(es, i, (fuel - 1) as nat)->Ok_0;
                assert(c.steps =~= seq![Step { qualifier: q, index: i }] + inner.steps);
                if inner.steps.len() > 0 {
                    assert(c.steps.last() == inner.steps.last());
                }
                lemma_chain_ends_in_void(es, i, (fuel - 1) as nat);
            }
        },
        _ => {},
    }
}

/// Where no link of a chain is a function type, every qualifier is kept, in
/// the order of the chain, and the type is no function pointer.
pub proof fn lemma_plain_chain_keeps_all(steps: Seq<Step>)
    requires
        forall|k: int| 0 <= k < steps.len() ==> steps[k].qualifier != Qualifier::Subroutine,
    ensures
        kept(steps) == qualifiers_of(steps),
        last_subroutine(steps) is None,
    decreases steps.len(),
{
    if steps.len() > 0 {
        lemma_plain_chain_keeps_all(steps.drop_last());
        assert(kept(steps) =~= qualifiers_of(steps));
    } else {
        assert(kept(steps) =~= qualifiers_of(steps));
    }
}

/// What qualifiers add to the specifiers, they add in their order: the text
/// of two runs of qualifiers is the text of the first followed by the text
/// of the second.
pub proof fn lemma_joined_in_order(a: Seq<Qualifier>, b: Seq<Qualifier>)
    ensures
        joined(a + b) == joined(a) + joined(b),
    decreases b.len(),
{
    if b.len() == 0 {
        assert(a + b =~= a);
        assert(joined(a) + joined(b) =~= joined(a));
    } else {
        lemma_joined_in_order(a, b.drop_last());
        assert((a + b).drop_last() =~= a + b.drop_last());
        assert((a + b).last() == b.last());
        assert(joined(a + b) =~= joined(a) + joined(b));
    }
}

/// A chain that comes to its end does so whatever fuel is left over: with
/// more fuel the result is the same.
pub proof fn lemma_chain_fuel(es: Seq<EntryView>, holder: int, fuel: nat, more: nat)
    requires
        fuel <= more,
        chain_from(es, holder, fuel) != Err::<Chain, Fault>(Fault::EndlessType),
    ensures
        chain_from(es, holder, more) == chain_from(es, holder, fuel),
    decreases fuel,
{
    match es[holder].type_ref {
        TypeRef::At(off) => {
            match index_of(es, off) {
                Some(i) => {
                    if es[i].name == NameView::Absent && Qualifier::of_tag(es[i].tag) is Some
                        && fuel > 0 {
                        lemma_chain_fuel(es, i, (fuel - 1) as nat, (more - 1) as nat);
                    }
                },
                None => {},
            }
        },
        _ => {},
    }
}

/// The qualifiers of a chain, in its order, without those that stand
/// directly before a function type.
pub open spec fn survivors(steps: Seq<Step>) -> Seq<Qualifier>
    decreases steps.len(),
{
    if steps.len() == 0 {
        Seq::empty()
    } else if steps.len() >= 2 && steps[1].qualifier == Qualifier::Subroutine {
        survivors(steps.drop_first())
    } else {
        seq![steps[0].qualifier] + survivors(steps.drop_first())
    }
}

/// What one more link does to the survivors of a chain: a function type
/// takes the place of the last of them, any other link comes after them.
/// The last link of a chain always survives.
proof fn lemma_survivors_push(s: Seq<Step>, x: Step)
    ensures
        survivors(s.push(x)) == if x.qualifier == Qualifier::Subroutine && s.len() > 0 {
            survivors(s).drop_last().push(x.qualifier)
        } else {
            survivors(s).push(x.qualifier)
        },
        s.len() > 0 ==> survivors(s).len() > 0 && survivors(s).last() == s.last().qualifier,
    decreases s.len(),
{
    let all = s.push(x);
    if s.len() == 0 {
        assert(all.drop_first() =~= Seq::<Step>::empty());
        assert(s =~= Seq::<Step>::empty());
        assert(survivors(all.drop_first()) =~= Seq::<Qualifier>::empty());
        assert(all[0] == x);
        assert(survivors(all) =~= survivors(s).push(x.qualifier));
    } else {
        let t = s.drop_first();
        lemma_survivors_push(t, x);
        assert(all.drop_first() =~= t.push(x));
        if s.len() == 1 {
            assert(t =~= Seq::<Step>::empty());
            assert(all[1] == x);
            assert(survivors(s) =~= seq![s[0].qualifier]);
            if x.qualifier == Qualifier::Subroutine {
                assert(survivors(all) =~= survivors(s).drop_last().push(x.qualifier));
            } else {
                assert(survivors(all) =~= survivors(s).push(x.qualifier));
            }
        } else {
            assert(all[1] == s[1]);
            assert(t.last() == s.last());
            if s[1].qualifier != Qualifier::Subroutine {
                let a = survivors(t);
                let head = seq![s[0].qualifier];
                if x.qualifier == Qualifier::Subroutine {
                    assert(head + a.drop_last().push(x.qualifier) =~= (head + a).drop_last().push(
                        x.qualifier,
                    ));
                } else {
                    assert(head + a.push(x.qualifier) =~= (head + a).push(x.qualifier));
                }
                assert((head + a).last() == a.last());
            }
        }
    }
}

/// The kept qualifiers of a chain are all its qualifiers but those that
/// stand directly before a function type.
pub proof fn lemma_kept_is_survivors(steps: Seq<Step>)
    ensures
        kept(steps) == survivors(steps),
    decreases steps.len(),
{
    if steps.len() > 0 {
        lemma_kept_is_survivors(steps.drop_last());
        lemma_survivors_push(steps.drop_last(), steps.last());
        assert(steps.drop_last().push(steps.last()) =~= steps);
    }
}

/// Where the last function type of a chain is its link `k`, the chain from
/// there on keeps that link and what follows it; the links before it do not
/// change that.
pub proof fn lemma_last_subroutine_at(steps: Seq<Step>, k: int)
    requires
        0 <= k < steps.len(),
        steps[k].qualifier == Qualifier::Subroutine,
        forall|j: int| k < j < steps.len() ==> steps[j].qualifier != Qualifier::Subroutine,
    ensures
        last_subroutine(steps) == Some(steps[k].index),
    decreases steps.len(),
{
    if k < steps.len() - 1 {
        lemma_last_subroutine_at(steps.drop_last(), k);
    }
}

/// A chain that opens with a pointer to a function type and holds no other
/// function type keeps the function type in place of the pointer, and after
/// it every qualifier of the result, in the order of the chain.
pub proof fn lemma_function_pointer_keeps(steps: Seq<Step>)
    requires
        steps.len() >= 2,
        steps[1].qualifier == Qualifier::Subroutine,
        forall|j: int| 2 <= j < steps.len() ==> steps[j].qualifier != Qualifier::Subroutine,
    ensures
        kept(steps) == seq![Qualifier::Subroutine] + qualifiers_of(steps.skip(2)),
        joined(kept(steps)) == joined(qualifiers_of(steps.skip(2))),
        last_subroutine(steps) == Some(steps[1].index),
{
    let rest = steps.skip(2);
    lemma_kept_is_survivors(steps);
    lemma_kept_is_survivors(rest);
    lemma_plain_chain_keeps_all(rest);
    lemma_last_subroutine_at(steps, 1);
    let tail = steps.drop_first();
    assert(tail.drop_first() =~= rest);
    assert(tail[0] == steps[1]);
    if tail.len() >= 2 {
        assert(tail[1] == steps[2]);
    }
    assert(survivors(tail) == seq![Qualifier::Subroutine] + survivors(rest));
    assert(survivors(steps) == survivors(tail));
    let one = seq![Qualifier::Subroutine];
    lemma_joined_in_order(one, qualifiers_of(rest));
    assert(one.drop_last() =~= Seq::<Qualifier>::empty());
    reveal_strlit("");
    assert(""@.len() == 0);
    assert(joined(one.drop_last()) =~= Seq::<char>::empty());
    assert(one.last().text() =~= Seq::<char>::empty());
    assert(joined(one) =~= Seq::<char>::empty());
    assert(joined(one) + joined(qualifiers_of(rest)) =~= joined(qualifiers_of(rest)));
}

/// The link that follows the entry at position `i` in a chain: the entry
/// that the type attribute of `i` refers to, where that is a qualifier
/// without a name.
pub open spec fn next_link(es: Seq<EntryView>, i: int) -> Option<int> {
    match es[i].type_ref {
        TypeRef::At(off) => match index_of(es, off) {
            Some(j) => if es[j].name == NameView::Absent && Qualifier::of_tag(es[j].tag) is Some {
                Some(j)
            } else {
                None
            },
            None => None,
        },
        _ => None,
    }
}

/// The position of the `k`-th link of the chain of the entry at position
/// `holder`, if the chain has so many; the holder itself counts as link 0.
pub open spec fn link(es: Seq<EntryView>, holder: int, k: nat) -> Option<int>
    decreases k,
{
    if k == 0 {
        Some(holder)
    } else {
        match link(es, holder, (k - 1) as nat) {
            Some(i) => next_link(es, i),
            None => None,
        }
    }
}

/// The links of a chain are the links of the chain of its first link, one
/// further on.
proof fn lemma_link_shift(es: Seq<EntryView>, holder: int, k: nat)
    requires
        next_link(es, holder) is Some,
    ensures
        link(es, holder, k + 1) == link(es, next_link(es, holder)->0, k),
    decreases k,
{
    let first = next_link(es, holder)->0;
    if k > 0 {
        lemma_link_shift(es, holder, (k - 1) as nat);
        assert(link(es, holder, k) == link(es, first, (k - 1) as nat));
    } else {
        assert(link(es, holder, 0) == Some(holder));
        assert(link(es, first, 0) == Some(first));
    }
}

/// A chain that runs out of fuel has more links than it had fuel.
proof fn lemma_endless_has_links(es: Seq<EntryView>, holder: int, fuel: nat)
    requires
        chain_from(es, holder, fuel) == Err::<Chain, Fault>(Fault::EndlessType),
    ensures
        link(es, holder, fuel + 1) is Some,
    decreases fuel,
{
    let i = next_link(es, holder)->0;
    assert(next_link(es, holder) is Some);
    if fuel > 0 {
        lemma_endless_has_links(es, i, (fuel - 1) as nat);
        lemma_link_shift(es, holder, fuel);
    } else {
        assert(link(es, holder, 0) == Some(holder));
    }
}

/// A chain that has a link has all the links before it, and every link but
/// the holder is an entry of the unit.
proof fn lemma_links_before(es: Seq<EntryView>, holder: int, k: nat, j: nat)
    requires
        link(es, holder, k) is Some,
        1 <= j <= k,
    ensures
        link(es, holder, j) is Some,
        0 <= link(es, holder, j)->0 < es.len(),
    decreases k,
{
    if j < k {
        lemma_links_before(es, holder, (k - 1) as nat, j);
    } else {
        let i = link(es, holder, (k - 1) as nat)->0;
        let off = es[i].type_ref->At_0;
        assert(crate::tree::at_offset(es, off, index_of(es, off)->0));
    }
}

/// A chain is found endless only where it runs in a circle: among the links
/// that a unit of `n` entries allows, and the one after them, two are the
/// same entry.
pub proof fn lemma_endless_chain_is_circular(es: Seq<EntryView>, holder: int)
    requires
        chain_from(es, holder, es.len()) == Err::<Chain, Fault>(Fault::EndlessType),
    ensures
        exists|a: nat, b: nat|
            1 <= a < b <= es.len() + 1 && link(es, holder, a) is Some && #[trigger] link(
                es,
                holder,
                a,
            ) == #[trigger] link(es, holder, b),
{
    let n = es.len();
    lemma_endless_has_links(es, holder, n);
    let passed = Seq::new(n + 1, |k: int| link(es, holder, (k + 1) as nat)->0);
    assert forall|k: int| 0 <= k < passed.len() implies 0 <= #[trigger] passed[k] < n by {
        lemma_links_before(es, holder, n + 1, (k + 1) as nat);
    }
    if passed.no_duplicates() {
        passed.unique_seq_to_set();
        vstd::set_lib::lemma_int_range(0, n as int);
        assert(passed.to_set().subset_of(vstd::set_lib::set_int_range(0, n as int))) by {
            assert forall|x: int| passed.to_set().contains(x) implies vstd::set_lib::set_int_range(
                0,
                n as int,
            ).contains(x) by {
                let k = choose|k: int| 0 <= k < passed.len() && passed[k] == x;
                assert(0 <= passed[k] < n);
            }
        }
        vstd::set_lib::lemma_len_subset(passed.to_set(), vstd::set_lib::set_int_range(0, n as int));
        assert(false);
    }
    let (i, j) = choose|i: int, j: int|
        0 <= i < passed.len() && 0 <= j < passed.len() && i != j && passed[i] == passed[j];
    let a = if i < j {
        (i + 1) as nat
    } else {
        (j + 1) as nat
    };
    let b = if i < j {
        (j + 1) as nat
    } else {
        (i + 1) as nat
    };
    lemma_links_before(es, holder, n + 1, a);
    lemma_links_before(es, holder, n + 1, b);
    assert(1 <= a < b <= n + 1 && link(es, holder, a) is Some && link(es, holder, a) == link(
        es,
        holder,
        b,
    ));
}

/// More than `n` numbers below `n` hold one number twice.
pub proof fn lemma_pigeonhole(s: Seq<int>, n: nat)
    requires
        s.len() > n,
        forall|k: int| 0 <= k < s.len() ==> 0 <= #[trigger] s[k] < n,
    ensures
        exists|a: int, b: int| 0 <= a < b < s.len() && s[a] == s[b],
{
    if s.no_duplicates() {
        s.unique_seq_to_set();
        vstd::set_lib::lemma_int_range(0, n as int);
        assert(s.to_set().subset_of(vstd::set_lib::set_int_range(0, n as int))) by {
            assert forall|x: int| s.to_set().contains(x) implies vstd::set_lib::set_int_range(
                0,
                n as int,
            ).contains(x) by {
                let k = choose|k: int| 0 <= k < s.len() && s[k] == x;
                assert(0 <= s[k] < n);
            }
        }
        vstd::set_lib::lemma_len_subset(s.to_set(), vstd::set_lib::set_int_range(0, n as int));
        assert(false);
    }
    let (i, j) = choose|i: int, j: int|
        0 <= i < s.len() && 0 <= j < s.len() && i != j && s[i] == s[j];
    if i < j {
        assert(0 <= i < j < s.len() && s[i] == s[j]);
    } else {
        assert(0 <= j < i < s.len() && s[j] == s[i]);
    }
}

/// Every link of a chain is an entry of the unit.
pub proof fn lemma_chain_indices(es: Seq<EntryView>, holder: int, fuel: nat)
    requires
        chain_from(es, holder, fuel) is Ok,
    ensures
        forall|k: int|
            0 <= k < chain_from(es, holder, fuel)->Ok_0.steps.len() ==> 0 <= (
            #[trigger] chain_from(es, holder, fuel)->Ok_0.steps[k]).index < es.len(),
    decreases fuel,
{
    let c = chain_from(es, holder, fuel)->Ok_0;
    match es[holder].type_ref {
        TypeRef::At(off) => {
            let i = index_of(es, off)->0;
            assert(crate::tree::at_offset(es, off, i));
            if es[i].name == NameView::Absent {
                let q = Qualifier::of_tag(es[i].tag)->0;
                let inner = chain_from(es, i, (fuel - 1) as nat)->Ok_0;
                lemma_chain_indices(es, i, (fuel - 1) as nat);
                assert(c.steps =~= seq![Step { qualifier: q, index: i }] + inner.steps);
                assert forall|k: int| 0 <= k < c.steps.len() implies 0 <= (
                #[trigger] c.steps[k]).index < es.len() by {
                    if k > 0 {
                        assert(c.steps[k] == inner.steps[k - 1]);
                    }
                }
            }
        },
        _ => {},
    }
}

/// The last function type of a chain is one of its links.
pub proof fn lemma_last_subroutine_is_link(steps: Seq<Step>)
    requires
        last_subroutine(steps) is Some,
    ensures
        exists|k: int| 0 <= k < steps.len() && (#[trigger] steps[k]).index == last_subroutine(steps)->0,
    decreases steps.len(),
{
    if steps.last().qualifier == Qualifier::Subroutine {
        assert(steps[steps.len() - 1].index == last_subroutine(steps)->0);
    } else {
        lemma_last_subroutine_is_link(steps.drop_last());
        let k = choose|k: int|
            0 <= k < steps.drop_last().len() && (#[trigger] steps.drop_last()[k]).index
                == last_subroutine(steps)->0;
        assert(steps[k].index == last_subroutine(steps)->0);
    }
}

/// A resolved type chain.
pub struct Resolved {
    /// The links from the outermost on, each with the position of its entry.
    pub steps: Vec<(Qualifier, usize)>,
    /// The name at the end of the chain.
    pub base: String,
}

/// The links as plain values.
pub open spec fn steps_of(steps: Seq<(Qualifier, usize)>) -> Seq<Step> {
    Seq::new(steps.len(), |k: int| Step { qualifier: steps[k].0, index: steps[k].1 as int })
}

impl View for Resolved {
    type V = Chain;

    open spec fn view(&self) -> Chain {
        Chain { steps: steps_of(self.steps@), base: self.base@ }
    }
}

/// Follows the type references from the entry at position `holder` to the
/// end of the chain.
pub fn resolve(unit: &Unit, holder: usize) -> (r: Result<Resolved, Fault>)
    requires
        holder < unit@.len(),
    ensures
        match r {
            Ok(chain) => chain_from(unit@, holder as int, unit@.len()) == Ok::<Chain, Fault>(
                chain@,
            ) && forall|k: int| 0 <= k < chain.steps@.len() ==> chain.steps@[k].1 < unit@.len(),
            Err(e) => chain_from(unit@, holder as int, unit@.len()) == Err::<Chain, Fault>(e),
        },
{
    let ghost es = unit@;
    let n = unit.len();
    let mut steps: Vec<(Qualifier, usize)> = Vec::new();
    let mut at: usize = holder;
    let mut fuel: usize = n;
    assert(steps_of(steps@) + Seq::<Step>::empty() =~= Seq::<Step>::empty());
    loop
        invariant
            es == unit@,
            n == es.len(),
            at < n,
            fuel <= n,
            forall|k: int| 0 <= k < steps@.len() ==> steps@[k].1 < n,
            chain_from(es, holder as int, n as nat) == prepend(
                steps_of(steps@),
                chain_from(es, at as int, fuel as nat),
            ),
        decreases fuel,
    {
        let ghost here = chain_from(es, at as int, fuel as nat);
        match unit.entry(at).type_ref {
            TypeRef::Absent => {
                let base = String::from_str("void");
                let found = Resolved { steps, base };
                assert(found@.steps =~= steps_of(steps@) + Seq::<Step>::empty());
                return Ok(found);
            },
            TypeRef::Unsupported => {
                return Err(Fault::UnsupportedReference(unit.entry(at).offset));
            },
            TypeRef::At(off) => {
                match unit.find(off) {
                    None => {
                        return Err(Fault::DanglingReference(off));
                    },
                    Some(i) => {
                        let entry = unit.entry(i);
                        match &entry.name {
                            Name::Text(name) => {
                                let found = Resolved { steps, base: name.clone() };
                                assert(found@.steps =~= steps_of(steps@) + Seq::<Step>::empty());
                                return Ok(found);
                            },
                            Name::Unreadable => {
                                return Err(Fault::UnreadableName(entry.offset));
                            },
                            Name::Absent => {
                                let q = match get_type_specifier(entry.tag) {
                                    Ok(q) => q,
                                    Err(e) => {
                                        return Err(e);
                                    },
                                };
                                if fuel == 0 {
                                    return Err(Fault::EndlessType);
                                }
                                let ghost before = steps_of(steps@);
                                steps.push((q, i));
                                fuel = fuel - 1;
                                at = i;
                                proof {
                                    let step = Step { qualifier: q, index: i as int };
                                    let next = chain_from(es, i as int, fuel as nat);
                                    assert(here == prepend(seq![step], next));
                                    assert(steps_of(steps@) =~= before + seq![step]);
                                    match next {
                                        Ok(c) => {
                                            assert(before + (seq![step] + c.steps) =~= steps_of(
                                                steps@,
                                            ) + c.steps);
                                        },
                                        Err(_) => {},
                                    }
                                }
                            },
                        }
                    },
                }
            },
        }
    }
}

/// The kept qualifiers of a chain, and the position of its last function
/// type.
pub fn keep(steps: &Vec<(Qualifier, usize)>) -> (r: (Vec<Qualifier>, Option<usize>))
    ensures
        r.0@ == kept(steps_of(steps@)),
        match r.1 {
            Some(i) => last_subroutine(steps_of(steps@)) == Some(i as int) && exists|k: int|
                0 <= k < steps@.len() && steps@[k].1 == i,
            None => last_subroutine(steps_of(steps@)) is None,
        },
{
    let ghost all = steps_of(steps@);
    let mut out: Vec<Qualifier> = Vec::new();
    let mut sub: Option<usize> = None;
    let mut k: usize = 0;
    assert(all.take(0) =~= Seq::<Step>::empty());
    while k < steps.len()
        invariant
            k <= steps.len(),
            all == steps_of(steps@),
            out@ == kept(all.take(k as int)),
            match sub {
                Some(i) => last_subroutine(all.take(k as int)) == Some(i as int) && exists|j: int|
                    0 <= j < steps@.len() && steps@[j].1 == i,
                None => last_subroutine(all.take(k as int)) is None,
            },
        decreases steps.len() - k,
    {
        let (q, i) = steps[k];
        proof {
            let next = all.take(k + 1);
            assert(next.drop_last() =~= all.take(k as int));
            assert(next.last() == all[k as int]);
        }
        if q == Qualifier::Subroutine {
            if out.len() > 0 {
                out.pop();
            }
            sub = Some(i);
        }
        out.push(q);
        k = k + 1;
    }
    assert(all.take(k as int) =~= all);
    (out, sub)
}

/// The specifiers of a resolved type.
pub fn specifier_text(base: &String, qualifiers: &Vec<Qualifier>) -> (s: String)
    ensures
        s@ == base@ + joined(qualifiers@),
{
    let mut out = base.clone();
    let mut k: usize = 0;
    assert(qualifiers@.take(0) =~= Seq::<Qualifier>::empty());
    assert(out@ =~= base@ + joined(qualifiers@.take(0)));
    while k < qualifiers.len()
        invariant
            k <= qualifiers.len(),
            out@ == base@ + joined(qualifiers@.take(k as int)),
        decreases qualifiers.len() - k,
    {
        proof {
            let next = qualifiers@.take(k + 1);
            assert(next.drop_last() =~= qualifiers@.take(k as int));
            assert(next.last() == qualifiers@[k as int]);
        }
        out.append(qualifiers[k].as_str());
        k = k + 1;
        assert(out@ =~= base@ + joined(qualifiers@.take(k as int)));
    }
    assert(qualifiers@.take(k as int) =~= qualifiers@);
    out
}

} // verus!
