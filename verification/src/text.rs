//! Text as sequences of characters: ordering, searching and substitution.
//!
//! Every function here states its result over the `Seq<char>` view of its
//! arguments. Strings are ordered by code point, position by position, which
//! is the order of their UTF-8 bytes.

use vstd::prelude::*;
use vstd::std_specs::iter::IteratorSpec;

verus! {

/// How one text stands to another in code-point order.
#[derive(Clone, Copy, Debug, PartialEq, Eq, Structural)]
pub enum Rank {
    Lower,
    Equal,
    Higher,
}

/// `a` and `b` hold the same characters at every position below `k`.
pub open spec fn agree(a: Seq<char>, b: Seq<char>, k: int) -> bool {
    &&& 0 <= k <= a.len()
    &&& k <= b.len()
    &&& forall|i: int| 0 <= i < k ==> a[i] == b[i]
}

/// `a` sorts before `b`, and position `k` is where that is decided: either
/// `a` ends there and `b` goes on, or `a` holds the smaller character.
pub open spec fn precedes_at(a: Seq<char>, b: Seq<char>, k: int) -> bool {
    &&& agree(a, b, k)
    &&& k < b.len()
    &&& (k == a.len() || a[k] < b[k])
}

/// Strict lexicographic order by code point.
pub open spec fn precedes(a: Seq<char>, b: Seq<char>) -> bool {
    exists|k: int| precedes_at(a, b, k)
}

/// Two texts that agree up to the length of both are the same text.
pub proof fn lemma_agree_full(a: Seq<char>, b: Seq<char>)
    requires
        a.len() == b.len(),
        agree(a, b, a.len() as int),
    ensures
        a == b,
{
    assert(a =~= b);
}

/// The place where `a` is decided to precede `b` is unique, and `b` does not
/// precede `a`.
pub proof fn lemma_precedes_asymmetric(a: Seq<char>, b: Seq<char>)
    requires
        precedes(a, b),
    ensures
        !precedes(b, a),
        a != b,
{
    let k = choose|k: int| precedes_at(a, b, k);
    if precedes(b, a) {
        let j = choose|j: int| precedes_at(b, a, j);
        if j < k {
            assert(a[j] == b[j]);
        } else if k < j {
            assert(b[k] == a[k]);
        }
    }
}

/// The order is transitive.
pub proof fn lemma_precedes_transitive(a: Seq<char>, b: Seq<char>, c: Seq<char>)
    requires
        precedes(a, b),
        precedes(b, c),
    ensures
        precedes(a, c),
{
    let k = choose|k: int| precedes_at(a, b, k);
    let j = choose|j: int| precedes_at(b, c, j);
    if j < k {
        assert(a[j] == b[j]);
        assert(precedes_at(a, c, j));
    } else if k < j {
        assert(b[k] == c[k]);
        assert(precedes_at(a, c, k));
    } else {
        assert(precedes_at(a, c, k));
    }
}

/// Compares two strings by code point.
pub fn rank(a: &str, b: &str) -> (r: Rank)
    ensures
        r is Lower <==> precedes(a@, b@),
        r is Equal <==> a@ == b@,
        r is Higher <==> precedes(b@, a@),
{
    broadcast use vstd::string::group_string_axioms;
    let mut ia = a.chars();
    let mut ib = b.chars();
    let ghost mut k: int = 0;
    loop
        invariant
            ia.obeys_prophetic_iter_laws(),
            ib.obeys_prophetic_iter_laws(),
            ia.decrease() is Some,
            agree(a@, b@, k),
            ia.remaining() == a@.subrange(k, a@.len() as int),
            ib.remaining() == b@.subrange(k, b@.len() as int),
        decreases ia.decrease()->0,
    {
        let ca = ia.next();
        let cb = ib.next();
        match (ca, cb) {
            (None, None) => {
                proof {
                    lemma_agree_full(a@, b@);
                    if precedes(a@, b@) {
                        lemma_precedes_asymmetric(a@, b@);
                    }
                    if precedes(b@, a@) {
                        lemma_precedes_asymmetric(b@, a@);
                    }
                }
                return Rank::Equal;
            },
            (None, Some(_)) => {
                proof {
                    assert(precedes_at(a@, b@, k));
                    lemma_precedes_asymmetric(a@, b@);
                }
                return Rank::Lower;
            },
            (Some(_), None) => {
                proof {
                    assert(agree(b@, a@, k));
                    assert(precedes_at(b@, a@, k));
                    lemma_precedes_asymmetric(b@, a@);
                }
                return Rank::Higher;
            },
            (Some(x), Some(y)) => {
                assert(x == a@[k] && y == b@[k]);
                if x != y {
                    if x < y {
                        proof {
                            assert(precedes_at(a@, b@, k));
                            lemma_precedes_asymmetric(a@, b@);
                        }
                        return Rank::Lower;
                    } else {
                        proof {
                            assert(agree(b@, a@, k));
                            assert(precedes_at(b@, a@, k));
                            lemma_precedes_asymmetric(b@, a@);
                        }
                        return Rank::Higher;
                    }
                }
                proof {
                    assert(ia.remaining() =~= a@.subrange(k + 1, a@.len() as int));
                    assert(ib.remaining() =~= b@.subrange(k + 1, b@.len() as int));
                    k = k + 1;
                }
            },
        }
    }
}

/// The characters of a string, in order.
pub fn chars_of(s: &str) -> (r: Vec<char>)
    ensures
        r@ == s@,
{
    broadcast use vstd::string::group_string_axioms;
    let mut out: Vec<char> = Vec::new();
    let mut it = s.chars();
    loop
        invariant
            it.obeys_prophetic_iter_laws(),
            it.decrease() is Some,
            out@ + it.remaining() == s@,
        ensures
            out@ == s@,
        decreases it.decrease()->0,
    {
        match it.next() {
            Some(c) => {
                out.push(c);
            },
            None => {
                assert(out@ =~= out@ + it.remaining());
                break;
            },
        }
    }
    out
}

/// `pat` stands in `text` at position `i`.
pub open spec fn occurs_at(text: Seq<char>, pat: Seq<char>, i: int) -> bool {
    &&& 0 <= i
    &&& i + pat.len() <= text.len()
    &&& text.subrange(i, i + pat.len()) == pat
}

/// `pat` stands somewhere in `text`.
pub open spec fn contains(text: Seq<char>, pat: Seq<char>) -> bool {
    exists|i: int| occurs_at(text, pat, i)
}

/// `i` is the first position of `text` at which `pat` stands.
pub open spec fn first_at(text: Seq<char>, pat: Seq<char>, i: int) -> bool {
    &&& occurs_at(text, pat, i)
    &&& forall|j: int| 0 <= j < i ==> !occurs_at(text, pat, j)
}

/// `text` with every occurrence of `from` replaced by `to`, reading from the
/// left and never inside a replaced occurrence. An empty `from` stands before
/// every character and at the end.
pub open spec fn substitute(text: Seq<char>, from: Seq<char>, to: Seq<char>) -> Seq<char>
    decreases text.len(),
{
    if from.len() == 0 {
        if text.len() == 0 {
            to
        } else {
            to + seq![text[0]] + substitute(text.drop_first(), from, to)
        }
    } else if occurs_at(text, from, 0) {
        to + substitute(text.subrange(from.len() as int, text.len() as int), from, to)
    } else if text.len() == 0 {
        text
    } else {
        seq![text[0]] + substitute(text.drop_first(), from, to)
    }
}

/// `String::push`: the string afterwards is the string before with `c` at
/// its end.
#[verifier::external_body]
fn push_char(s: &mut String, c: char)
    ensures
        final(s)@ == old(s)@.push(c),
{
    s.push(c)
}

/// The string that holds the given characters.
pub fn string_of(chars: &[char]) -> (r: String)
    ensures
        r@ == chars@,
{
    let mut out = String::new();
    let mut i: usize = 0;
    while i < chars.len()
        invariant
            i <= chars.len(),
            out@ == chars@.subrange(0, i as int),
        decreases chars.len() - i,
    {
        push_char(&mut out, chars[i]);
        i = i + 1;
        assert(out@ =~= chars@.subrange(0, i as int));
    }
    assert(chars@.subrange(0, i as int) =~= chars@);
    out
}

/// Tells whether `pat` stands in `text` at position `i`.
pub fn matches_at(text: &[char], pat: &[char], i: usize) -> (r: bool)
    ensures
        r == occurs_at(text@, pat@, i as int),
{
    if pat.len() > text.len() || i > text.len() - pat.len() {
        return false;
    }
    let mut k: usize = 0;
    while k < pat.len()
        invariant
            k <= pat.len(),
            i + pat.len() <= text.len(),
            forall|j: int| 0 <= j < k ==> text@[i + j] == pat@[j],
        decreases pat.len() - k,
    {
        if text[i + k] != pat[k] {
            assert(text@.subrange(i as int, i + pat.len())[k as int] == text@[i + k]);
            return false;
        }
        k = k + 1;
    }
    assert(text@.subrange(i as int, i + pat.len()) =~= pat@);
    true
}

/// The first position of `text` at which `pat` stands, if there is one.
pub fn find(text: &[char], pat: &[char]) -> (r: Option<usize>)
    ensures
        match r {
            Some(i) => first_at(text@, pat@, i as int),
            None => !contains(text@, pat@),
        },
{
    let mut i: usize = 0;
    while i < text.len()
        invariant
            i <= text.len(),
            forall|j: int| 0 <= j < i ==> !occurs_at(text@, pat@, j),
        decreases text.len() - i,
    {
        if matches_at(text, pat, i) {
            return Some(i);
        }
        i = i + 1;
    }
    if matches_at(text, pat, i) {
        Some(i)
    } else {
        None
    }
}

/// Replaces every occurrence of `from` in `text` by `to`.
pub fn replace(text: &[char], from: &[char], to: &[char]) -> (r: Vec<char>)
    ensures
        r@ == substitute(text@, from@, to@),
{
    let mut out: Vec<char> = Vec::new();
    let mut i: usize = 0;
    let n = text.len();
    assert(out@ + substitute(text@.subrange(0, n as int), from@, to@) =~= substitute(
        text@,
        from@,
        to@,
    )) by {
        assert(text@.subrange(0, n as int) =~= text@);
    }
    loop
        invariant_except_break
            out@ + substitute(text@.subrange(i as int, n as int), from@, to@) == substitute(
                text@,
                from@,
                to@,
            ),
        invariant
            i <= n,
            n == text.len(),
        ensures
            out@ == substitute(text@, from@, to@),
        decreases n - i,
    {
        let ghost rest = text@.subrange(i as int, n as int);
        let ghost before = out@;
        if from.len() == 0 {
            out.extend_from_slice(to);
            if i == n {
                assert(rest =~= Seq::<char>::empty());
                break;
            }
            out.push(text[i]);
            i = i + 1;
            proof {
                assert(rest.drop_first() =~= text@.subrange(i as int, n as int));
                assert(out@ =~= before + (to@ + seq![rest[0]]));
                assert(out@ + substitute(rest.drop_first(), from@, to@) =~= before + substitute(
                    rest,
                    from@,
                    to@,
                ));
            }
        } else if matches_at(text, from, i) {
            proof {
                assert(rest.subrange(0, from@.len() as int) =~= text@.subrange(
                    i as int,
                    i + from@.len(),
                ));
                assert(occurs_at(rest, from@, 0));
                assert(rest.subrange(from@.len() as int, rest.len() as int) =~= text@.subrange(
                    i + from@.len(),
                    n as int,
                ));
            }
            out.extend_from_slice(to);
            i = i + from.len();
            proof {
                assert(out@ + substitute(text@.subrange(i as int, n as int), from@, to@)
                    =~= before + substitute(rest, from@, to@));
            }
        } else {
            proof {
                if occurs_at(rest, from@, 0) {
                    assert(rest.subrange(0, from@.len() as int) =~= text@.subrange(
                        i as int,
                        i + from@.len(),
                    ));
                }
            }
            if i == n {
                assert(rest =~= Seq::<char>::empty());
                assert(out@ + rest =~= out@);
                break;
            }
            out.push(text[i]);
            i = i + 1;
            proof {
                assert(rest.drop_first() =~= text@.subrange(i as int, n as int));
                assert(out@ + substitute(rest.drop_first(), from@, to@) =~= before + substitute(
                    rest,
                    from@,
                    to@,
                ));
            }
        }
    }
    out
}

} // verus!
