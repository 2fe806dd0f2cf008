//! A table from text to text that keeps its keys in ascending order.

use crate::text::{lemma_precedes_asymmetric, lemma_precedes_transitive, precedes, rank, Rank};
use vstd::prelude::*;

verus! {

/// A key and a value, as plain sequences of characters.
pub type Pair = (Seq<char>, Seq<char>);

/// The keys of `ps` stand in strictly ascending order.
pub open spec fn ascending(ps: Seq<Pair>) -> bool {
    forall|i: int, j: int| 0 <= i < j < ps.len() ==> precedes(#[trigger] ps[i].0, #[trigger] ps[j].0)
}

/// `k` is the key of the pair at position `i`.
pub open spec fn key_at(ps: Seq<Pair>, k: Seq<char>, i: int) -> bool {
    0 <= i < ps.len() && ps[i].0 == k
}

/// Some pair of `ps` has the key `k`.
pub open spec fn has_key(ps: Seq<Pair>, k: Seq<char>) -> bool {
    exists|i: int| key_at(ps, k, i)
}

/// The map that a list of pairs stands for.
pub open spec fn map_of(ps: Seq<Pair>) -> Map<Seq<char>, Seq<char>> {
    Map::new(|k: Seq<char>| has_key(ps, k), |k: Seq<char>| ps[choose|i: int| key_at(ps, k, i)].1)
}

/// In an ascending list a key stands at one position only, so the map gives
/// each key the value beside it.
pub proof fn lemma_map_of_index(ps: Seq<Pair>, i: int)
    requires
        ascending(ps),
        0 <= i < ps.len(),
    ensures
        map_of(ps).contains_key(ps[i].0),
        map_of(ps)[ps[i].0] == ps[i].1,
{
    let k = ps[i].0;
    assert(key_at(ps, k, i));
    let j = choose|j: int| key_at(ps, k, j);
    if j < i {
        lemma_precedes_asymmetric(ps[j].0, ps[i].0);
    } else if i < j {
        lemma_precedes_asymmetric(ps[i].0, ps[j].0);
    }
}

/// Two ascending lists that stand for the same map are the same list.
pub proof fn lemma_ascending_unique(a: Seq<Pair>, b: Seq<Pair>)
    requires
        ascending(a),
        ascending(b),
        map_of(a) == map_of(b),
    ensures
        a == b,
    decreases a.len(),
{
    if a.len() == 0 {
        if b.len() > 0 {
            lemma_map_of_index(b, 0);
            assert(has_key(a, b[0].0));
        }
        assert(a =~= b);
    } else if b.len() == 0 {
        lemma_map_of_index(a, 0);
        assert(has_key(b, a[0].0));
    } else {
        let la = a.len() - 1;
        let lb = b.len() - 1;
        lemma_map_of_index(a, la);
        lemma_map_of_index(b, lb);
        // the greatest key of each list is a key of the other
        assert(has_key(b, a[la].0));
        assert(has_key(a, b[lb].0));
        let jb = choose|j: int| key_at(b, a[la].0, j);
        let ja = choose|j: int| key_at(a, b[lb].0, j);
        if jb < lb {
            if ja < la {
                lemma_precedes_transitive(a[la].0, b[lb].0, a[la].0);
                lemma_precedes_asymmetric(a[la].0, a[la].0);
            }
            lemma_precedes_asymmetric(b[jb].0, b[lb].0);
        }
        assert(a[la].0 == b[lb].0);
        assert(a[la] == b[lb]);
        let a0 = a.drop_last();
        let b0 = b.drop_last();
        assert forall|k: Seq<char>| has_key(a0, k) implies has_key(b0, k) by {
            let i = choose|i: int| key_at(a0, k, i);
            assert(key_at(a, k, i));
            lemma_map_of_index(a, i);
            assert(has_key(b, k));
            let j = choose|j: int| key_at(b, k, j);
            if j == lb {
                lemma_precedes_asymmetric(a[i].0, a[la].0);
            }
            assert(key_at(b0, k, j));
        }
        assert forall|k: Seq<char>| has_key(b0, k) implies has_key(a0, k) by {
            let i = choose|i: int| key_at(b0, k, i);
            assert(key_at(b, k, i));
            lemma_map_of_index(b, i);
            assert(has_key(a, k));
            let j = choose|j: int| key_at(a, k, j);
            if j == la {
                lemma_precedes_asymmetric(b[i].0, b[lb].0);
            }
            assert(key_at(a0, k, j));
        }
        assert forall|k: Seq<char>| has_key(a0, k) implies map_of(a0)[k] == map_of(b0)[k] by {
            let i = choose|i: int| key_at(a0, k, i);
            let j = choose|j: int| key_at(b0, k, j);
            lemma_map_of_index(a0, i);
            lemma_map_of_index(b0, j);
            lemma_map_of_index(a, i);
            lemma_map_of_index(b, j);
        }
        assert(map_of(a0) =~= map_of(b0));
        lemma_ascending_unique(a0, b0);
        assert(a =~= a0.push(a[la]));
        assert(b =~= b0.push(b[lb]));
    }
}

/// The entries as plain pairs.
spec fn pairs_of(rows: Seq<Slot>) -> Seq<Pair> {
    Seq::new(rows.len(), |i: int| (rows[i].key@, rows[i].value@))
}

/// One entry of a table.
struct Slot {
    key: String,
    value: String,
}

/// A finite map from text to text, held as a list of entries whose keys
/// ascend in code-point order.
pub struct Table {
    rows: Vec<Slot>,
}

impl View for Table {
    type V = Map<Seq<char>, Seq<char>>;

    open spec fn view(&self) -> Map<Seq<char>, Seq<char>> {
        map_of(self.pairs())
    }
}

impl Table {
    #[verifier::type_invariant]
    spec fn inv(&self) -> bool {
        ascending(self.pairs())
    }

    /// The entries in ascending order of their keys.
    pub closed spec fn pairs(&self) -> Seq<Pair> {
        pairs_of(self.rows@)
    }

    /// The empty table.
    pub fn new() -> (t: Table)
        ensures
            t.pairs() == Seq::<Pair>::empty(),
            t@ == Map::<Seq<char>, Seq<char>>::empty(),
    {
        let t = Table { rows: Vec::new() };
        assert(t.pairs() =~= Seq::<Pair>::empty());
        assert(t@ =~= Map::<Seq<char>, Seq<char>>::empty()) by {
            assert forall|k: Seq<char>| !has_key(t.pairs(), k) by {
                if has_key(t.pairs(), k) {
                    let i = choose|i: int| key_at(t.pairs(), k, i);
                }
            }
        }
        t
    }

    /// The number of entries. The entries ascend by key.
    pub fn len(&self) -> (n: usize)
        ensures
            n == self.pairs().len(),
            ascending(self.pairs()),
    {
        proof {
            use_type_invariant(self);
        }
        self.rows.len()
    }

    /// The key of the entry at position `i`.
    pub fn key(&self, i: usize) -> (k: &String)
        requires
            i < self.pairs().len(),
        ensures
            k@ == self.pairs()[i as int].0,
    {
        &self.rows[i].key
    }

    /// The value of the entry at position `i`.
    pub fn value(&self, i: usize) -> (v: &String)
        requires
            i < self.pairs().len(),
        ensures
            v@ == self.pairs()[i as int].1,
    {
        &self.rows[i].value
    }

    /// Where `key` stands, or where it would have to be put.
    ///
    /// Returns the position and whether the key is there. Every key before
    /// the position precedes `key`; when the key is absent, `key` precedes
    /// every key from the position on.
    fn locate(&self, key: &str) -> (r: (usize, bool))
        ensures
            r.0 <= self.pairs().len(),
            r.1 ==> key_at(self.pairs(), key@, r.0 as int),
            r.1 == has_key(self.pairs(), key@),
            forall|i: int| 0 <= i < r.0 ==> precedes(#[trigger] self.pairs()[i].0, key@),
            !r.1 ==> forall|i: int|
                r.0 <= i < self.pairs().len() ==> precedes(key@, #[trigger] self.pairs()[i].0),
    {
        proof {
            use_type_invariant(self);
        }
        let ghost ps = self.pairs();
        let mut lo: usize = 0;
        let mut hi: usize = self.rows.len();
        while lo < hi
            invariant
                ps == self.pairs(),
                ascending(ps),
                lo <= hi <= ps.len(),
                ps.len() == self.rows@.len(),
                forall|i: int| 0 <= i < lo ==> precedes(#[trigger] ps[i].0, key@),
                forall|i: int| hi <= i < ps.len() ==> precedes(key@, #[trigger] ps[i].0),
            decreases hi - lo,
        {
            let mid = lo + (hi - lo) / 2;
            match rank(self.rows[mid].key.as_str(), key) {
                Rank::Equal => {
                    assert(key_at(ps, key@, mid as int));
                    return (mid, true);
                },
                Rank::Lower => {
                    assert forall|i: int| 0 <= i < mid + 1 implies precedes(
                        #[trigger] ps[i].0,
                        key@,
                    ) by {
                        if i < mid {
                            lemma_precedes_transitive(ps[i].0, ps[mid as int].0, key@);
                        }
                    }
                    lo = mid + 1;
                },
                Rank::Higher => {
                    assert forall|i: int| mid <= i < ps.len() implies precedes(
                        key@,
                        #[trigger] ps[i].0,
                    ) by {
                        if mid < i {
                            lemma_precedes_transitive(key@, ps[mid as int].0, ps[i].0);
                        }
                    }
                    hi = mid;
                },
            }
        }
        proof {
            if has_key(ps, key@) {
                let i = choose|i: int| key_at(ps, key@, i);
                if i < lo {
                    lemma_precedes_asymmetric(ps[i].0, key@);
                } else {
                    lemma_precedes_asymmetric(key@, ps[i].0);
                }
            }
        }
        (lo, false)
    }

    /// Tells whether the table has the key.
    pub fn contains_key(&self, key: &str) -> (r: bool)
        ensures
            r == self@.contains_key(key@),
    {
        self.locate(key).1
    }

    /// The value that stands beside `key`, if the table has the key.
    pub fn get(&self, key: &str) -> (r: Option<&String>)
        ensures
            match r {
                Some(v) => self@.contains_key(key@) && v@ == self@[key@],
                None => !self@.contains_key(key@),
            },
    {
        proof {
            use_type_invariant(self);
        }
        let (i, found) = self.locate(key);
        if found {
            proof {
                lemma_map_of_index(self.pairs(), i as int);
            }
            Some(&self.rows[i].value)
        } else {
            None
        }
    }

    /// Puts `value` beside `key`, in place of the value that the key had, if
    /// it had one.
    pub fn insert(&mut self, key: String, value: String)
        ensures
            final(self)@ == old(self)@.insert(key@, value@),
            ascending(final(self).pairs()),
    {
        proof {
            use_type_invariant(&*self);
        }
        let ghost before = self.pairs();
        let (i, found) = self.locate(key.as_str());
        let ghost pair = (key@, value@);
        let mut rows: Vec<Slot> = Vec::new();
        std::mem::swap(&mut self.rows, &mut rows);
        if found {
            rows.set(i, Slot { key, value });
            proof {
                let after = pairs_of(rows@);
                assert(after =~= before.update(i as int, pair));
                assert forall|a: int, b: int| 0 <= a < b < after.len() implies precedes(
                    #[trigger] after[a].0,
                    #[trigger] after[b].0,
                ) by {
                    assert(after[a].0 == before[a].0);
                    assert(after[b].0 == before[b].0);
                }
                lemma_put(before, after, pair.0, pair.1, i as int);
            }
        } else {
            rows.insert(i, Slot { key, value });
            proof {
                let after = pairs_of(rows@);
                assert(after =~= before.insert(i as int, pair));
                assert forall|a: int, b: int| 0 <= a < b < after.len() implies precedes(
                    #[trigger] after[a].0,
                    #[trigger] after[b].0,
                ) by {
                    if a < i {
                        assert(after[a] == before[a]);
                    } else if a > i {
                        assert(after[a] == before[a - 1]);
                    }
                    if b < i {
                        assert(after[b] == before[b]);
                    } else if b > i {
                        assert(after[b] == before[b - 1]);
                    }
                }
                lemma_put(before, after, pair.0, pair.1, i as int);
            }
        }
        self.rows = rows;
    }
}

/// An ascending list that differs from another in holding `(k, v)` at
/// position `i`, as a new pair or in place of the pair with the same key,
/// stands for the other's map with `v` put beside `k`.
proof fn lemma_put(before: Seq<Pair>, after: Seq<Pair>, k: Seq<char>, v: Seq<char>, i: int)
    requires
        ascending(before),
        ascending(after),
        0 <= i <= before.len(),
        (i < before.len() && before[i].0 == k && after == before.update(i, (k, v))) || (!has_key(
            before,
            k,
        ) && after == before.insert(i, (k, v))),
    ensures
        map_of(after) == map_of(before).insert(k, v),
{
    let target = map_of(before).insert(k, v);
    assert(key_at(after, k, i));
    lemma_map_of_index(after, i);
    assert forall|x: Seq<char>| has_key(after, x) implies target.contains_key(x) by {
        let j = choose|j: int| key_at(after, x, j);
        if x != k {
            if after == before.update(i, (k, v)) && i < before.len() && before[i].0 == k {
                assert(key_at(before, x, j));
            } else {
                if j < i {
                    assert(key_at(before, x, j));
                } else {
                    assert(key_at(before, x, j - 1));
                }
            }
        }
    }
    assert forall|x: Seq<char>| target.contains_key(x) implies has_key(after, x) by {
        if x != k {
            let j = choose|j: int| key_at(before, x, j);
            if i < before.len() && before[i].0 == k && after == before.update(i, (k, v)) {
                assert(key_at(after, x, j));
            } else {
                if j < i {
                    assert(key_at(after, x, j));
                } else {
                    assert(key_at(after, x, j + 1));
                }
            }
        }
    }
    assert forall|x: Seq<char>| has_key(after, x) implies map_of(after)[x] == target[x] by {
        let j = choose|j: int| key_at(after, x, j);
        lemma_map_of_index(after, j);
        if x != k {
            if i < before.len() && before[i].0 == k && after == before.update(i, (k, v)) {
                lemma_map_of_index(before, j);
            } else {
                if j < i {
                    lemma_map_of_index(before, j);
                } else {
                    lemma_map_of_index(before, j - 1);
                }
            }
        }
    }
    assert(map_of(after) =~= target);
}

} // verus!
