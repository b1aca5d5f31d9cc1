//! How often each adjacent pair occurs in a tokenization, and which pair
//! occurs most often.
//!
//! Pairs are tallied in an insertion-ordered map, so the tally is walked in the
//! order in which the pairs first occur. The winner does not depend on that
//! order: among the pairs with the highest count, the one that is smallest by
//! `(left, right)` is taken.

use vstd::prelude::*;
use crate::rewrite::pair_at;
use crate::token_pair::Pair;
use foldhash::fast::FixedState;
use indexmap::IndexMap;

verus! {

/// `indexmap::IndexMap`, an insertion-ordered hash map. Nothing inside it is
/// visible to the verifier.
#[verifier::external_type_specification]
#[verifier::external_body]
#[verifier::reject_recursive_types(K)]
#[verifier::reject_recursive_types(V)]
#[verifier::reject_recursive_types(S)]
pub struct ExIndexMap<K, V, S>(IndexMap<K, V, S>);

/// `foldhash::fast::FixedState`, a hasher builder with a fixed seed.
#[verifier::external_type_specification]
#[verifier::external_body]
pub struct ExFixedState(FixedState);

/// The entries of a tally, key and count, in the order of the map.
pub uninterp spec fn tally_entries(m: IndexMap<(u32, u32), usize, FixedState>) -> Seq<
    ((u32, u32), usize),
>;

/// `IndexMap::default`: a map without entries.
#[verifier::external_body]
fn tally_new() -> (m: IndexMap<(u32, u32), usize, FixedState>)
    ensures
        tally_entries(m) == Seq::<((u32, u32), usize)>::empty(),
{
    IndexMap::default()
}

/// `IndexMap::len`: the number of entries.
#[verifier::external_body]
fn tally_len(m: &IndexMap<(u32, u32), usize, FixedState>) -> (n: usize)
    ensures
        n == tally_entries(*m).len(),
{
    m.len()
}

/// `IndexMap::get`: the count stored under `key` in some entry, or `None`
/// where no entry has that key.
#[verifier::external_body]
fn tally_get(m: &IndexMap<(u32, u32), usize, FixedState>, key: (u32, u32)) -> (found: Option<usize>)
    ensures
        match found {
            Some(count) => exists|i: int|
                0 <= i < tally_entries(*m).len() && #[trigger] tally_entries(*m)[i] == (key, count),
            None => forall|i: int|
                0 <= i < tally_entries(*m).len() ==> (#[trigger] tally_entries(*m)[i]).0 != key,
        },
{
    match m.get(&key) {
        Some(count) => Some(*count),
        None => None,
    }
}

/// `IndexMap::insert`: an entry that has the key keeps its place and takes the
/// new count; where no entry has the key, a new entry is added as the last.
#[verifier::external_body]
fn tally_insert(m: &mut IndexMap<(u32, u32), usize, FixedState>, key: (u32, u32), count: usize)
    ensures
        forall|i: int|
            0 <= i < tally_entries(*old(m)).len() && (#[trigger] tally_entries(*old(m))[i]).0 == key
                ==> tally_entries(*final(m)) == tally_entries(*old(m)).update(i, (key, count)),
        (forall|i: int|
            0 <= i < tally_entries(*old(m)).len() ==> (#[trigger] tally_entries(*old(m))[i]).0
                != key) ==> tally_entries(*final(m)) == tally_entries(*old(m)).push((key, count)),
{
    m.insert(key, count);
}

/// `IndexMap::get_index`: the entry at a position of the map's order, or
/// `None` past the end.
#[verifier::external_body]
fn tally_get_index(m: &IndexMap<(u32, u32), usize, FixedState>, index: usize) -> (entry: Option<
    ((u32, u32), usize),
>)
    ensures
        entry == if index < tally_entries(*m).len() {
            Some(tally_entries(*m)[index as int])
        } else {
            None
        },
{
    match m.get_index(index) {
        Some((key, count)) => Some((*key, *count)),
        None => None,
    }
}

/// The number of positions below `n` at which `left, right` stands in `s`.
pub open spec fn count_before(s: Seq<u32>, left: u32, right: u32, n: int) -> nat
    decreases n,
{
    if n <= 0 {
        0
    } else {
        count_before(s, left, right, n - 1) + if pair_at(s, n - 1, left, right) {
            1nat
        } else {
            0nat
        }
    }
}

/// The number of positions at which `left, right` stands in `s`. Overlapping
/// occurrences all count: in `a a a` the pair `a, a` occurs twice.
pub open spec fn pair_count(s: Seq<u32>, left: u32, right: u32) -> nat {
    count_before(s, left, right, s.len() as int)
}

/// The order by which ties are broken: by `left`, then by `right`.
pub open spec fn pair_precedes(a: Pair, b: Pair) -> bool {
    a.left < b.left || (a.left == b.left && a.right <= b.right)
}

/// Whether `p` is the pair that a merge takes from `s`: it occurs, no pair
/// occurs more often, and of those that occur as often it is the smallest.
pub open spec fn is_most_frequent(s: Seq<u32>, p: Pair) -> bool {
    &&& pair_count(s, p.left, p.right) >= 1
    &&& forall|left: u32, right: u32|
        {
            let c = #[trigger] pair_count(s, left, right);
            c < pair_count(s, p.left, p.right) || (c == pair_count(s, p.left, p.right)
                && pair_precedes(p, Pair { left, right }))
        }
}

pub proof fn lemma_count_before_bound(s: Seq<u32>, left: u32, right: u32, n: int)
    ensures
        count_before(s, left, right, n) <= if n <= 0 { 0 } else { n },
    decreases n,
{
    if n > 0 {
        lemma_count_before_bound(s, left, right, n - 1);
    }
}

/// A pair that is counted at least once occurs.
pub proof fn lemma_counted_occurs(s: Seq<u32>, left: u32, right: u32, n: int)
    requires
        count_before(s, left, right, n) >= 1,
    ensures
        exists|i: int| i < n && pair_at(s, i, left, right),
    decreases n,
{
    if n > 0 {
        if pair_at(s, n - 1, left, right) {
        } else {
            lemma_counted_occurs(s, left, right, n - 1);
        }
    }
}

/// A pair that stands below `n` is counted at least once.
pub proof fn lemma_occurs_counted(s: Seq<u32>, left: u32, right: u32, i: int, n: int)
    requires
        pair_at(s, i, left, right),
        i < n,
    ensures
        count_before(s, left, right, n) >= 1,
    decreases n,
{
    if i < n - 1 {
        lemma_occurs_counted(s, left, right, i, n - 1);
    }
}

/// At most one pair satisfies `is_most_frequent`.
pub proof fn lemma_most_frequent_unique(s: Seq<u32>, p: Pair, q: Pair)
    requires
        is_most_frequent(s, p),
        is_most_frequent(s, q),
    ensures
        p == q,
{
    let cp = pair_count(s, p.left, p.right);
    let cq = pair_count(s, q.left, q.right);
    assert(cq < cp || (cq == cp && pair_precedes(p, Pair { left: q.left, right: q.right })));
    assert(cp < cq || (cp == cq && pair_precedes(q, Pair { left: p.left, right: p.right })));
}

spec fn has_key(entries: Seq<((u32, u32), usize)>, key: (u32, u32)) -> bool {
    exists|i: int| 0 <= i < entries.len() && (#[trigger] entries[i]).0 == key
}

/// The tally holds, for the first `n` positions of `s`, each pair that stands
/// there once, with its count.
spec fn tallies(entries: Seq<((u32, u32), usize)>, s: Seq<u32>, n: int) -> bool {
    &&& forall|i: int, j: int|
        0 <= i < j < entries.len() ==> (#[trigger] entries[i]).0 != (#[trigger] entries[j]).0
    &&& forall|i: int|
        0 <= i < entries.len() ==> (#[trigger] entries[i]).1 >= 1 && entries[i].1
            == count_before(s, entries[i].0.0, entries[i].0.1, n)
    &&& forall|left: u32, right: u32|
        #[trigger] count_before(s, left, right, n) >= 1 ==> has_key(entries, (left, right))
}

proof fn lemma_tally_bump(
    before: Seq<((u32, u32), usize)>,
    after: Seq<((u32, u32), usize)>,
    s: Seq<u32>,
    n: int,
    at: int,
)
    requires
        tallies(before, s, n),
        0 <= n,
        n + 1 < s.len(),
        0 <= at < before.len(),
        before[at].0 == (s[n], s[n + 1]),
        after == before.update(at, (before[at].0, (before[at].1 + 1) as usize)),
        before[at].1 < usize::MAX,
    ensures
        tallies(after, s, n + 1),
{
    let key = (s[n], s[n + 1]);
    assert forall|i: int| 0 <= i < after.len() implies (#[trigger] after[i]).1 >= 1 && after[i].1
        == count_before(s, after[i].0.0, after[i].0.1, n + 1) by {
        if i != at {
            assert(before[i].0 != before[at].0);
            assert(after[i] == before[i]);
            assert(!pair_at(s, n, before[i].0.0, before[i].0.1));
        } else {
            assert(pair_at(s, n, key.0, key.1));
        }
    }
    assert forall|left: u32, right: u32| #[trigger]
        count_before(s, left, right, n + 1) >= 1 implies has_key(after, (left, right)) by {
        if (left, right) == key {
            assert(after[at].0 == key);
        } else {
            assert(!pair_at(s, n, left, right));
            assert(count_before(s, left, right, n) >= 1);
            assert(has_key(before, (left, right)));
            let i = choose|i: int| 0 <= i < before.len() && (#[trigger] before[i]).0 == (left, right);
            assert(after[i].0 == (left, right));
        }
    }
    assert forall|i: int, j: int| 0 <= i < j < after.len() implies (#[trigger] after[i]).0 != (
    #[trigger] after[j]).0 by {
        assert(after[i].0 == before[i].0);
        assert(after[j].0 == before[j].0);
    }
}

proof fn lemma_tally_first(
    before: Seq<((u32, u32), usize)>,
    after: Seq<((u32, u32), usize)>,
    s: Seq<u32>,
    n: int,
)
    requires
        tallies(before, s, n),
        0 <= n,
        n + 1 < s.len(),
        forall|i: int| 0 <= i < before.len() ==> (#[trigger] before[i]).0 != (s[n], s[n + 1]),
        after == before.push(((s[n], s[n + 1]), 1usize)),
    ensures
        tallies(after, s, n + 1),
{
    let key = (s[n], s[n + 1]);
    assert(count_before(s, key.0, key.1, n) == 0) by {
        if count_before(s, key.0, key.1, n) >= 1 {
            assert(has_key(before, key));
        }
    }
    assert(pair_at(s, n, key.0, key.1));
    assert forall|i: int| 0 <= i < after.len() implies (#[trigger] after[i]).1 >= 1 && after[i].1
        == count_before(s, after[i].0.0, after[i].0.1, n + 1) by {
        if i < before.len() {
            assert(after[i] == before[i]);
            assert(before[i].0 != key);
            assert(!pair_at(s, n, before[i].0.0, before[i].0.1));
        }
    }
    assert forall|left: u32, right: u32| #[trigger]
        count_before(s, left, right, n + 1) >= 1 implies has_key(after, (left, right)) by {
        if (left, right) == key {
            assert(after[before.len() as int].0 == key);
        } else {
            assert(!pair_at(s, n, left, right));
            assert(count_before(s, left, right, n) >= 1);
            assert(has_key(before, (left, right)));
            let i = choose|i: int| 0 <= i < before.len() && (#[trigger] before[i]).0 == (left, right);
            assert(after[i].0 == (left, right));
        }
    }
    assert forall|i: int, j: int| 0 <= i < j < after.len() implies (#[trigger] after[i]).0 != (
    #[trigger] after[j]).0 by {
        if j < before.len() {
            assert(after[i] == before[i]);
            assert(after[j] == before[j]);
        } else {
            assert(after[i] == before[i]);
        }
    }
}

/// Tallies every adjacent pair of `tokens`.
fn count_pairs(tokens: &[u32]) -> (tally: IndexMap<(u32, u32), usize, FixedState>)
    ensures
        tallies(tally_entries(tally), tokens@, tokens@.len() as int),
{
    let mut tally = tally_new();
    let windows: usize = if tokens.len() == 0 {
        0
    } else {
        tokens.len() - 1
    };
    let mut i: usize = 0;
    while i < windows
        invariant
            i <= windows,
            windows == if tokens@.len() == 0 {
                0
            } else {
                tokens@.len() - 1
            },
            tallies(tally_entries(tally), tokens@, i as int),
        decreases windows - i,
    {
        let key = (tokens[i], tokens[i + 1]);
        let ghost before = tally_entries(tally);
        match tally_get(&tally, key) {
            Some(count) => {
                proof {
                    lemma_count_before_bound(tokens@, key.0, key.1, i as int);
                }
                let ghost at = choose|at: int|
                    0 <= at < before.len() && #[trigger] before[at] == (key, count);
                tally_insert(&mut tally, key, count + 1);
                proof {
                    assert(before[at].0 == key);
                    lemma_tally_bump(before, tally_entries(tally), tokens@, i as int, at);
                }
            },
            None => {
                tally_insert(&mut tally, key, 1);
                proof {
                    lemma_tally_first(before, tally_entries(tally), tokens@, i as int);
                }
            },
        }
        i += 1;
    }
    proof {
        let s = tokens@;
        if s.len() > 0 {
            assert forall|left: u32, right: u32|
                count_before(s, left, right, s.len() as int) == count_before(
                    s,
                    left,
                    right,
                    s.len() - 1,
                ) by {
                assert(!pair_at(s, s.len() - 1, left, right));
            }
        }
    }
    tally
}

/// Whether `best` is the entry that wins among the first `n`.
spec fn leads(entries: Seq<((u32, u32), usize)>, best: ((u32, u32), usize), n: int) -> bool {
    &&& exists|i: int| 0 <= i < n && #[trigger] entries[i] == best
    &&& forall|i: int|
        0 <= i < n ==> (#[trigger] entries[i]).1 < best.1 || (entries[i].1 == best.1
            && pair_precedes(
            Pair { left: best.0.0, right: best.0.1 },
            Pair { left: entries[i].0.0, right: entries[i].0.1 },
        ))
}

/// The pair that a merge takes from `tokens`, with its count; `None` where
/// `tokens` has no adjacent pair at all.
pub fn most_frequent_pair(tokens: &[u32]) -> (winner: Option<(Pair, usize)>)
    ensures
        match winner {
            Some((pair, count)) => is_most_frequent(tokens@, pair) && count == pair_count(
                tokens@,
                pair.left,
                pair.right,
            ),
            None => tokens@.len() < 2,
        },
{
    let tally = count_pairs(tokens);
    let ghost entries = tally_entries(tally);
    let n = tally_len(&tally);
    let mut best: Option<((u32, u32), usize)> = None;
    let mut i: usize = 0;
    while i < n
        invariant
            i <= n,
            n == entries.len(),
            entries == tally_entries(tally),
            match best {
                Some(b) => leads(entries, b, i as int),
                None => i == 0,
            },
        decreases n - i,
    {
        match tally_get_index(&tally, i) {
            Some((key, count)) => {
                let better = match best {
                    Some((held, most)) => count > most || (count == most && (key.0 < held.0 || (
                    key.0 == held.0 && key.1 < held.1))),
                    None => true,
                };
                if better {
                    best = Some((key, count));
                }
            },
            None => {},
        }
        i += 1;
    }
    match best {
        Some((key, count)) => {
            let pair = Pair::new(key.0, key.1);
            proof {
                let s = tokens@;
                let at = choose|at: int| 0 <= at < n && #[trigger] entries[at] == (key, count);
                assert(entries[at].1 >= 1);
                assert forall|left: u32, right: u32|
                    {
                        let c = #[trigger] pair_count(s, left, right);
                        c < pair_count(s, pair.left, pair.right) || (c == pair_count(
                            s,
                            pair.left,
                            pair.right,
                        ) && pair_precedes(pair, Pair { left, right }))
                    } by {
                    if count_before(s, left, right, s.len() as int) >= 1 {
                        assert(has_key(entries, (left, right)));
                        let j = choose|j: int|
                            0 <= j < entries.len() && (#[trigger] entries[j]).0 == (left, right);
                        assert(entries[j].1 == pair_count(s, left, right));
                    }
                }
            }
            Some((pair, count))
        },
        None => {
            proof {
                let s = tokens@;
                if s.len() >= 2 {
                    lemma_occurs_counted(s, s[0], s[1], 0, s.len() as int);
                    assert(has_key(entries, (s[0], s[1])));
                }
            }
            None
        },
    }
}

} // verus!
