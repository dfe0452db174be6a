//! Key-value entries held as a flat list with pairwise-distinct keys, and
//! the map such a list denotes.
//!
//! The in-memory table and the decoded content of a segment are both
//! sequences of owned `(key, value)` pairs. [`assoc_map`] gives such a
//! sequence its meaning as a finite map, a later pair overriding an
//! earlier one with the same key; the executable operations here keep the
//! keys distinct and are proved against that map.

use vstd::prelude::*;

use crate::text::{lemma_lex_total, lemma_lex_transitive, lex_lt, str_eq, str_lt, text_fits};

verus! {

/// One key-value entry, as the model sees it.
pub type SpecEntry = (Seq<char>, Seq<char>);

/// The texts of a sequence of owned entries.
pub open spec fn entry_views(entries: Seq<(String, String)>) -> Seq<SpecEntry> {
    entries.map_values(|e: (String, String)| (e.0@, e.1@))
}

/// Whether entries are in strictly ascending key order.
pub open spec fn sorted_strict(entries: Seq<SpecEntry>) -> bool {
    forall|i: int, j: int| 0 <= i < j < entries.len() ==> lex_lt(entries[i].0, entries[j].0)
}

/// Whether no two entries share a key.
pub open spec fn keys_distinct(entries: Seq<SpecEntry>) -> bool {
    forall|i: int, j: int| 0 <= i < j < entries.len() ==> entries[i].0 != entries[j].0
}

/// Whether both texts of an entry fit behind a segment's 32-bit length
/// prefixes.
pub open spec fn entry_fits(e: SpecEntry) -> bool {
    text_fits(e.0) && text_fits(e.1)
}

/// The map a sequence of entries denotes: each pair inserted in order, so
/// a later pair overrides an earlier one.
pub open spec fn assoc_map(entries: Seq<SpecEntry>) -> Map<Seq<char>, Seq<char>>
    decreases entries.len(),
{
    if entries.len() == 0 {
        Map::empty()
    } else {
        assoc_map(entries.drop_last()).insert(entries.last().0, entries.last().1)
    }
}

/// The value stored under `key`, scanning for the latest pair that holds
/// it.
pub open spec fn spec_entries_lookup(entries: Seq<SpecEntry>, key: Seq<char>) -> Option<Seq<char>>
    decreases entries.len(),
{
    if entries.len() == 0 {
        None
    } else if entries.last().0 == key {
        Some(entries.last().1)
    } else {
        spec_entries_lookup(entries.drop_last(), key)
    }
}

/// The scan agrees with the denoted map, duplicates or not.
pub proof fn lemma_entries_lookup_assoc(entries: Seq<SpecEntry>, key: Seq<char>)
    ensures
        spec_entries_lookup(entries, key) == if assoc_map(entries).contains_key(key) {
            Some(assoc_map(entries)[key])
        } else {
            None::<Seq<char>>
        },
    decreases entries.len(),
{
    if entries.len() != 0 {
        lemma_entries_lookup_assoc(entries.drop_last(), key);
    }
}

/// What the denoted map holds, when keys are distinct: exactly the pairs
/// of the sequence, key by key.
pub proof fn lemma_assoc_map_props(entries: Seq<SpecEntry>)
    requires
        keys_distinct(entries),
    ensures
        assoc_map(entries).dom().finite(),
        assoc_map(entries).len() == entries.len(),
        forall|i: int|
            0 <= i < entries.len() ==> assoc_map(entries).contains_key(#[trigger] entries[i].0)
                && assoc_map(entries)[entries[i].0] == entries[i].1,
        forall|k: Seq<char>|
            assoc_map(entries).contains_key(k) ==> exists|i: int|
                0 <= i < entries.len() && #[trigger] entries[i].0 == k,
    decreases entries.len(),
{
    if entries.len() != 0 {
        let prefix = entries.drop_last();
        let e = entries.last();
        lemma_assoc_map_props(prefix);
        assert(forall|i: int| 0 <= i < prefix.len() ==> prefix[i] == entries[i]);
        assert(!assoc_map(prefix).contains_key(e.0)) by {
            if assoc_map(prefix).contains_key(e.0) {
                let i = choose|i: int| 0 <= i < prefix.len() && #[trigger] prefix[i].0 == e.0;
                assert(entries[i].0 == entries[entries.len() - 1].0);
            }
        }
        assert(assoc_map(entries).dom() =~= assoc_map(prefix).dom().insert(e.0));
        vstd::set::axiom_set_insert_len(assoc_map(prefix).dom(), e.0);
        assert forall|i: int| 0 <= i < entries.len() implies assoc_map(entries).contains_key(
            #[trigger] entries[i].0,
        ) && assoc_map(entries)[entries[i].0] == entries[i].1 by {
            if i < entries.len() - 1 {
                assert(entries[i].0 != e.0);
            }
        }
    }
}

/// Appending a fresh key inserts its pair.
pub proof fn lemma_assoc_push(entries: Seq<SpecEntry>, e: SpecEntry)
    requires
        keys_distinct(entries),
        forall|i: int| 0 <= i < entries.len() ==> (#[trigger] entries[i].0) != e.0,
    ensures
        keys_distinct(entries.push(e)),
        assoc_map(entries.push(e)) == assoc_map(entries).insert(e.0, e.1),
{
    assert(entries.push(e).drop_last() =~= entries);
    assert(forall|i: int| 0 <= i < entries.len() ==> entries.push(e)[i] == entries[i]);
}

/// Removing the one pair that holds a key removes it from the map.
pub proof fn lemma_assoc_remove(entries: Seq<SpecEntry>, at: int)
    requires
        keys_distinct(entries),
        0 <= at < entries.len(),
    ensures
        keys_distinct(entries.remove(at)),
        assoc_map(entries.remove(at)) == assoc_map(entries).remove(entries[at].0),
        forall|j: int|
            0 <= j < entries.remove(at).len() ==> (#[trigger] entries.remove(at)[j]).0
                != entries[at].0,
{
    let out = entries.remove(at);
    assert(forall|j: int| 0 <= j < at ==> out[j] == entries[j]);
    assert(forall|j: int| at <= j < out.len() ==> out[j] == entries[j + 1]);
    lemma_assoc_map_props(entries);
    lemma_assoc_map_props(out);
    let a = assoc_map(out);
    let b = assoc_map(entries).remove(entries[at].0);
    assert forall|k: Seq<char>| a.contains_key(k) implies b.contains_key(k) && a[k] == b[k] by {
        let i = choose|i: int| 0 <= i < out.len() && #[trigger] out[i].0 == k;
        let j: int = if i < at {
            i
        } else {
            i + 1
        };
        assert(entries[j] == out[i]);
        assert(k != entries[at].0);
    }
    assert forall|k: Seq<char>| b.contains_key(k) implies a.contains_key(k) by {
        let j = choose|j: int| 0 <= j < entries.len() && #[trigger] entries[j].0 == k;
        assert(j != at);
        let i: int = if j < at {
            j
        } else {
            j - 1
        };
        assert(out[i] == entries[j]);
    }
    assert(a =~= b);
}

/// Two distinct-keyed sequences with the same pairs denote the same map.
pub proof fn lemma_assoc_same_pairs(a: Seq<SpecEntry>, b: Seq<SpecEntry>)
    requires
        keys_distinct(a),
        keys_distinct(b),
        forall|p: SpecEntry| a.contains(p) <==> b.contains(p),
    ensures
        assoc_map(a) == assoc_map(b),
{
    lemma_assoc_map_props(a);
    lemma_assoc_map_props(b);
    let ma = assoc_map(a);
    let mb = assoc_map(b);
    assert forall|k: Seq<char>| ma.contains_key(k) implies mb.contains_key(k) && ma[k]
        == mb[k] by {
        let i = choose|i: int| 0 <= i < a.len() && #[trigger] a[i].0 == k;
        assert(a.contains(a[i]));
        assert(b.contains(a[i]));
        let j = choose|j: int| 0 <= j < b.len() && #[trigger] b[j] == a[i];
    }
    assert forall|k: Seq<char>| mb.contains_key(k) implies ma.contains_key(k) by {
        let i = choose|i: int| 0 <= i < b.len() && #[trigger] b[i].0 == k;
        assert(b.contains(b[i]));
        assert(a.contains(b[i]));
        let j = choose|j: int| 0 <= j < a.len() && #[trigger] a[j] == b[i];
    }
    assert(ma =~= mb);
}

/// Finds the position holding `key`, or reports that no entry holds it.
pub fn find_key(entries: &Vec<(String, String)>, key: &str) -> (r: Option<usize>)
    ensures
        match r {
            Some(i) => i < entries@.len() && entry_views(entries@)[i as int].0 == key@,
            None => forall|i: int|
                0 <= i < entries@.len() ==> (#[trigger] entry_views(entries@)[i].0) != key@,
        },
{
    let n = entries.len();
    let mut i: usize = 0;
    while i < n
        invariant
            n == entries@.len(),
            0 <= i <= n,
            forall|j: int| 0 <= j < i ==> (#[trigger] entry_views(entries@)[j].0) != key@,
        decreases n - i,
    {
        if str_eq(entries[i].0.as_str(), key) {
            return Some(i);
        }
        i += 1;
    }
    None
}

/// Inserts or overwrites the pair for `key`, keeping keys distinct.
pub fn insert_entry(entries: &mut Vec<(String, String)>, key: String, value: String)
    requires
        keys_distinct(entry_views(old(entries)@)),
    ensures
        keys_distinct(entry_views(final(entries)@)),
        assoc_map(entry_views(final(entries)@)) == assoc_map(entry_views(old(entries)@)).insert(
            key@,
            value@,
        ),
        old(entries)@.len() <= final(entries)@.len() <= old(entries)@.len() + 1,
        (text_fits(key@) && text_fits(value@) && (forall|i: int|
            0 <= i < old(entries)@.len() ==> entry_fits(
                #[trigger] entry_views(old(entries)@)[i],
            ))) ==> forall|i: int|
            0 <= i < final(entries)@.len() ==> entry_fits(
                #[trigger] entry_views(final(entries)@)[i],
            ),
{
    let ghost es0 = entry_views(entries@);
    match find_key(entries, key.as_str()) {
        Some(at) => {
            let _ = entries.remove(at);
            proof {
                lemma_assoc_remove(es0, at as int);
                assert(entry_views(entries@) =~= es0.remove(at as int));
                assert(forall|j: int|
                    0 <= j < at ==> entry_views(entries@)[j] == #[trigger] es0[j]);
                assert(forall|j: int|
                    at <= j < entry_views(entries@).len() ==> entry_views(entries@)[j]
                        == #[trigger] es0[j + 1]);
            }
            let ghost es1 = entry_views(entries@);
            proof {
                lemma_assoc_push(es1, (key@, value@));
                assert(entry_views(entries@.push((key, value))) =~= es1.push((key@, value@)));
                assert(assoc_map(es0).remove(key@).insert(key@, value@) =~= assoc_map(
                    es0,
                ).insert(key@, value@));
            }
            entries.push((key, value));
        },
        None => {
            proof {
                lemma_assoc_push(es0, (key@, value@));
                assert(entry_views(entries@.push((key, value))) =~= es0.push((key@, value@)));
            }
            entries.push((key, value));
        },
    }
}

/// Removes the pair for `key` if one exists, returning its value.
pub fn remove_entry(entries: &mut Vec<(String, String)>, key: &str) -> (r: Option<String>)
    requires
        keys_distinct(entry_views(old(entries)@)),
    ensures
        keys_distinct(entry_views(final(entries)@)),
        assoc_map(entry_views(final(entries)@)) == assoc_map(entry_views(old(entries)@)).remove(
            key@,
        ),
        final(entries)@.len() <= old(entries)@.len(),
        forall|i: int|
            0 <= i < final(entries)@.len() ==> exists|j: int|
                0 <= j < old(entries)@.len() && #[trigger] entry_views(final(entries)@)[i]
                    == entry_views(old(entries)@)[j],
        match r {
            Some(v) => assoc_map(entry_views(old(entries)@)).contains_key(key@) && assoc_map(
                entry_views(old(entries)@),
            )[key@] == v@,
            None => !assoc_map(entry_views(old(entries)@)).contains_key(key@),
        },
{
    let ghost es0 = entry_views(entries@);
    proof {
        lemma_assoc_map_props(es0);
    }
    match find_key(entries, key) {
        Some(at) => {
            let entry = entries.remove(at);
            proof {
                lemma_assoc_remove(es0, at as int);
                assert(entry_views(entries@) =~= es0.remove(at as int));
                assert forall|i: int| 0 <= i < entry_views(entries@).len() implies exists|j: int|
                    0 <= j < es0.len() && #[trigger] entry_views(entries@)[i] == es0[j] by {
                    let i0: int = if i < at {
                        i
                    } else {
                        i + 1
                    };
                    assert(entry_views(entries@)[i] == es0[i0]);
                }
            }
            Some(entry.1)
        },
        None => {
            proof {
                assert(!assoc_map(es0).contains_key(key@)) by {
                    if assoc_map(es0).contains_key(key@) {
                        let i = choose|i: int| 0 <= i < es0.len() && #[trigger] es0[i].0 == key@;
                    }
                }
                assert(assoc_map(es0).remove(key@) =~= assoc_map(es0));
            }
            None
        },
    }
}

/// Inserting an entry at a position keeps exactly the pairs plus the new
/// one.
proof fn lemma_insert_contains(entries: Seq<SpecEntry>, at: int, e: SpecEntry)
    requires
        0 <= at <= entries.len(),
    ensures
        forall|p: SpecEntry|
            entries.insert(at, e).contains(p) <==> (entries.contains(p) || p == e),
{
    let out = entries.insert(at, e);
    assert(out[at] == e);
    assert forall|p: SpecEntry| out.contains(p) implies (entries.contains(p) || p == e) by {
        let i = choose|i: int| 0 <= i < out.len() && out[i] == p;
        if i < at {
            assert(entries[i] == p);
        } else if i > at {
            assert(entries[i - 1] == p);
        }
    }
    assert forall|p: SpecEntry| entries.contains(p) implies out.contains(p) by {
        let i = choose|i: int| 0 <= i < entries.len() && entries[i] == p;
        if i < at {
            assert(out[i] == p);
        } else {
            assert(out[i + 1] == p);
        }
    }
}

/// A copy of the entries in strictly ascending key order, denoting the
/// same map: the order the entries arrived in does not matter.
pub fn sorted_copy(entries: &Vec<(String, String)>) -> (out: Vec<(String, String)>)
    requires
        keys_distinct(entry_views(entries@)),
    ensures
        out@.len() == entries@.len(),
        sorted_strict(entry_views(out@)),
        keys_distinct(entry_views(out@)),
        assoc_map(entry_views(out@)) == assoc_map(entry_views(entries@)),
        forall|i: int|
            0 <= i < out@.len() ==> exists|j: int|
                0 <= j < entries@.len() && #[trigger] entry_views(out@)[i] == entry_views(
                    entries@,
                )[j],
{
    let ghost es = entry_views(entries@);
    let n = entries.len();
    let mut out: Vec<(String, String)> = Vec::new();
    let mut i: usize = 0;
    proof {
        assert(entry_views(out@) =~= Seq::<SpecEntry>::empty());
        assert(es.take(0) =~= Seq::<SpecEntry>::empty());
    }
    #[verifier::loop_isolation(false)]
    while i < n
        invariant
            0 <= i <= n,
            out@.len() == i,
            sorted_strict(entry_views(out@)),
            keys_distinct(entry_views(out@)),
            forall|p: SpecEntry| entry_views(out@).contains(p) <==> es.take(i as int).contains(p),
        decreases n - i,
    {
        let ghost prev = entry_views(out@);
        let key = entries[i].0.clone();
        let value = entries[i].1.clone();
        let ghost e = es[i as int];
        proof {
            assert((key@, value@) == e);
            // the incoming key is fresh: it sits at position i of the
            // distinct-keyed input, while everything placed so far came
            // from positions before i
            assert forall|q: int| 0 <= q < prev.len() implies (#[trigger] prev[q].0) != e.0 by {
                assert(prev.contains(prev[q]));
                let j = choose|j: int| 0 <= j < i && #[trigger] es.take(i as int)[j] == prev[q];
                assert(es[j] == prev[q]);
            }
        }
        let mut at: usize = 0;
        while at < out.len() && str_lt(out[at].0.as_str(), key.as_str())
            invariant
                0 <= at <= out@.len(),
                forall|q: int| 0 <= q < at ==> lex_lt(#[trigger] entry_views(out@)[q].0, key@),
            decreases out@.len() - at,
        {
            at += 1;
        }
        proof {
            if at < out@.len() {
                assert(!lex_lt(prev[at as int].0, key@));
                lemma_lex_total(prev[at as int].0, key@);
            }
            lemma_insert_contains(prev, at as int, e);
            assert(entry_views(out@.insert(at as int, (key, value))) =~= prev.insert(
                at as int,
                e,
            ));
            let next = prev.insert(at as int, e);
            assert forall|q: int, r: int| 0 <= q < r < next.len() implies lex_lt(
                next[q].0,
                next[r].0,
            ) by {
                let q0: int = if q < at {
                    q
                } else {
                    q - 1
                };
                let r0: int = if r < at {
                    r
                } else {
                    r - 1
                };
                if q == at {
                    // e before everything at and after `at`
                    assert(next[r] == prev[r0]);
                    if r0 > at as int {
                        lemma_lex_transitive(e.0, prev[at as int].0, prev[r0].0);
                    }
                } else if r == at {
                    assert(next[q] == prev[q0]);
                } else {
                    assert(next[q] == prev[q0] && next[r] == prev[r0]);
                    if q0 < at as int && r0 >= at as int && q0 != r0 {
                        assert(lex_lt(prev[q0].0, prev[r0].0));
                    }
                }
            }
            assert forall|q: int, r: int| 0 <= q < r < next.len() implies next[q].0 != next[r].0
                by {
                crate::text::lemma_lex_asymmetric(next[q].0, next[r].0);
            }
            assert(es.take(i + 1 as int) =~= es.take(i as int).push(e));
            assert forall|p: SpecEntry| next.contains(p) <==> es.take(i + 1 as int).contains(
                p,
            ) by {
                assert(es.take(i + 1 as int)[i as int] == e);
                if es.take(i + 1 as int).contains(p) {
                    let j = choose|j: int|
                        0 <= j < i + 1 && #[trigger] es.take(i + 1 as int)[j] == p;
                    if j < i {
                        assert(es.take(i as int)[j] == p);
                        assert(prev.contains(p));
                        let q = choose|q: int| 0 <= q < prev.len() && #[trigger] prev[q] == p;
                        if q < at {
                            assert(next[q] == p);
                        } else {
                            assert(next[q + 1] == p);
                        }
                    } else {
                        assert(next[at as int] == p);
                    }
                    assert(next.contains(p));
                }
                if next.contains(p) && p != e {
                    assert(prev.contains(p));
                    let j = choose|j: int| 0 <= j < i && #[trigger] es.take(i as int)[j] == p;
                    assert(es.take(i + 1 as int)[j] == p);
                    assert(es.take(i + 1 as int).contains(p));
                }
                if p == e {
                    assert(es.take(i + 1 as int).contains(p));
                }
            }
        }
        out.insert(at, (key, value));
        i += 1;
    }
    proof {
        assert(es.take(n as int) =~= es);
        lemma_assoc_same_pairs(entry_views(out@), es);
        lemma_assoc_map_props(entry_views(out@));
        lemma_assoc_map_props(es);
        assert forall|q: int| 0 <= q < out@.len() implies exists|j: int|
            0 <= j < entries@.len() && #[trigger] entry_views(out@)[q] == es[j] by {
            assert(entry_views(out@).contains(entry_views(out@)[q]));
            let j = choose|j: int| 0 <= j < es.len() && #[trigger] es[j] == entry_views(out@)[q];
        }
    }
    out
}

} // verus!
