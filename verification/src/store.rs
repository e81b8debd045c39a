//! The model of the table store: an association of chain endpoints to
//! chain seeds with unique endpoints, and the insert-with-overwrite and
//! fill folds the table's operations are specified by.

use vstd::prelude::*;

use crate::chain::{chain_col, chain_end, sim_col};
use crate::hashing::hash_of;

verus! {

/// One stored chain, as views: the endpoint (last column) it is keyed by
/// and the seed (first column) it recovers.
pub type EntryView = (Seq<char>, Seq<char>);

/// No two stored chains share an endpoint.
pub open spec fn unique_endpoints(s: Seq<EntryView>) -> bool {
    forall|i: int, j: int| 0 <= i < j < s.len() ==> (#[trigger] s[i]).0 != (#[trigger] s[j]).0
}

/// The position holding endpoint `e`, or -1 when it is absent.
pub open spec fn find_endpoint(s: Seq<EntryView>, e: Seq<char>) -> int
    decreases s.len(),
{
    if s.len() == 0 {
        -1
    } else if s[0].0 == e {
        0
    } else {
        let r = find_endpoint(s.drop_first(), e);
        if r == -1 {
            -1
        } else {
            r + 1
        }
    }
}

/// Inserting a chain: an already-present endpoint has its seed
/// overwritten in place (last write wins); a new endpoint is appended.
pub open spec fn insert_entry(s: Seq<EntryView>, e: Seq<char>, v: Seq<char>) -> Seq<EntryView> {
    let i = find_endpoint(s, e);
    if i >= 0 {
        s.update(i, (e, v))
    } else {
        s.push((e, v))
    }
}

/// The table contents after filling with `words` in order: each word's
/// chain endpoint maps to the word, later chains overwriting earlier ones
/// that merged into the same endpoint.
pub open spec fn fill_entries(s: Seq<EntryView>, words: Seq<Seq<char>>, l: nat, iters: nat) -> Seq<
    EntryView,
>
    decreases words.len(),
{
    if words.len() == 0 {
        s
    } else {
        insert_entry(
            fill_entries(s, words.drop_last(), l, iters),
            chain_end(words.last(), l, iters),
            words.last(),
        )
    }
}

/// A wordlist as views.
pub open spec fn words_view(ws: Seq<String>) -> Seq<Seq<char>> {
    Seq::new(ws.len(), |i: int| ws[i]@)
}

/// `find_endpoint` returns -1 exactly when no position holds `e`, and
/// otherwise the unique position that does.
pub proof fn lemma_find_endpoint(s: Seq<EntryView>, e: Seq<char>)
    ensures
        find_endpoint(s, e) == -1 ==> forall|i: int| 0 <= i < s.len() ==> (#[trigger] s[i]).0 != e,
        find_endpoint(s, e) != -1 ==> {
            let i = find_endpoint(s, e);
            0 <= i < s.len() && s[i].0 == e && forall|j: int| 0 <= j < i ==> (#[trigger] s[j]).0 != e
        },
    decreases s.len(),
{
    if s.len() > 0 && s[0].0 != e {
        lemma_find_endpoint(s.drop_first(), e);
        let r = find_endpoint(s.drop_first(), e);
        if r == -1 {
            assert forall|i: int| 0 <= i < s.len() implies (#[trigger] s[i]).0 != e by {
                if i > 0 {
                    assert(s[i] == s.drop_first()[i - 1]);
                }
            }
        } else {
            assert(s.drop_first()[r] == s[r + 1]);
            assert forall|j: int| 0 <= j < r + 1 implies (#[trigger] s[j]).0 != e by {
                if j > 0 {
                    assert(s[j] == s.drop_first()[j - 1]);
                }
            }
        }
    }
}

/// A position known to hold `e`, with none before it, is the one
/// `find_endpoint` returns.
pub proof fn lemma_find_endpoint_at(s: Seq<EntryView>, e: Seq<char>, i: int)
    requires
        0 <= i < s.len(),
        s[i].0 == e,
        forall|j: int| 0 <= j < i ==> (#[trigger] s[j]).0 != e,
    ensures
        find_endpoint(s, e) == i,
    decreases s.len(),
{
    if i > 0 {
        assert(s[0].0 != e);
        assert(s.drop_first()[i - 1] == s[i]);
        assert forall|j: int| 0 <= j < i - 1 implies (#[trigger] s.drop_first()[j]).0 != e by {
            assert(s.drop_first()[j] == s[j + 1]);
        }
        lemma_find_endpoint_at(s.drop_first(), e, i - 1);
    }
}

/// Inserting preserves endpoint uniqueness.
pub proof fn lemma_insert_entry_unique(s: Seq<EntryView>, e: Seq<char>, v: Seq<char>)
    requires
        unique_endpoints(s),
    ensures
        unique_endpoints(insert_entry(s, e, v)),
{
    lemma_find_endpoint(s, e);
    let i = find_endpoint(s, e);
    if i >= 0 {
        let t = s.update(i, (e, v));
        assert forall|p: int, q: int| 0 <= p < q < t.len() implies (#[trigger] t[p]).0
            != (#[trigger] t[q]).0 by {
            assert(s[p].0 != s[q].0);
        }
    } else {
        let t = s.push((e, v));
        assert forall|p: int, q: int| 0 <= p < q < t.len() implies (#[trigger] t[p]).0
            != (#[trigger] t[q]).0 by {
            if q == s.len() {
                assert(t[p] == s[p]);
                assert(s[p].0 != e);
            } else {
                assert(t[p] == s[p] && t[q] == s[q]);
            }
        }
    }
}

/// The records a saved table writes, in storage order: each
/// `(endpoint, seed)` entry as a `(seed, endpoint)` record.
pub open spec fn saved_records(entries: Seq<EntryView>) -> Seq<(Seq<char>, Seq<char>)> {
    Seq::new(entries.len(), |i: int| (entries[i].1, entries[i].0))
}

/// The table contents after loading `(seed, endpoint)` records into an
/// empty store: each record inserted as endpoint maps-to seed, in order.
pub open spec fn load_entries(records: Seq<(Seq<char>, Seq<char>)>) -> Seq<EntryView>
    decreases records.len(),
{
    if records.len() == 0 {
        Seq::empty()
    } else {
        insert_entry(
            load_entries(records.drop_last()),
            records.last().1,
            records.last().0,
        )
    }
}

/// What a lookup attempt at column `c` recomputes, before validation:
/// the target digest is assumed to sit at column `c`, the walk to the
/// last column yields an endpoint candidate, and on a table hit the
/// stored seed is replayed forward to the plaintext expected at column
/// `c`. `None` when the candidate endpoint is not stored.
pub open spec fn column_candidate(
    s: Seq<EntryView>,
    target: Seq<char>,
    l: nat,
    c: nat,
    iters: nat,
) -> Option<Seq<char>> {
    let e = sim_col(target, l, c, (iters - 1) as nat);
    let i = find_endpoint(s, e);
    if i >= 0 {
        Some(chain_col(s[i].1, l, (c - 1) as nat))
    } else {
        None
    }
}

/// The validated hit at column `c`: the recomputed plaintext, kept only
/// if it actually hashes to the target.
pub open spec fn column_hit(
    s: Seq<EntryView>,
    target: Seq<char>,
    l: nat,
    c: nat,
    iters: nat,
) -> Option<Seq<char>> {
    match column_candidate(s, target, l, c, iters) {
        Some(p) => if hash_of(p, l) == target {
            Some(p)
        } else {
            None
        },
        None => None,
    }
}

/// The result of scanning candidate columns `c` down to 1: the first
/// validated hit, or `None`. A column whose attempt fails (an empty
/// target cannot be reduced) or does not validate is passed over.
pub open spec fn scan_columns(
    s: Seq<EntryView>,
    target: Seq<char>,
    l: nat,
    c: nat,
    iters: nat,
) -> Option<Seq<char>>
    decreases c,
{
    if c < 1 || target.len() == 0 {
        None
    } else {
        match column_hit(s, target, l, c, iters) {
            Some(p) => Some(p),
            None => scan_columns(s, target, l, (c - 1) as nat, iters),
        }
    }
}

/// Whatever plaintext a column scan returns hashes to the target: every
/// hit is validated before it is returned.
pub proof fn lemma_scan_columns_sound(
    s: Seq<EntryView>,
    target: Seq<char>,
    l: nat,
    c: nat,
    iters: nat,
)
    ensures
        scan_columns(s, target, l, c, iters) matches Some(p) ==> hash_of(p, l) == target,
    decreases c,
{
    if c >= 1 && target.len() > 0 {
        if column_hit(s, target, l, c, iters) is None {
            lemma_scan_columns_sound(s, target, l, (c - 1) as nat, iters);
        }
    }
}

/// A scan that reaches column 1 cannot miss a validated hit there: if
/// column 1 validates, the scan returns some hit.
pub proof fn lemma_scan_columns_finds(
    s: Seq<EntryView>,
    target: Seq<char>,
    l: nat,
    c: nat,
    iters: nat,
)
    requires
        1 <= c,
        target.len() > 0,
        column_hit(s, target, l, 1, iters) is Some,
    ensures
        scan_columns(s, target, l, c, iters) is Some,
    decreases c,
{
    if c > 1 && column_hit(s, target, l, c, iters) is None {
        lemma_scan_columns_finds(s, target, l, (c - 1) as nat, iters);
    }
}

/// Filling preserves endpoint uniqueness.
pub proof fn lemma_fill_entries_unique(s: Seq<EntryView>, words: Seq<Seq<char>>, l: nat, iters: nat)
    requires
        unique_endpoints(s),
    ensures
        unique_endpoints(fill_entries(s, words, l, iters)),
    decreases words.len(),
{
    if words.len() > 0 {
        lemma_fill_entries_unique(s, words.drop_last(), l, iters);
        lemma_insert_entry_unique(
            fill_entries(s, words.drop_last(), l, iters),
            chain_end(words.last(), l, iters),
            words.last(),
        );
    }
}

} // verus!
