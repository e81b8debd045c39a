//! The library's general laws, stated over the same models that the
//! executable functions' contracts use, and proved from them.

use vstd::prelude::*;

use vstd::arithmetic::div_mod::{
    lemma_add_mod_noop, lemma_mod_division_less_than_divisor, lemma_mod_self_0, lemma_small_mod,
};
use vstd::arithmetic::power::{lemma_pow_increases, lemma_pow_positive};

use crate::chain::{chain_col, chain_end, sim_col};
use crate::hashing::{hash_of, lemma_hash_of_len};
use crate::reduction::{pow26, reduce_char, reduce_spec, reduce_value};
use crate::store::{
    column_candidate, column_hit, fill_entries, find_endpoint, insert_entry, lemma_find_endpoint,
    lemma_scan_columns_finds, lemma_scan_columns_sound, load_entries, saved_records,
    unique_endpoints, EntryView,
};
use crate::table::RainbowTable;

verus! {

/// A chain with one column or none is its seed: no hash-reduce step runs.
pub proof fn lemma_chain_identity(seed: Seq<char>, l: nat, iters: nat)
    requires
        iters <= 1,
    ensures
        chain_end(seed, l, iters) == seed,
{
}

/// Column differentiation: one step of the column index moves the
/// reduction, for every digest, whenever the index step does not wrap
/// around the plaintext space (the single wrap at a multiple of
/// `26^length` is the one input left out).
pub proof fn lemma_reduction_sensitivity(d: Seq<char>, l: nat, i: nat)
    requires
        l >= 1,
        ((i + 1) as nat) % pow26(l) != 0,
    ensures
        reduce_spec(d, l, i) != reduce_spec(d, l, i + 1),
{
    let p = pow26(l);
    lemma_pow_positive(26, l);
    vstd::arithmetic::power::lemma_pow1(26);
    lemma_pow_increases(26, 1, l);
    assert(p >= 26);
    let c = i % p;
    let c2 = ((i + 1) as nat) % p;
    lemma_add_mod_noop(i as int, 1, p as int);
    lemma_small_mod(1, p);
    lemma_mod_division_less_than_divisor(i as int, p as int);
    assert(c < p);
    if c + 1 == p {
        lemma_mod_self_0(p as int);
        assert(c2 == 0);
        assert(false);
    }
    lemma_small_mod((c + 1) as nat, p);
    assert(c2 == c + 1);
    let n = crate::numeral::dec_value(crate::numeral::digest_numeral(d));
    let m = reduce_value(d, l, i);
    let m2 = reduce_value(d, l, i + 1);
    assert(m2 == m + 1);
    vstd::arithmetic::power::lemma_pow0(26);
    assert(pow26(0) == 1);
    let a = m % 26;
    let b = m2 % 26;
    lemma_add_mod_noop(m as int, 1, 26);
    lemma_small_mod(1, 26);
    lemma_mod_division_less_than_divisor(m as int, 26);
    if a + 1 == 26 {
        lemma_mod_self_0(26);
        assert(b == 0);
    } else {
        lemma_small_mod((a + 1) as nat, 26);
        assert(b == a + 1);
    }
    assert(a != b);
    assert(m / pow26(0) == m);
    assert(m2 / pow26(0) == m2);
    assert(reduce_char(m, 0) == (97 + a) as char);
    assert(reduce_char(m2, 0) == (97 + b) as char);
    assert((97 + a) as char as int == 97 + a);
    assert((97 + b) as char as int == 97 + b);
    assert(reduce_spec(d, l, i)[0] != reduce_spec(d, l, i + 1)[0]);
}

/// Round trip at the record level: loading the records a table saves
/// rebuilds exactly that table's contents.
pub proof fn lemma_load_saved_entries(entries: Seq<EntryView>)
    requires
        unique_endpoints(entries),
    ensures
        load_entries(saved_records(entries)) == entries,
    decreases entries.len(),
{
    if entries.len() == 0 {
        assert(load_entries(saved_records(entries)) =~= entries);
    } else {
        let front = entries.drop_last();
        assert(unique_endpoints(front));
        lemma_load_saved_entries(front);
        assert(saved_records(entries).drop_last() =~= saved_records(front));
        let e = entries.last().0;
        let v = entries.last().1;
        lemma_find_endpoint(front, e);
        if find_endpoint(front, e) != -1 {
            let j = find_endpoint(front, e);
            assert(entries[j].0 == entries[entries.len() - 1].0);
            assert(false);
        }
        assert(load_entries(saved_records(entries)) == insert_entry(front, e, v));
        assert(insert_entry(front, e, v) =~= entries);
    }
}

/// Round trip through the persisted form: the text a table saves parses
/// back to exactly the records it wrote, and loading them rebuilds the
/// table's contents. Holds for every table whose fields are free of line
/// breaks — endpoints always are, and seeds read from a line-oriented
/// wordlist are too.
pub proof fn lemma_save_load_round_trip(entries: Seq<EntryView>)
    requires
        unique_endpoints(entries),
        crate::codec::clean_entries(entries),
    ensures
        crate::codec::parse_records_spec(crate::codec::encode_records(entries)) == Some(
            saved_records(entries),
        ),
        load_entries(saved_records(entries)) == entries,
{
    let s = crate::codec::encode_records(entries);
    assert(s.subrange(0, s.len() as int) =~= s);
    crate::codec::lemma_parse_encoded_records(s, 0, entries);
    lemma_load_saved_entries(entries);
}

/// A lookup simulation started at column 1 from a seed's own hash walks
/// the seed's chain itself.
pub proof fn lemma_sim_matches_chain(seed: Seq<char>, l: nat, j: nat)
    requires
        j >= 1,
    ensures
        sim_col(hash_of(seed, l), l, 1, j) == chain_col(seed, l, j),
    decreases j,
{
    let target = hash_of(seed, l);
    if j == 1 {
        assert(sim_col(target, l, 1, 1) == reduce_spec(target, l, 1));
        assert(chain_col(seed, l, 1) == reduce_spec(hash_of(chain_col(seed, l, 0), l), l, 1));
    } else {
        lemma_sim_matches_chain(seed, l, (j - 1) as nat);
    }
}

/// Lookup completeness: a seed whose chain the table still holds (its
/// endpoint was not overwritten by a merge) is found when its own hash
/// is looked up — the scan returns a plaintext, and that plaintext
/// hashes to the target.
pub proof fn lemma_lookup_completeness(t: &RainbowTable, seed: Seq<char>)
    requires
        t.wf(),
        t.spec_iterations() >= 2,
        ({
            let e = chain_end(seed, t.spec_length() as nat, t.spec_iterations() as nat);
            let j = find_endpoint(t.entries_view(), e);
            j >= 0 && t.entries_view()[j].1 == seed
        }),
    ensures
        t.spec_scan(hash_of(seed, t.spec_length() as nat)) is Some,
        t.spec_scan(hash_of(seed, t.spec_length() as nat)) matches Some(p) ==> hash_of(
            p,
            t.spec_length() as nat,
        ) == hash_of(seed, t.spec_length() as nat),
{
    let s = t.entries_view();
    let l = t.spec_length() as nat;
    let iters = t.spec_iterations() as nat;
    let target = hash_of(seed, l);
    lemma_hash_of_len(seed, l);
    assert(target.len() == l >= 1);
    lemma_sim_matches_chain(seed, l, (iters - 1) as nat);
    assert(sim_col(target, l, 1, (iters - 1) as nat) == chain_end(seed, l, iters));
    let e = chain_end(seed, l, iters);
    let j = find_endpoint(s, e);
    lemma_find_endpoint(s, e);
    assert(column_candidate(s, target, l, 1, iters) == Some(chain_col(s[j].1, l, 0)));
    assert(chain_col(seed, l, 0) == seed);
    assert(column_hit(s, target, l, 1, iters) == Some(seed));
    lemma_scan_columns_finds(s, target, l, (iters - 1) as nat, iters);
    lemma_scan_columns_sound(
        s,
        target,
        l,
        (iters - 1) as nat,
        iters,
    );
}

/// Fill equivalence: two well-formed tables with the same parameters,
/// one filled sequentially and one in parallel over the same wordlist
/// from the same starting contents, hold exactly the same chains. Both
/// fills are specified by the same insertion fold.
pub proof fn lemma_fill_equivalence(
    t1: &RainbowTable,
    t2: &RainbowTable,
    start: Seq<EntryView>,
    words: Seq<Seq<char>>,
)
    requires
        t1.spec_iterations() == t2.spec_iterations(),
        t1.spec_length() == t2.spec_length(),
        t1.entries_view() == fill_entries(
            start,
            words,
            t1.spec_length() as nat,
            t1.spec_iterations() as nat,
        ),
        t2.entries_view() == fill_entries(
            start,
            words,
            t2.spec_length() as nat,
            t2.spec_iterations() as nat,
        ),
    ensures
        t1.entries_view() == t2.entries_view(),
{
}

} // verus!
