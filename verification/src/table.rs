//! The rainbow table: chain generation over a wordlist, sequential and
//! parallel, and the endpoint-to-seed store the lookup queries.

use vstd::prelude::*;

use rayon::prelude::IntoParallelRefIterator;
use rayon::prelude::ParallelIterator;
use vstd::string::StringExecFns;

use crate::chain::{chain_col, chain_end, sim_col};
use crate::hashing::{hash, hash_of};
use crate::reduction::{reduce_spec, reduction_function1, ReductionError};
use crate::store::{
    column_candidate, column_hit, fill_entries, find_endpoint, insert_entry, lemma_find_endpoint,
    lemma_find_endpoint_at, lemma_insert_entry_unique, scan_columns, unique_endpoints, words_view,
    EntryView,
};

verus! {

/// Failure of a lookup attempt at one column.
#[derive(Debug, PartialEq, Eq)]
pub enum LookupError {
    /// A reduction step failed during chain simulation or replay.
    ReductionError { source: ReductionError },
    /// An endpoint matched but the replayed plaintext did not hash to the
    /// target: a false positive from an endpoint merge or a column
    /// misattribution. Expected and recoverable.
    InvalidMatch {
        hash: String,
        iteration: u32,
        first_column: String,
        last_column: String,
        plaintext: String,
    },
    /// Any other failure.
    Other { message: String },
}

/// A rainbow table: maps each chain's last-column plaintext to its
/// first-column plaintext. Chains are generated with `iterations`
/// columns; plaintexts and truncated digests both have `length`
/// characters.
pub struct RainbowTable {
    /// Chains use the reduction with column indices `1..iterations - 1`.
    iterations: u32,
    /// The length of reduced plaintexts and of truncated digests.
    length: u32,
    /// The stored chains: (last column, first column), unique keys.
    entries: Vec<(String, String)>,
}

impl RainbowTable {
    /// The number of chain columns the table was configured with.
    pub closed spec fn spec_iterations(&self) -> u32 {
        self.iterations
    }

    /// The reduced plaintext length the table was configured with.
    pub closed spec fn spec_length(&self) -> u32 {
        self.length
    }

    /// Model: the stored chains as view pairs, in storage order.
    pub closed spec fn entries_view(&self) -> Seq<EntryView> {
        Seq::new(self.entries@.len(), |i: int| (self.entries@[i].0@, self.entries@[i].1@))
    }

    /// Well-formedness: a usable plaintext length (nonzero, and no longer
    /// than the digest's 56 hexadecimal characters), and unique endpoints.
    pub open spec fn wf(&self) -> bool {
        &&& 1 <= self.spec_length() <= 56
        &&& unique_endpoints(self.entries_view())
    }

    /// Creates an empty table for the given chain column count and
    /// plaintext length.
    pub fn new(iterations: u32, length: u32) -> (r: RainbowTable)
        requires
            1 <= length <= 56,
        ensures
            r.wf(),
            r.spec_iterations() == iterations,
            r.spec_length() == length,
            r.entries_view() == Seq::<EntryView>::empty(),
    {
        let r = RainbowTable { iterations, length, entries: Vec::new() };
        proof {
            assert(r.entries_view() =~= Seq::<EntryView>::empty());
        }
        r
    }

    /// The number of chains the table holds.
    pub fn get_chain_count(&self) -> (n: usize)
        ensures
            n == self.entries_view().len(),
    {
        self.entries.len()
    }

    /// Generates a single chain from `word` and returns the last column's
    /// plaintext. With one column or none the seed itself comes back
    /// unchanged; otherwise the endpoint has exactly `length` characters,
    /// all lowercase letters.
    pub fn calc_chain(&self, word: &str) -> (r: Result<String, ReductionError>)
        requires
            self.wf(),
        ensures
            r is Ok,
            r->Ok_0@ == chain_end(
                word@,
                self.spec_length() as nat,
                self.spec_iterations() as nat,
            ),
            self.spec_iterations() <= 1 ==> r->Ok_0@ == word@,
            self.spec_iterations() >= 2 ==> r->Ok_0@.len() == self.spec_length() && forall|k: int|
                0 <= k < self.spec_length() ==> 97 <= (#[trigger] r->Ok_0@[k]) as int <= 122,
    {
        proof {
            if self.spec_iterations() >= 2 {
                crate::chain::lemma_chain_end_shape(
                    word@,
                    self.spec_length() as nat,
                    self.spec_iterations() as nat,
                );
            }
        }
        let ghost l = self.spec_length() as nat;
        let mut last_column = String::from_str(word);
        let mut i: u32 = 1;
        while i < self.iterations
            invariant
                self.wf(),
                1 <= i,
                self.iterations >= 1 ==> i <= self.iterations,
                self.iterations < 1 ==> i == 1,
                last_column@ == chain_col(word@, l, (i - 1) as nat),
                l == self.spec_length() as nat,
            decreases self.iterations - i,
        {
            let digest = hash(last_column.as_str(), self.length);
            last_column = match reduction_function1(digest.as_str(), self.length, i) {
                Ok(next_plaintext) => next_plaintext,
                Err(err) => {
                    proof {
                        assert(false);
                    }
                    return Err(err);
                },
            };
            i = i + 1;
        }
        Ok(last_column)
    }

    /// Stores one chain, overwriting the seed of an endpoint already
    /// present (last write wins).
    fn insert_chain(&mut self, last_column: String, first_column: String)
        requires
            old(self).wf(),
        ensures
            final(self).wf(),
            final(self).spec_iterations() == old(self).spec_iterations(),
            final(self).spec_length() == old(self).spec_length(),
            final(self).entries_view() == insert_entry(
                old(self).entries_view(),
                last_column@,
                first_column@,
            ),
    {
        let ghost s = self.entries_view();
        let mut j: usize = 0;
        while j < self.entries.len()
            invariant
                *self == *old(self),
                old(self).wf(),
                s == self.entries_view(),
                unique_endpoints(s),
                0 <= j <= self.entries@.len(),
                forall|k: int| 0 <= k < j ==> (#[trigger] s[k]).0 != last_column@,
            decreases self.entries@.len() - j,
        {
            if self.entries[j].0 == last_column {
                proof {
                    lemma_find_endpoint_at(s, last_column@, j as int);
                    lemma_insert_entry_unique(s, last_column@, first_column@);
                }
                self.entries[j] = (last_column, first_column);
                proof {
                    assert(self.entries_view() =~= insert_entry(
                        s,
                        self.entries_view()[j as int].0,
                        self.entries_view()[j as int].1,
                    ));
                }
                return ;
            }
            j = j + 1;
        }
        proof {
            lemma_find_endpoint(s, last_column@);
            if find_endpoint(s, last_column@) != -1 {
                assert(false);
            }
            lemma_insert_entry_unique(s, last_column@, first_column@);
        }
        self.entries.push((last_column, first_column));
        proof {
            assert(self.entries_view() =~= insert_entry(
                s,
                self.entries_view().last().0,
                self.entries_view().last().1,
            ));
        }
    }

    /// What a lookup attempt at column `c` recomputes, before validation.
    pub open spec fn spec_candidate(&self, target: Seq<char>, c: nat) -> Option<Seq<char>> {
        column_candidate(
            self.entries_view(),
            target,
            self.spec_length() as nat,
            c,
            self.spec_iterations() as nat,
        )
    }

    /// The validated hit of a lookup attempt at column `c`.
    pub open spec fn spec_hit(&self, target: Seq<char>, c: nat) -> Option<Seq<char>> {
        column_hit(
            self.entries_view(),
            target,
            self.spec_length() as nat,
            c,
            self.spec_iterations() as nat,
        )
    }

    /// What a full lookup returns: the first validated hit over candidate
    /// columns from the last down to 1.
    pub open spec fn spec_scan(&self, target: Seq<char>) -> Option<Seq<char>> {
        scan_columns(
            self.entries_view(),
            target,
            self.spec_length() as nat,
            if self.spec_iterations() >= 1 {
                (self.spec_iterations() - 1) as nat
            } else {
                0
            },
            self.spec_iterations() as nat,
        )
    }

    /// Generates a chain for each word of the wordlist, in order, and
    /// stores each into the table as it is computed.
    pub fn fill(&mut self, wordlist: &[String]) -> (r: Result<(), ReductionError>)
        requires
            old(self).wf(),
        ensures
            final(self).wf(),
            r is Ok,
            final(self).spec_iterations() == old(self).spec_iterations(),
            final(self).spec_length() == old(self).spec_length(),
            final(self).entries_view() == fill_entries(
                old(self).entries_view(),
                words_view(wordlist@),
                old(self).spec_length() as nat,
                old(self).spec_iterations() as nat,
            ),
    {
        let ghost s0 = old(self).entries_view();
        let ghost ws = words_view(wordlist@);
        let ghost l = old(self).spec_length() as nat;
        let ghost iters = old(self).spec_iterations() as nat;
        let mut k: usize = 0;
        while k < wordlist.len()
            invariant
                self.wf(),
                0 <= k <= wordlist@.len(),
                ws == words_view(wordlist@),
                ws.len() == wordlist@.len(),
                self.spec_iterations() == old(self).spec_iterations(),
                self.spec_length() == old(self).spec_length(),
                l == old(self).spec_length() as nat,
                iters == old(self).spec_iterations() as nat,
                self.entries_view() == fill_entries(s0, ws.take(k as int), l, iters),
            decreases wordlist@.len() - k,
        {
            let word = &wordlist[k];
            let last_column = match self.calc_chain(word.as_str()) {
                Ok(v) => v,
                Err(e) => {
                    proof {
                        assert(false);
                    }
                    return Err(e);
                },
            };
            self.insert_chain(last_column, word.clone());
            proof {
                assert(ws.take(k + 1).drop_last() =~= ws.take(k as int));
                assert(ws.take(k + 1).last() == ws[k as int]);
            }
            k = k + 1;
        }
        proof {
            assert(ws.take(wordlist@.len() as int) =~= ws);
        }
        Ok(())
    }

    /// Relies on rayon's `par_iter`, `map` and `collect` into
    /// `Result<Vec<_>, _>`: the closure runs once per word and only calls
    /// the verified `calc_chain`; on success the results are collected in
    /// input order; any failure fails the whole batch, and `calc_chain`'s
    /// own contract rules failure out for a well-formed table.
    #[verifier::external_body]
    fn par_chains(&self, wordlist: &[String]) -> (r: Result<Vec<(String, String)>, ReductionError>)
        requires
            self.wf(),
        ensures
            r is Ok,
            r->Ok_0@.len() == wordlist@.len(),
            forall|i: int|
                0 <= i < wordlist@.len() ==> (#[trigger] r->Ok_0@[i]).0@ == wordlist@[i]@
                    && r->Ok_0@[i].1@ == chain_end(
                    wordlist@[i]@,
                    self.spec_length() as nat,
                    self.spec_iterations() as nat,
                ),
    {
        wordlist.par_iter().map(
            |word: &String| self.calc_chain(word.as_str()).map(|last_column| (word.clone(), last_column)),
        ).collect()
    }

    /// Generates a chain for each word of the wordlist in parallel;
    /// either every chain is computed and all are stored as one batch, in
    /// wordlist order, or nothing is stored. The resulting table is the
    /// one a sequential fill over the same wordlist produces.
    pub fn fill_parallel(&mut self, wordlist: &[String]) -> (r: Result<(), ReductionError>)
        requires
            old(self).wf(),
        ensures
            final(self).wf(),
            r is Ok,
            final(self).spec_iterations() == old(self).spec_iterations(),
            final(self).spec_length() == old(self).spec_length(),
            final(self).entries_view() == fill_entries(
                old(self).entries_view(),
                words_view(wordlist@),
                old(self).spec_length() as nat,
                old(self).spec_iterations() as nat,
            ),
    {
        let ghost s0 = old(self).entries_view();
        let ghost ws = words_view(wordlist@);
        let ghost l = old(self).spec_length() as nat;
        let ghost iters = old(self).spec_iterations() as nat;
        let result = match self.par_chains(wordlist) {
            Ok(pairs) => pairs,
            Err(e) => {
                proof {
                    assert(false);
                }
                return Err(e);
            },
        };
        let mut k: usize = 0;
        while k < result.len()
            invariant
                self.wf(),
                0 <= k <= result@.len(),
                result@.len() == wordlist@.len(),
                ws == words_view(wordlist@),
                ws.len() == wordlist@.len(),
                forall|i: int|
                    0 <= i < wordlist@.len() ==> (#[trigger] result@[i]).0@ == wordlist@[i]@
                        && result@[i].1@ == chain_end(wordlist@[i]@, l, iters),
                self.spec_iterations() == old(self).spec_iterations(),
                self.spec_length() == old(self).spec_length(),
                l == old(self).spec_length() as nat,
                iters == old(self).spec_iterations() as nat,
                self.entries_view() == fill_entries(s0, ws.take(k as int), l, iters),
            decreases result@.len() - k,
        {
            let last_column = result[k].1.clone();
            let first_column = result[k].0.clone();
            self.insert_chain(last_column, first_column);
            proof {
                assert(ws.take(k + 1).drop_last() =~= ws.take(k as int));
                assert(ws.take(k + 1).last() == ws[k as int]);
            }
            k = k + 1;
        }
        proof {
            assert(ws.take(wordlist@.len() as int) =~= ws);
        }
        Ok(())
    }

    /// Renders the table in its persisted form: one `seed,endpoint`
    /// record per stored chain, in storage order.
    pub fn save_to_string(&self) -> (r: String)
        ensures
            r@ == crate::codec::encode_records(self.entries_view()),
    {
        let ghost s = self.entries_view();
        let mut out = String::new();
        let mut k: usize = 0;
        while k < self.entries.len()
            invariant
                s == self.entries_view(),
                0 <= k <= self.entries@.len(),
                s.len() == self.entries@.len(),
                out@ == crate::codec::encode_records(s.take(k as int)),
            decreases self.entries@.len() - k,
        {
            crate::codec::encode_record_into(
                &mut out,
                self.entries[k].1.as_str(),
                self.entries[k].0.as_str(),
            );
            proof {
                assert(s.take(k + 1).drop_last() =~= s.take(k as int));
                assert(s.take(k + 1).last() == s[k as int]);
            }
            k = k + 1;
        }
        proof {
            assert(s.take(s.len() as int) =~= s);
        }
        out
    }

    /// Replaces the table's contents with the given `(seed, endpoint)`
    /// records, inserted in order as endpoint maps-to seed.
    pub fn load_from_records(&mut self, records: &[(String, String)])
        requires
            old(self).wf(),
        ensures
            final(self).wf(),
            final(self).spec_iterations() == old(self).spec_iterations(),
            final(self).spec_length() == old(self).spec_length(),
            final(self).entries_view() == crate::store::load_entries(
                crate::codec::pairs_view(records@),
            ),
    {
        let ghost rs = crate::codec::pairs_view(records@);
        self.entries.clear();
        proof {
            assert(self.entries_view() =~= Seq::<EntryView>::empty());
        }
        let mut k: usize = 0;
        while k < records.len()
            invariant
                self.wf(),
                0 <= k <= records@.len(),
                rs == crate::codec::pairs_view(records@),
                rs.len() == records@.len(),
                self.spec_iterations() == old(self).spec_iterations(),
                self.spec_length() == old(self).spec_length(),
                self.entries_view() == crate::store::load_entries(rs.take(k as int)),
            decreases records@.len() - k,
        {
            let endpoint = records[k].1.clone();
            let seed = records[k].0.clone();
            self.insert_chain(endpoint, seed);
            proof {
                assert(rs.take(k + 1).drop_last() =~= rs.take(k as int));
                assert(rs.take(k + 1).last() == rs[k as int]);
            }
            k = k + 1;
        }
        proof {
            assert(rs.take(records@.len() as int) =~= rs);
        }
    }

    /// Replaces the table's contents with the chains of the persisted
    /// text. On a malformed record nothing is loaded: the error is
    /// returned and the table is left unchanged.
    pub fn load_from_string(&mut self, data: &str) -> (r: Result<(), crate::codec::LoadError>)
        requires
            old(self).wf(),
        ensures
            final(self).wf(),
            final(self).spec_iterations() == old(self).spec_iterations(),
            final(self).spec_length() == old(self).spec_length(),
            r is Ok <==> crate::codec::parse_records_spec(data@) is Some,
            crate::codec::parse_records_spec(data@) matches Some(rs) ==> final(self).entries_view()
                == crate::store::load_entries(rs),
            r is Err ==> *final(self) == *old(self),
    {
        let records = match crate::codec::parse_records(data) {
            Ok(v) => v,
            Err(e) => {
                return Err(e);
            },
        };
        self.load_from_records(records.as_slice());
        Ok(())
    }

    /// The position of the chain whose endpoint equals `endpoint`, if any.
    fn find_seed_index(&self, endpoint: &String) -> (r: Option<usize>)
        ensures
            r matches Some(j) ==> 0 <= j < self.entries_view().len()
                && self.entries_view()[j as int].0 == endpoint@ && find_endpoint(
                self.entries_view(),
                endpoint@,
            ) == j,
            r is None ==> find_endpoint(self.entries_view(), endpoint@) == -1,
    {
        let ghost s = self.entries_view();
        let mut j: usize = 0;
        while j < self.entries.len()
            invariant
                s == self.entries_view(),
                0 <= j <= self.entries@.len(),
                forall|k: int| 0 <= k < j ==> (#[trigger] s[k]).0 != endpoint@,
            decreases self.entries@.len() - j,
        {
            if self.entries[j].0 == *endpoint {
                proof {
                    lemma_find_endpoint_at(s, endpoint@, j as int);
                }
                return Some(j);
            }
            j = j + 1;
        }
        proof {
            lemma_find_endpoint(s, endpoint@);
        }
        None
    }

    /// Checks whether the target digest sits at the chain column given by
    /// `iteration`: walks forward to an endpoint candidate, consults the
    /// store, and on a hit replays the stored chain and validates the
    /// recomputed plaintext against the target.
    pub fn lookup_for_iteration(&self, hash_str: &str, iteration: u32) -> (r: Result<
        Option<String>,
        LookupError,
    >)
        requires
            self.wf(),
            1 <= iteration < self.spec_iterations(),
        ensures
            r is Ok && r->Ok_0 is Some <==> hash_str@.len() > 0 && self.spec_hit(
                hash_str@,
                iteration as nat,
            ) is Some,
            r is Ok && r->Ok_0 is Some ==> r->Ok_0->0@ == self.spec_hit(
                hash_str@,
                iteration as nat,
            )->0,
            r is Ok && r->Ok_0 is None <==> hash_str@.len() > 0 && self.spec_candidate(
                hash_str@,
                iteration as nat,
            ) is None,
            hash_str@.len() == 0 ==> r is Err && r->Err_0 is ReductionError,
            hash_str@.len() > 0 && self.spec_candidate(hash_str@, iteration as nat) is Some
                && self.spec_hit(hash_str@, iteration as nat) is None ==> r is Err
                && r->Err_0 is InvalidMatch && r->Err_0->InvalidMatch_plaintext@
                == self.spec_candidate(hash_str@, iteration as nat)->0,
    {
        let ghost s = self.entries_view();
        let ghost target = hash_str@;
        let ghost l = self.spec_length() as nat;
        let ghost c = iteration as nat;
        let ghost iters = self.spec_iterations() as nat;
        let target_string = hash_str.to_owned();
        let mut tmp_hash_str = hash_str.to_owned();
        let mut tmp_reduced_str = String::new();

        // Walk from the assumed column to the last column: the endpoint
        // this target would produce if it sat at column `iteration`.
        let mut i = iteration;
        while i < self.iterations
            invariant
                self.wf(),
                s == self.entries_view(),
                target == hash_str@,
                l == self.spec_length() as nat,
                c == iteration as nat,
                iters == self.spec_iterations() as nat,
                1 <= iteration < iters,
                iteration <= i <= iters,
                i == iteration ==> tmp_hash_str@ == target,
                i > iteration ==> tmp_reduced_str@ == sim_col(target, l, c, (i - 1) as nat)
                    && tmp_hash_str@ == hash_of(sim_col(target, l, c, (i - 1) as nat), l),
                i > iteration ==> target.len() > 0,
            decreases iters - i,
        {
            tmp_reduced_str = match reduction_function1(tmp_hash_str.as_str(), self.length, i) {
                Ok(v) => v,
                Err(e) => {
                    proof {
                        assert(i == iteration && target.len() == 0);
                    }
                    return Err(LookupError::ReductionError { source: e });
                },
            };
            proof {
                if i == iteration {
                    assert(sim_col(target, l, c, i as nat) == reduce_spec(target, l, c));
                } else {
                    assert(sim_col(target, l, c, i as nat) == reduce_spec(
                        hash_of(sim_col(target, l, c, (i - 1) as nat), l),
                        l,
                        i as nat,
                    ));
                }
            }
            tmp_hash_str = hash(tmp_reduced_str.as_str(), self.length);
            i = i + 1;
        }
        proof {
            assert(tmp_reduced_str@ == sim_col(target, l, c, (iters - 1) as nat));
        }

        // Consult the store for a chain ending in that candidate.
        match self.find_seed_index(&tmp_reduced_str) {
            Some(idx) => {
                let first_column = self.entries[idx].1.clone();
                // Replay the stored chain up to the column in question.
                let mut plaintext = first_column.clone();
                let mut j: u32 = 1;
                while j < iteration
                    invariant
                        self.wf(),
                        l == self.spec_length() as nat,
                        1 <= j <= iteration,
                        plaintext@ == chain_col(first_column@, l, (j - 1) as nat),
                    decreases iteration - j,
                {
                    let digest = hash(plaintext.as_str(), self.length);
                    plaintext = match reduction_function1(digest.as_str(), self.length, j) {
                        Ok(v) => v,
                        Err(e) => {
                            proof {
                                assert(false);
                            }
                            return Err(LookupError::ReductionError { source: e });
                        },
                    };
                    j = j + 1;
                }
                proof {
                    assert(plaintext@ == self.spec_candidate(target, c)->0);
                }
                // Validate the recomputed plaintext against the target, so
                // that merged chains cannot produce a wrong answer.
                let final_hash = hash(plaintext.as_str(), self.length);
                if final_hash == target_string {
                    Ok(Some(plaintext))
                } else {
                    Err(
                        LookupError::InvalidMatch {
                            hash: hash_str.to_owned(),
                            iteration,
                            first_column,
                            last_column: tmp_reduced_str,
                            plaintext,
                        },
                    )
                }
            },
            None => Ok(None),
        }
    }

    /// Searches the table for a plaintext whose hash is the target: tries
    /// every candidate column from the last down to the first, passing
    /// over columns that miss, fail to reduce, or fail validation. A
    /// returned plaintext always hashes to the target; `Ok(None)` means
    /// no column produced a validated match.
    pub fn lookup(&self, hash_str: &str) -> (r: Result<Option<String>, LookupError>)
        requires
            self.wf(),
        ensures
            r is Ok,
            r->Ok_0 is Some <==> self.spec_scan(hash_str@) is Some,
            r->Ok_0 matches Some(p) ==> p@ == self.spec_scan(hash_str@)->0 && hash_of(
                p@,
                self.spec_length() as nat,
            ) == hash_str@,
    {
        let ghost s = self.entries_view();
        let ghost target = hash_str@;
        let ghost l = self.spec_length() as nat;
        let ghost iters = self.spec_iterations() as nat;
        let ghost top: nat = if iters >= 1 {
            (iters - 1) as nat
        } else {
            0
        };
        let mut i: u32 = self.iterations;
        while i > 1
            invariant
                self.wf(),
                s == self.entries_view(),
                target == hash_str@,
                l == self.spec_length() as nat,
                iters == self.spec_iterations() as nat,
                top == (if iters >= 1 {
                    (iters - 1) as nat
                } else {
                    0
                }),
                i <= iters || (iters == 0 && i == 0),
                scan_columns(s, target, l, top, iters) == scan_columns(
                    s,
                    target,
                    l,
                    (if i >= 1 {
                        (i - 1) as nat
                    } else {
                        0
                    }),
                    iters,
                ),
            decreases i,
        {
            i = i - 1;
            match self.lookup_for_iteration(hash_str, i) {
                Ok(Some(candidate)) => {
                    proof {
                        assert(scan_columns(s, target, l, i as nat, iters) == Some(candidate@));
                    }
                    return Ok(Some(candidate));
                },
                Ok(None) => {
                    proof {
                        assert(self.spec_hit(target, i as nat) is None);
                    }
                },
                Err(_) => {
                    proof {
                        if target.len() > 0 {
                            assert(self.spec_hit(target, i as nat) is None);
                        }
                    }
                },
            }
        }
        Ok(None)
    }
}

} // verus!
