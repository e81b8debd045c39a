//! The mathematical model of chains: what each column of a chain holds,
//! from a seed plaintext through alternating hash and reduce steps, and
//! what the simulated partial chains of a lookup hold.

use vstd::prelude::*;

use crate::hashing::hash_of;
use crate::reduction::{reduce_char, reduce_seq, reduce_spec, reduce_value};

verus! {

/// The plaintext at column `j` of the chain seeded by `seed`, for reduced
/// plaintext length `l`: column 0 is the seed, and column `j` comes from
/// hashing column `j - 1` and reducing with column index `j`.
pub open spec fn chain_col(seed: Seq<char>, l: nat, j: nat) -> Seq<char>
    decreases j,
{
    if j == 0 {
        seed
    } else {
        reduce_spec(hash_of(chain_col(seed, l, (j - 1) as nat), l), l, j)
    }
}

/// The endpoint of a chain built with `iters` columns: the plaintext at
/// the last column. With one column or none, no step runs and the seed
/// itself is the endpoint.
pub open spec fn chain_end(seed: Seq<char>, l: nat, iters: nat) -> Seq<char> {
    if iters <= 1 {
        seed
    } else {
        chain_col(seed, l, (iters - 1) as nat)
    }
}

/// The simulated plaintext at column `i`, assuming the target digest sits
/// at column `c` (so the first step reduces the target itself with index
/// `c`, and later columns follow the ordinary hash-reduce walk).
pub open spec fn sim_col(target: Seq<char>, l: nat, c: nat, i: nat) -> Seq<char>
    decreases i,
{
    if i <= c {
        reduce_spec(target, l, c)
    } else {
        reduce_spec(hash_of(sim_col(target, l, c, (i - 1) as nat), l), l, i)
    }
}

/// Every reduced plaintext has exactly `l` characters, all lowercase
/// letters.
pub proof fn lemma_reduce_spec_shape(d: Seq<char>, l: nat, i: nat)
    ensures
        reduce_spec(d, l, i).len() == l,
        forall|k: int|
            0 <= k < l ==> 97 <= (#[trigger] reduce_spec(d, l, i)[k]) as int <= 122,
{
    let m = reduce_value(d, l, i);
    assert(reduce_spec(d, l, i) == reduce_seq(m, l));
    assert forall|k: int| 0 <= k < l implies 97 <= (#[trigger] reduce_spec(d, l, i)[k]) as int
        <= 122 by {
        assert(reduce_seq(m, l)[k] == reduce_char(m, k as nat));
        let v = (m / crate::reduction::pow26(k as nat)) % 26;
        assert(v < 26);
        assert(reduce_char(m, k as nat) == (97 + v) as char);
    }
}

/// Every chain column past the seed, and so the endpoint of any chain
/// with at least two columns, has exactly `l` lowercase letters.
pub proof fn lemma_chain_end_shape(seed: Seq<char>, l: nat, iters: nat)
    requires
        iters >= 2,
    ensures
        chain_end(seed, l, iters).len() == l,
        forall|k: int|
            0 <= k < l ==> 97 <= (#[trigger] chain_end(seed, l, iters)[k]) as int <= 122,
{
    let j = (iters - 1) as nat;
    assert(chain_col(seed, l, j) == reduce_spec(hash_of(chain_col(seed, l, (j - 1) as nat), l), l, j));
    lemma_reduce_spec_shape(hash_of(chain_col(seed, l, (j - 1) as nat), l), l, j);
}

} // verus!
