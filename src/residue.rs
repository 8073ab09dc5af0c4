//! Addition and multiplication tables of the residues modulo `n`, with the primes up to `n`.
use vstd::prelude::*;
use crate::arith::spec_is_prime;
use crate::math::{
    get_primes, is_prime, is_residue_table, lemma_prime_list_unique, lists_primes_up_to,
    remainder_table, TableOp,
};

verus! {

/// The residue tables for one modulus: both are `(modulus + 1) x (modulus + 1)`,
/// indexed by `0..=modulus`.
pub struct ResidueTable {
    pub modulus: usize,
    pub modulus_is_prime: bool,
    pub primes_up_to_modulus: Vec<usize>,
    pub addition_table: Vec<Vec<usize>>,
    pub multiplication_table: Vec<Vec<usize>>,
}

/// Why no residue table could be built.
#[derive(Clone, Copy, Debug, PartialEq, Eq, Structural)]
pub enum ResidueError {
    /// Remainders modulo zero are not defined.
    ZeroModulus,
}

/// `t` holds the residue tables for `m`.
pub open spec fn is_residue_table_for(t: ResidueTable, m: nat) -> bool {
    &&& t.modulus == m
    &&& t.modulus_is_prime == spec_is_prime(m)
    &&& lists_primes_up_to(t.primes_up_to_modulus@, m)
    &&& is_residue_table(t.addition_table@, m, TableOp::Add)
    &&& is_residue_table(t.multiplication_table@, m, TableOp::Multiply)
}

/// The residue tables for a modulus are determined by it: two results that both
/// meet the description hold the same flag, primes and table entries.
pub proof fn lemma_residue_tables_determined(m: nat, t1: ResidueTable, t2: ResidueTable)
    requires
        is_residue_table_for(t1, m),
        is_residue_table_for(t2, m),
    ensures
        t1.modulus == t2.modulus,
        t1.modulus_is_prime == t2.modulus_is_prime,
        t1.primes_up_to_modulus@ == t2.primes_up_to_modulus@,
        forall|r: int| 0 <= r <= m ==> #[trigger] t1.addition_table@[r]@ == t2.addition_table@[r]@,
        forall|r: int| 0 <= r <= m ==> #[trigger] t1.multiplication_table@[r]@ == t2.multiplication_table@[r]@,
{
    lemma_prime_list_unique(m, t1.primes_up_to_modulus@, t2.primes_up_to_modulus@);
    assert forall|r: int| 0 <= r <= m implies #[trigger] t1.addition_table@[r]@ == t2.addition_table@[r]@ by {
        assert(t1.addition_table@[r]@ =~= t2.addition_table@[r]@);
    }
    assert forall|r: int| 0 <= r <= m implies #[trigger] t1.multiplication_table@[r]@
        == t2.multiplication_table@[r]@ by {
        assert(t1.multiplication_table@[r]@ =~= t2.multiplication_table@[r]@);
    }
}

/// Builds the addition and multiplication tables modulo `modulus`, whether the
/// modulus is prime, and the primes up to it. A zero modulus is refused.
pub fn build_residue_tables(modulus: usize) -> (r: Result<ResidueTable, ResidueError>)
    requires
        modulus < usize::MAX,
    ensures
        r is Err <==> modulus == 0,
        r matches Err(e) ==> e == ResidueError::ZeroModulus,
        r matches Ok(t) ==> is_residue_table_for(t, modulus as nat),
{
    if modulus == 0 {
        return Err(ResidueError::ZeroModulus);
    }
    let modulus_is_prime = is_prime(modulus);
    let primes_up_to_modulus = get_primes(modulus);
    let addition_table = remainder_table(modulus, TableOp::Add);
    let multiplication_table = remainder_table(modulus, TableOp::Multiply);
    Ok(
        ResidueTable {
            modulus,
            modulus_is_prime,
            primes_up_to_modulus,
            addition_table,
            multiplication_table,
        },
    )
}

} // verus!
