//! Protocol parameters and the collaborators the prover consumes.
use vstd::prelude::*;
use vstd::arithmetic::power2::pow2;
use vstd::bits::{lemma_usize_shl_is_mul, lemma_usize_pow2_no_overflow};

verus! {

/// The values of a vector of field elements, in order.
pub type Elements<F> = Seq<F>;

/// The values and the width of each of a list of tables.
pub type TableList<F> = Seq<(Seq<F>, usize)>;

/// The values of each of a list of rows.
pub type RowList<F> = Seq<Seq<F>>;

/// A field element, as far as the prover needs one: it can be added.
pub trait FieldElement: Copy + Sized {
    /// The sum of two elements.
    spec fn sum(self, rhs: Self) -> Self;

    fn add(self, rhs: Self) -> (r: Self)
        ensures
            r == self.sum(rhs),
    ;
}

/// A row-major table of field elements.
pub struct Table<F> {
    pub values: Vec<F>,
    pub width: usize,
}

impl<F> View for Table<F> {
    type V = (Seq<F>, usize);

    open spec fn view(&self) -> (Seq<F>, usize) {
        (self.values@, self.width)
    }
}

/// A vector commitment scheme over tables.
pub trait Mmcs<F> {
    type Commitment;

    type ProverData;

    type Proof;

    /// The commitment to a two-column table and the state retained for it.
    spec fn commit_spec(&self, values: Elements<F>) -> (Self::Commitment, Self::ProverData);

    /// The tables retained under a handle.
    spec fn matrices_spec(&self, data: &Self::ProverData) -> TableList<F>;

    /// The rows opened at an index, one per retained table, and their proof.
    spec fn open_spec(&self, index: usize, data: &Self::ProverData) -> (RowList<F>, Self::Proof);

    fn commit_matrix(&self, table: Table<F>) -> (r: (Self::Commitment, Self::ProverData))
        requires
            table.width == 2,
            table.values@.len() % 2 == 0,
        ensures
            r == self.commit_spec(table.values@),
    ;

    fn get_matrices(&self, data: &Self::ProverData) -> (r: Vec<Table<F>>)
        ensures
            r@.map_values(|t: Table<F>| t@) == self.matrices_spec(data),
    ;

    fn open_batch(&self, index: usize, data: &Self::ProverData) -> (r: (Vec<Vec<F>>, Self::Proof))
        ensures
            r.0@.map_values(|row: Vec<F>| row@) == self.open_spec(index, data).0,
            r.1 == self.open_spec(index, data).1,
    ;
}

/// A Fiat-Shamir transcript: each operation is a function of the state it
/// finds and of its arguments.
pub trait FriChallenger<F, C>: Sized {
    type Witness;

    spec fn observe_spec(self, commitment: C) -> Self;

    spec fn sample_spec(self) -> (F, Self);

    spec fn sample_bits_spec(self, bits: usize) -> (usize, Self);

    spec fn grind_spec(self, bits: usize) -> (Self::Witness, Self);

    fn observe(&mut self, commitment: &C)
        ensures
            *final(self) == old(self).observe_spec(*commitment),
    ;

    fn sample(&mut self) -> (r: F)
        ensures
            (r, *final(self)) == old(self).sample_spec(),
    ;

    fn sample_bits(&mut self, bits: usize) -> (r: usize)
        ensures
            (r, *final(self)) == old(self).sample_bits_spec(bits),
    ;

    fn grind(&mut self, bits: usize) -> (r: Self::Witness)
        ensures
            (r, *final(self)) == old(self).grind_spec(bits),
    ;
}

/// The folding rule of one FRI variant.
pub trait FriGenericConfig<F> {
    type InputProof;

    /// How many bits wider than the largest oracle's index a query index is.
    spec fn extra_bits_spec(&self) -> usize;

    /// The vector that a two-column table folds to under a challenge.
    spec fn fold_spec(&self, beta: F, values: Elements<F>) -> Elements<F>;

    fn extra_query_index_bits(&self) -> (r: usize)
        ensures
            r == self.extra_bits_spec(),
    ;

    fn fold_matrix(&self, beta: F, table: &Table<F>) -> (r: Vec<F>)
        requires
            table.width == 2,
        ensures
            r@ == self.fold_spec(beta, table.values@),
    ;
}

/// The parameters of a proof.
pub struct FriConfig<M> {
    pub log_blowup: usize,
    pub log_final_poly_len: usize,
    pub num_queries: usize,
    pub proof_of_work_bits: usize,
    pub mmcs: M,
}

impl<M> FriConfig<M> {
    /// Both lengths fit a machine word.
    pub open spec fn valid(&self) -> bool {
        self.log_blowup < usize::BITS && self.log_final_poly_len < usize::BITS
    }

    /// The length at or below which the folded vector is sent in the clear.
    pub open spec fn threshold(&self) -> nat {
        if pow2(self.log_blowup as nat) >= pow2(self.log_final_poly_len as nat) {
            pow2(self.log_blowup as nat)
        } else {
            pow2(self.log_final_poly_len as nat)
        }
    }

    /// Tells whether the configuration is valid.
    pub fn is_valid(&self) -> (r: bool)
        ensures
            r == self.valid(),
    {
        self.log_blowup < usize::BITS as usize && self.log_final_poly_len < usize::BITS as usize
    }

    pub fn blowup(&self) -> (r: usize)
        requires
            self.valid(),
        ensures
            r == pow2(self.log_blowup as nat),
    {
        proof {
            lemma_usize_pow2_no_overflow(self.log_blowup as nat);
            lemma_usize_shl_is_mul(1usize, self.log_blowup);
        }
        1usize << self.log_blowup
    }

    pub fn final_poly_len(&self) -> (r: usize)
        requires
            self.valid(),
        ensures
            r == pow2(self.log_final_poly_len as nat),
    {
        proof {
            lemma_usize_pow2_no_overflow(self.log_final_poly_len as nat);
            lemma_usize_shl_is_mul(1usize, self.log_final_poly_len);
        }
        1usize << self.log_final_poly_len
    }
}

} // verus!
