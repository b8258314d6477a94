//! The commit phase, the query phase, and the proof they make.
use vstd::prelude::*;
use vstd::arithmetic::power2::{pow2, lemma_pow2_pos, lemma_pow2_unfold, lemma2_to64};
use vstd::bits::lemma_usize_shr_is_div;
use crate::config::{FieldElement, FriChallenger, FriConfig, FriGenericConfig, Mmcs, Table};
use crate::fri_proof::{CommitPhaseProofStep, FriError, FriProof, QueryProof};
use crate::powers::{
    is_power_of_two, is_power_of_two_usize, lemma_smaller_power_at_most_half, log2_floor, log2_strict,
};

verus! {

/// The values of each oracle.
pub open spec fn oracle_values<F>(inputs: Seq<Vec<F>>) -> Seq<Seq<F>> {
    inputs.map_values(|v: Vec<F>| v@)
}

/// The entry-wise sum of two vectors of one length.
pub open spec fn add_seq<F: FieldElement>(a: Seq<F>, b: Seq<F>) -> Seq<F> {
    Seq::new(a.len(), |i: int| a[i].sum(b[i]))
}

/// Every oracle's length is a power of two.
pub open spec fn lengths_are_powers_of_two<F>(oracles: Seq<Seq<F>>) -> bool {
    forall|i: int| 0 <= i < oracles.len() ==> is_power_of_two(#[trigger] oracles[i].len())
}

/// Each oracle is shorter than every one before it.
pub open spec fn strictly_decreasing<F>(oracles: Seq<Seq<F>>) -> bool {
    forall|i: int, j: int|
        0 <= i < j < oracles.len() ==> (#[trigger] oracles[j]).len() < (#[trigger] oracles[i]).len()
}

/// What is wrong with the oracles as supplied, if anything.
pub open spec fn input_fault<F>(oracles: Seq<Seq<F>>) -> Option<FriError> {
    if oracles.len() == 0 {
        Some(FriError::NoInputs)
    } else if !lengths_are_powers_of_two(oracles) {
        Some(FriError::LengthNotPowerOfTwo)
    } else if !strictly_decreasing(oracles) {
        Some(FriError::NotStrictlyDecreasing)
    } else {
        None
    }
}

/// Checks the oracles' lengths: powers of two, strictly decreasing.
pub fn check_inputs<F>(inputs: &Vec<Vec<F>>) -> (r: Result<(), FriError>)
    ensures
        match input_fault(oracle_values(inputs@)) {
            Some(e) => r == Err::<(), FriError>(e),
            None => r is Ok,
        },
{
    let ghost oracles = oracle_values(inputs@);
    if inputs.len() == 0 {
        return Err(FriError::NoInputs);
    }
    let mut i: usize = 0;
    while i < inputs.len()
        invariant
            i <= inputs.len(),
            oracles == oracle_values(inputs@),
            forall|j: int| 0 <= j < i ==> is_power_of_two(#[trigger] oracles[j].len()),
        decreases inputs.len() - i,
    {
        if !is_power_of_two_usize(inputs[i].len()) {
            assert(!is_power_of_two(oracles[i as int].len()));
            return Err(FriError::LengthNotPowerOfTwo);
        }
        i += 1;
    }
    let mut k: usize = 1;
    while k < inputs.len()
        invariant
            1 <= k <= inputs.len(),
            oracles == oracle_values(inputs@),
            lengths_are_powers_of_two(oracles),
            forall|a: int, b: int|
                0 <= a < b < k ==> (#[trigger] oracles[b]).len() < (#[trigger] oracles[a]).len(),
        decreases inputs.len() - k,
    {
        if inputs[k].len() >= inputs[k - 1].len() {
            assert(!(oracles[k as int].len() < oracles[k - 1].len()));
            return Err(FriError::NotStrictlyDecreasing);
        }
        assert(oracles[k as int].len() < oracles[k - 1].len());
        k += 1;
    }
    Ok(())
}

/// What the commit phase leaves behind.
pub struct CommitPhaseResult<F, C, D> {
    pub commits: Vec<C>,
    pub data: Vec<D>,
    pub final_poly: Vec<F>,
}

/// The commit phase as a mathematical object: the commitments and handles of
/// its rounds, the final polynomial, and the transcript it leaves.
pub struct CommitTrace<F, C, D, Ch> {
    pub commits: Seq<C>,
    pub data: Seq<D>,
    pub final_poly: Seq<F>,
    pub challenger: Ch,
}

/// A trace with one more round in front.
pub open spec fn after_round<F, C, D, Ch>(
    commit: C,
    data: D,
    rest: Result<CommitTrace<F, C, D, Ch>, FriError>,
) -> Result<CommitTrace<F, C, D, Ch>, FriError> {
    match rest {
        Ok(t) => Ok(
            CommitTrace {
                commits: seq![commit] + t.commits,
                data: seq![data] + t.data,
                final_poly: t.final_poly,
                challenger: t.challenger,
            },
        ),
        Err(e) => Err(e),
    }
}

/// A trace with earlier rounds in front.
pub open spec fn after_rounds<F, C, D, Ch>(
    commits: Seq<C>,
    data: Seq<D>,
    rest: Result<CommitTrace<F, C, D, Ch>, FriError>,
) -> Result<CommitTrace<F, C, D, Ch>, FriError> {
    match rest {
        Ok(t) => Ok(
            CommitTrace {
                commits: commits + t.commits,
                data: data + t.data,
                final_poly: t.final_poly,
                challenger: t.challenger,
            },
        ),
        Err(e) => Err(e),
    }
}

/// One round as a mathematical object: its commitment and handle, the
/// vector folded from it, and the transcript after the challenge was drawn.
pub struct RoundTrace<F, C, D, Ch> {
    pub commit: C,
    pub data: D,
    pub folded: Seq<F>,
    pub challenger: Ch,
}

/// One round: commit to the working vector as a two-column table, observe the
/// commitment, draw the challenge, and fold the retained table with it.
pub open spec fn commit_round<G, F, M, Ch>(
    g: &G,
    mmcs: &M,
    folded: Seq<F>,
    challenger: Ch,
) -> Result<RoundTrace<F, M::Commitment, M::ProverData, Ch>, FriError> where
    F: FieldElement,
    M: Mmcs<F>,
    Ch: FriChallenger<F, M::Commitment>,
    G: FriGenericConfig<F>,
 {
    let (commit, data) = mmcs.commit_spec(folded);
    let (beta, sampled) = challenger.observe_spec(commit).sample_spec();
    let tables = mmcs.matrices_spec(&data);
    if tables.len() == 0 || tables.last().1 != 2 {
        Err(FriError::MalformedTable)
    } else {
        let next = g.fold_spec(beta, tables.last().0);
        if next.len() * 2 != folded.len() {
            Err(FriError::FoldLengthMismatch)
        } else {
            Ok(RoundTrace { commit, data, folded: next, challenger: sampled })
        }
    }
}

/// The commit phase from a working vector, the oracles still to be mixed in,
/// and a transcript: round after round, mixing in the next oracle when the
/// folded vector has reached its length, until the vector is no longer than
/// `threshold` and nothing is pending.
#[verifier::opaque]
pub open spec fn commit_rounds<G, F, M, Ch>(
    g: &G,
    mmcs: &M,
    folded: Seq<F>,
    pending: Seq<Seq<F>>,
    challenger: Ch,
    threshold: nat,
) -> Result<CommitTrace<F, M::Commitment, M::ProverData, Ch>, FriError> where
    F: FieldElement,
    M: Mmcs<F>,
    Ch: FriChallenger<F, M::Commitment>,
    G: FriGenericConfig<F>,

    decreases folded.len(),
{
    if folded.len() < 2 || !(folded.len() > threshold || pending.len() > 0) {
        Ok(CommitTrace { commits: seq![], data: seq![], final_poly: folded, challenger })
    } else {
        match commit_round(g, mmcs, folded, challenger) {
            Err(e) => Err(e),
            Ok(round) => {
                if pending.len() > 0 && pending[0].len() == round.folded.len() {
                    after_round(
                        round.commit,
                        round.data,
                        commit_rounds(
                            g,
                            mmcs,
                            add_seq(round.folded, pending[0]),
                            pending.skip(1),
                            round.challenger,
                            threshold,
                        ),
                    )
                } else {
                    after_round(
                        round.commit,
                        round.data,
                        commit_rounds(g, mmcs, round.folded, pending, round.challenger, threshold),
                    )
                }
            },
        }
    }
}

/// How many times a vector of length `len` is halved before it is no longer
/// than `stop`.
pub open spec fn round_count(len: nat, stop: nat) -> nat
    decreases len,
{
    if len >= 2 && len > stop {
        1 + round_count(len / 2, stop)
    } else {
        0
    }
}

/// The length at which folding stops: the threshold, or the last oracle's
/// length where that is smaller.
pub open spec fn stop_length(threshold: nat, last_len: nat) -> nat {
    if threshold <= last_len {
        threshold
    } else {
        last_len
    }
}

/// Where the vector is no longer than the threshold and nothing is pending,
/// the commit phase is over: no round, and the vector is the final polynomial.
pub proof fn lemma_commit_rounds_done<G, F, M, Ch>(
    g: &G,
    mmcs: &M,
    folded: Seq<F>,
    pending: Seq<Seq<F>>,
    challenger: Ch,
    threshold: nat,
) where F: FieldElement, M: Mmcs<F>, Ch: FriChallenger<F, M::Commitment>, G: FriGenericConfig<F>
    requires
        folded.len() <= threshold,
        pending.len() == 0,
    ensures
        commit_rounds(g, mmcs, folded, pending, challenger, threshold) == Ok::<
            CommitTrace<F, M::Commitment, M::ProverData, Ch>,
            FriError,
        >(CommitTrace { commits: seq![], data: seq![], final_poly: folded, challenger }),
{
    reveal(commit_rounds);
}

/// Where a round is due and a collaborator's answer is malformed, the commit
/// phase fails with that round's error.
pub proof fn lemma_commit_rounds_fail<G, F, M, Ch>(
    g: &G,
    mmcs: &M,
    folded: Seq<F>,
    pending: Seq<Seq<F>>,
    challenger: Ch,
    threshold: nat,
) where F: FieldElement, M: Mmcs<F>, Ch: FriChallenger<F, M::Commitment>, G: FriGenericConfig<F>
    requires
        folded.len() >= 2,
        folded.len() > threshold || pending.len() > 0,
        commit_round(g, mmcs, folded, challenger) is Err,
    ensures
        commit_rounds(g, mmcs, folded, pending, challenger, threshold) is Err,
        commit_rounds(g, mmcs, folded, pending, challenger, threshold)->Err_0 == commit_round(
            g,
            mmcs,
            folded,
            challenger,
        )->Err_0,
{
    reveal(commit_rounds);
}

/// Where a round is due and succeeds, the commit phase is that round followed
/// by the commit phase from the folded vector, into which the next oracle has
/// been added if it has the folded vector's length.
pub proof fn lemma_commit_rounds_step<G, F, M, Ch>(
    g: &G,
    mmcs: &M,
    folded: Seq<F>,
    pending: Seq<Seq<F>>,
    challenger: Ch,
    threshold: nat,
) where F: FieldElement, M: Mmcs<F>, Ch: FriChallenger<F, M::Commitment>, G: FriGenericConfig<F>
    requires
        folded.len() >= 2,
        folded.len() > threshold || pending.len() > 0,
        commit_round(g, mmcs, folded, challenger) is Ok,
    ensures
        ({
            let round = commit_round(g, mmcs, folded, challenger)->Ok_0;
            let mixes = pending.len() > 0 && pending[0].len() == round.folded.len();
            commit_rounds(g, mmcs, folded, pending, challenger, threshold) == after_round(
                round.commit,
                round.data,
                commit_rounds(
                    g,
                    mmcs,
                    if mixes { add_seq(round.folded, pending[0]) } else { round.folded },
                    if mixes { pending.skip(1) } else { pending },
                    round.challenger,
                    threshold,
                ),
            )
        }),
{
    reveal(commit_rounds);
}

/// The oracles still to be mixed in suit a working vector: powers of two,
/// strictly decreasing, the first shorter than the vector.
pub open spec fn pending_fits<F>(folded_len: nat, pending: Seq<Seq<F>>) -> bool {
    &&& lengths_are_powers_of_two(pending)
    &&& strictly_decreasing(pending)
    &&& pending.len() > 0 ==> pending[0].len() < folded_len
}

/// The shape of a successful commit phase is fixed by lengths alone, whatever
/// the transcript, the commitment scheme and the fold strategy do: from a
/// working vector of length `n`, with the last pending oracle of length
/// `floor` (or, where none is pending, any `floor` of at least `n`), it has
/// `round_count(n, min(threshold, floor))` rounds, as many handles as
/// commitments, and a final polynomial of `n / 2^rounds` values, which is no
/// longer than the threshold and no longer than `floor`.
pub proof fn lemma_commit_rounds_shape<G, F, M, Ch>(
    g: &G,
    mmcs: &M,
    folded: Seq<F>,
    pending: Seq<Seq<F>>,
    challenger: Ch,
    threshold: nat,
    floor: nat,
) where F: FieldElement, M: Mmcs<F>, Ch: FriChallenger<F, M::Commitment>, G: FriGenericConfig<F>
    requires
        threshold >= 1,
        is_power_of_two(folded.len()),
        pending_fits(folded.len(), pending),
        pending.len() > 0 ==> floor == pending.last().len(),
        pending.len() == 0 ==> floor >= folded.len(),
        commit_rounds(g, mmcs, folded, pending, challenger, threshold) is Ok,
    ensures
        ({
            let t = commit_rounds(g, mmcs, folded, pending, challenger, threshold)->Ok_0;
            &&& t.commits.len() == round_count(folded.len(), stop_length(threshold, floor))
            &&& t.data.len() == t.commits.len()
            &&& t.final_poly.len() * pow2(t.commits.len()) == folded.len()
            &&& t.final_poly.len() <= threshold
            &&& t.final_poly.len() <= floor
        }),
    decreases folded.len(),
{
    reveal(commit_rounds);
    let stop = stop_length(threshold, floor);
    if pending.len() > 0 {
        assert(is_power_of_two(pending[0].len()));
        assert(pending.last().len() <= pending[0].len());
    }
    if folded.len() < 2 || !(folded.len() > threshold || pending.len() > 0) {
        lemma2_to64();
    } else {
        let round = commit_round(g, mmcs, folded, challenger)->Ok_0;
        let mixes = pending.len() > 0 && pending[0].len() == round.folded.len();
        let next = if mixes { add_seq(round.folded, pending[0]) } else { round.folded };
        let rest = if mixes { pending.skip(1) } else { pending };
        lemma_commit_rounds_step(g, mmcs, folded, pending, challenger, threshold);
        assert(next.len() == folded.len() / 2);
        if pending.len() > 0 {
            lemma_smaller_power_at_most_half(pending[0].len(), folded.len());
        }
        if mixes {
            assert forall|i: int| 0 <= i < rest.len() implies is_power_of_two(#[trigger] rest[i].len()) by {
                assert(rest[i] == pending[i + 1]);
            }
            assert forall|i: int, j: int| 0 <= i < j < rest.len() implies (#[trigger] rest[j]).len() < (
            #[trigger] rest[i]).len() by {
                assert(rest[i] == pending[i + 1]);
                assert(rest[j] == pending[j + 1]);
            }
            if rest.len() > 0 {
                assert(rest[0] == pending[1]);
                assert(rest.last() == pending.last());
            }
        }
        lemma_commit_rounds_shape(g, mmcs, next, rest, round.challenger, threshold, floor);
        let t = commit_rounds(g, mmcs, next, rest, round.challenger, threshold)->Ok_0;
        lemma_pow2_unfold(t.commits.len() + 1);
        let rounds = t.commits.len();
        let last = t.final_poly.len();
        assert(last * pow2(rounds + 1) == 2 * (last * pow2(rounds))) by (nonlinear_arith)
            requires
                pow2(rounds + 1) == 2 * pow2(rounds),
        ;
        assert((seq![round.commit] + t.commits).len() == t.commits.len() + 1);
        assert((seq![round.data] + t.data).len() == t.data.len() + 1);
    }
}

/// The number of rounds of a successful commit phase is the same under any
/// two transcripts: it is `round_count` of the first oracle's length and the
/// smaller of the threshold and the last oracle's length.
pub proof fn lemma_round_count_ignores_transcript<G, F, M, Ch>(
    g: &G,
    mmcs: &M,
    oracles: Seq<Seq<F>>,
    first: Ch,
    second: Ch,
    threshold: nat,
) where F: FieldElement, M: Mmcs<F>, Ch: FriChallenger<F, M::Commitment>, G: FriGenericConfig<F>
    requires
        threshold >= 1,
        input_fault(oracles) is None,
        commit_rounds(g, mmcs, oracles[0], oracles.skip(1), first, threshold) is Ok,
        commit_rounds(g, mmcs, oracles[0], oracles.skip(1), second, threshold) is Ok,
    ensures
        commit_rounds(g, mmcs, oracles[0], oracles.skip(1), first, threshold)->Ok_0.commits.len()
            == round_count(oracles[0].len(), stop_length(threshold, oracles.last().len())),
        commit_rounds(g, mmcs, oracles[0], oracles.skip(1), second, threshold)->Ok_0.commits.len()
            == commit_rounds(g, mmcs, oracles[0], oracles.skip(1), first, threshold)->Ok_0.commits.len(),
{
    let rest = oracles.skip(1);
    assert forall|i: int| 0 <= i < rest.len() implies is_power_of_two(#[trigger] rest[i].len()) by {
        assert(rest[i] == oracles[i + 1]);
    }
    assert forall|i: int, j: int| 0 <= i < j < rest.len() implies (#[trigger] rest[j]).len() < (
    #[trigger] rest[i]).len() by {
        assert(rest[i] == oracles[i + 1]);
        assert(rest[j] == oracles[j + 1]);
    }
    assert(is_power_of_two(oracles[0].len()));
    if rest.len() > 0 {
        assert(rest[0] == oracles[1]);
        assert(rest.last() == oracles.last());
    }
    lemma_commit_rounds_shape(g, mmcs, oracles[0], rest, first, threshold, oracles.last().len());
    lemma_commit_rounds_shape(g, mmcs, oracles[0], rest, second, threshold, oracles.last().len());
}

/// From one transcript state, proof generation draws the same commitments,
/// challenges and final polynomial, the same proof-of-work witness and the
/// same query indices.
pub proof fn lemma_same_transcript_same_run<G, F, M, Ch>(
    g: &G,
    mmcs: &M,
    oracles: Seq<Seq<F>>,
    first: Ch,
    second: Ch,
    threshold: nat,
    pow_bits: usize,
    index_bits: usize,
    queries: nat,
) where F: FieldElement, M: Mmcs<F>, Ch: FriChallenger<F, M::Commitment>, G: FriGenericConfig<F>
    requires
        first == second,
        oracles.len() > 0,
    ensures
        commit_rounds(g, mmcs, oracles[0], oracles.skip(1), first, threshold) == commit_rounds(
            g,
            mmcs,
            oracles[0],
            oracles.skip(1),
            second,
            threshold,
        ),
        commit_rounds(g, mmcs, oracles[0], oracles.skip(1), first, threshold) matches Ok(t) ==> {
            let ground = t.challenger.grind_spec(pow_bits);
            let rerun = commit_rounds(g, mmcs, oracles[0], oracles.skip(1), second, threshold)->Ok_0;
            let again = rerun.challenger.grind_spec(pow_bits);
            &&& ground == again
            &&& index_stream::<F, M::Commitment, Ch>(ground.1, index_bits, queries) == index_stream::<
                F,
                M::Commitment,
                Ch,
            >(again.1, index_bits, queries)
        },
{
}

/// Every query of a path has one step per round.
pub proof fn lemma_opening_path_length<F, M: Mmcs<F>>(mmcs: &M, data: Seq<M::ProverData>, index: usize)
    ensures
        opening_path(mmcs, data, index).len() == data.len(),
{
}

/// Earlier rounds in front of one round in front of a trace are all of them in
/// front of it.
proof fn lemma_after_rounds_step<F, C, D, Ch>(
    commits: Seq<C>,
    data: Seq<D>,
    commit: C,
    handle: D,
    rest: Result<CommitTrace<F, C, D, Ch>, FriError>,
)
    ensures
        after_rounds(commits, data, after_round(commit, handle, rest)) == after_rounds(
            commits.push(commit),
            data.push(handle),
            rest,
        ),
{
    match rest {
        Ok(t) => {
            assert(commits + (seq![commit] + t.commits) =~= commits.push(commit) + t.commits);
            assert(data + (seq![handle] + t.data) =~= data.push(handle) + t.data);
        },
        Err(e) => {},
    }
}

/// A copy of a vector.
fn copy_vec<F: Copy>(v: &Vec<F>) -> (r: Vec<F>)
    ensures
        r@ == v@,
{
    let mut r: Vec<F> = Vec::new();
    let mut i: usize = 0;
    while i < v.len()
        invariant
            i <= v.len(),
            r@ == v@.take(i as int),
        decreases v.len() - i,
    {
        r.push(v[i]);
        assert(v@.take(i as int).push(v@[i as int]) =~= v@.take(i + 1));
        i += 1;
    }
    assert(v@.take(v.len() as int) =~= v@);
    r
}

/// The entry-wise sum of two vectors of one length.
fn add_vectors<F: FieldElement>(a: &Vec<F>, b: &Vec<F>) -> (r: Vec<F>)
    requires
        a@.len() == b@.len(),
    ensures
        r@ == add_seq(a@, b@),
{
    let mut r: Vec<F> = Vec::new();
    let mut i: usize = 0;
    while i < a.len()
        invariant
            i <= a.len(),
            a@.len() == b@.len(),
            r@.len() == i,
            forall|j: int| 0 <= j < i ==> #[trigger] r@[j] == a@[j].sum(b@[j]),
        decreases a.len() - i,
    {
        r.push(a[i].add(b[i]));
        i += 1;
    }
    assert(r@ =~= add_seq(a@, b@));
    r
}

/// One round on the working vector: commits to it, binds the commitment into
/// the transcript, draws the challenge and folds.
pub fn fold_round<G, F, M, Ch>(g: &G, mmcs: &M, folded: Vec<F>, challenger: &mut Ch) -> (r: Result<
    (M::Commitment, M::ProverData, Vec<F>),
    FriError,
>) where F: FieldElement, M: Mmcs<F>, Ch: FriChallenger<F, M::Commitment>, G: FriGenericConfig<F>
    requires
        folded@.len() % 2 == 0,
    ensures
        match commit_round(g, mmcs, folded@, *old(challenger)) {
            Ok(t) => {
                &&& r is Ok
                &&& r->Ok_0.0 == t.commit
                &&& r->Ok_0.1 == t.data
                &&& r->Ok_0.2@ == t.folded
                &&& *final(challenger) == t.challenger
            },
            Err(e) => r is Err && r->Err_0 == e,
        },
{
    let half = folded.len() / 2;
    let leaves = Table { values: folded, width: 2 };
    let (commit, prover_data) = mmcs.commit_matrix(leaves);
    challenger.observe(&commit);
    let beta: F = challenger.sample();
    let mut tables = mmcs.get_matrices(&prover_data);
    let ghost table_views = tables@.map_values(|t: Table<F>| t@);
    let committed = match tables.pop() {
        Some(t) => t,
        None => {
            assert(table_views.len() == 0);
            return Err(FriError::MalformedTable);
        },
    };
    proof {
        assert(table_views.last() == committed@);
    }
    if committed.width != 2 {
        return Err(FriError::MalformedTable);
    }
    let next = g.fold_matrix(beta, &committed);
    if next.len() != half {
        return Err(FriError::FoldLengthMismatch);
    }
    Ok((commit, prover_data, next))
}

/// Commits and folds until the working vector is no longer than the
/// configured threshold and every oracle has been mixed in.
pub fn commit_phase<G, F, M, Ch>(
    g: &G,
    config: &FriConfig<M>,
    inputs: Vec<Vec<F>>,
    challenger: &mut Ch,
) -> (r: Result<CommitPhaseResult<F, M::Commitment, M::ProverData>, FriError>) where
    F: FieldElement,
    M: Mmcs<F>,
    Ch: FriChallenger<F, M::Commitment>,
    G: FriGenericConfig<F>,

    requires
        config.valid(),
        input_fault(oracle_values(inputs@)) is None,
    ensures
        match commit_rounds(
            g,
            &config.mmcs,
            oracle_values(inputs@)[0],
            oracle_values(inputs@).skip(1),
            *old(challenger),
            config.threshold(),
        ) {
            Ok(t) => {
                &&& r is Ok
                &&& r->Ok_0.commits@ == t.commits
                &&& r->Ok_0.data@ == t.data
                &&& r->Ok_0.final_poly@ == t.final_poly
                &&& *final(challenger) == t.challenger
            },
            Err(e) => r is Err && r->Err_0 == e,
        },
        r is Ok ==> r->Ok_0.commits@.len() == r->Ok_0.data@.len(),
        r is Ok ==> r->Ok_0.commits@.len() == round_count(
            inputs@[0]@.len(),
            stop_length(config.threshold(), inputs@.last()@.len()),
        ),
        r is Ok ==> r->Ok_0.final_poly@.len() <= config.threshold(),
        r is Ok ==> r->Ok_0.final_poly@.len() <= inputs@.last()@.len(),
        r is Ok ==> is_power_of_two(r->Ok_0.final_poly@.len()),
{
    let ghost oracles = oracle_values(inputs@);
    let ghost threshold = config.threshold();
    let ghost stop = stop_length(threshold, oracles.last().len());
    let blowup = config.blowup();
    let final_len = config.final_poly_len();
    let limit: usize = if blowup >= final_len { blowup } else { final_len };
    proof {
        lemma_pow2_pos(config.log_blowup as nat);
        lemma_pow2_pos(config.log_final_poly_len as nat);
        assert(oracles[0] == inputs@[0]@);
        assert(oracles.last() == inputs@.last()@);
        assert(is_power_of_two(oracles[0].len()));
    }
    let mut folded: Vec<F> = copy_vec(&inputs[0]);
    let mut next_input: usize = 1;
    let mut commits: Vec<M::Commitment> = Vec::new();
    let mut data: Vec<M::ProverData> = Vec::new();
    proof {
        assert(oracles.skip(1).len() == 0 ==> oracles.last() == oracles[0]);
        if next_input < inputs.len() {
            assert(oracles[1].len() < oracles[0].len());
        }
        let whole = commit_rounds(g, &config.mmcs, oracles[0], oracles.skip(1), *challenger, threshold);
        match whole {
            Ok(t) => {
                assert(Seq::<M::Commitment>::empty() + t.commits =~= t.commits);
                assert(Seq::<M::ProverData>::empty() + t.data =~= t.data);
            },
            Err(e) => {},
        }
    }
    while folded.len() > limit || next_input < inputs.len()
        invariant
            oracles == oracle_values(inputs@),
            threshold == config.threshold(),
            limit == threshold,
            limit >= 1,
            stop == stop_length(threshold, oracles.last().len()),
            lengths_are_powers_of_two(oracles),
            strictly_decreasing(oracles),
            1 <= next_input <= inputs.len(),
            is_power_of_two(folded@.len()),
            next_input < inputs.len() ==> oracles[next_input as int].len() < folded@.len(),
            next_input == inputs.len() ==> folded@.len() <= oracles.last().len(),
            commits@.len() == data@.len(),
            commits@.len() + round_count(folded@.len(), stop) == round_count(oracles[0].len(), stop),
            commit_rounds(g, &config.mmcs, oracles[0], oracles.skip(1), *old(challenger), threshold)
                == after_rounds(
                commits@,
                data@,
                commit_rounds(
                    g,
                    &config.mmcs,
                    folded@,
                    oracles.skip(next_input as int),
                    *challenger,
                    threshold,
                ),
            ),
        decreases folded@.len(),
    {
        let ghost before = folded@;
        let ghost pending = oracles.skip(next_input as int);
        let ghost ch0 = *challenger;
        let ghost done_commits = commits@;
        let ghost done_data = data@;
        proof {
            if next_input < inputs.len() {
                assert(oracles[next_input as int].len() >= oracles.last().len());
                lemma_smaller_power_at_most_half(oracles[next_input as int].len(), folded@.len());
                assert(pending[0] == oracles[next_input as int]);
            }
            assert(before.len() >= 2);
            assert(before.len() > stop);
            assert(before.len() > threshold || pending.len() > 0);
        }
        let (commit, prover_data, next) = match fold_round(g, &config.mmcs, folded, challenger) {
            Ok(round) => round,
            Err(e) => {
                proof {
                    lemma_commit_rounds_fail(g, &config.mmcs, before, pending, ch0, threshold);
                }
                return Err(e);
            },
        };
        folded = next;
        proof {
            lemma_commit_rounds_step(g, &config.mmcs, before, pending, ch0, threshold);
            assert(folded@.len() == before.len() / 2);
        }
        if next_input < inputs.len() && inputs[next_input].len() == folded.len() {
            folded = add_vectors(&folded, &inputs[next_input]);
            next_input += 1;
            proof {
                assert(pending.skip(1) =~= oracles.skip(next_input as int));
                if next_input < inputs.len() {
                    assert(oracles[next_input as int].len() < oracles[next_input - 1].len());
                } else {
                    assert(oracles[next_input - 1] == oracles.last());
                }
            }
        }
        proof {
            lemma_after_rounds_step(
                done_commits,
                done_data,
                commit,
                prover_data,
                commit_rounds(
                    g,
                    &config.mmcs,
                    folded@,
                    oracles.skip(next_input as int),
                    *challenger,
                    threshold,
                ),
            );
        }
        commits.push(commit);
        data.push(prover_data);
    }
    proof {
        lemma_commit_rounds_done(
            g,
            &config.mmcs,
            folded@,
            oracles.skip(next_input as int),
            *challenger,
            threshold,
        );
        let whole = commit_rounds(g, &config.mmcs, oracles[0], oracles.skip(1), *old(challenger), threshold);
        assert(whole is Ok);
        assert(commits@ + Seq::<M::Commitment>::empty() =~= commits@);
        assert(data@ + Seq::<M::ProverData>::empty() =~= data@);
    }
    Ok(CommitPhaseResult { commits, data, final_poly: folded })
}

/// The index that a query has in a later round: `index` with its `round`
/// lowest bits dropped.
pub open spec fn round_index(index: usize, round: nat) -> usize {
    (index as nat / pow2(round)) as usize
}

/// The commitment scheme opens, for the row that holds position `index_i`,
/// exactly one row of exactly two values.
pub open spec fn opening_well_formed<F, M: Mmcs<F>>(mmcs: &M, data: &M::ProverData, index_i: usize) -> bool {
    let rows = mmcs.open_spec((index_i / 2) as usize, data).0;
    rows.len() == 1 && rows[0].len() == 2
}

/// The step recorded for a round: from the row that holds position `index_i`,
/// the value at the other position of the pair, with the row's opening proof.
pub open spec fn opening_step<F, M: Mmcs<F>>(
    mmcs: &M,
    data: &M::ProverData,
    index_i: usize,
) -> CommitPhaseProofStep<F, M::Proof> {
    let opened = mmcs.open_spec((index_i / 2) as usize, data);
    CommitPhaseProofStep { sibling_value: opened.0[0][1 - index_i % 2], opening_proof: opened.1 }
}

/// Every round's opening for a query is well formed.
pub open spec fn path_well_formed<F, M: Mmcs<F>>(mmcs: &M, data: Seq<M::ProverData>, index: usize) -> bool {
    forall|i: int|
        0 <= i < data.len() ==> opening_well_formed(mmcs, &#[trigger] data[i], round_index(index, i as nat))
}

/// The steps of a query's opening path, round 0 first.
pub open spec fn opening_path<F, M: Mmcs<F>>(mmcs: &M, data: Seq<M::ProverData>, index: usize) -> Seq<
    CommitPhaseProofStep<F, M::Proof>,
> {
    Seq::new(data.len(), |i: int| opening_step(mmcs, &data[i], round_index(index, i as nat)))
}

/// Flipping the lowest bit names the other position of a pair, and dropping
/// it names the pair's row.
pub proof fn lemma_sibling_bits(index_i: usize)
    ensures
        (index_i ^ 1) % 2 == 1 - index_i % 2,
        index_i >> 1 == index_i / 2,
{
    assert((index_i ^ 1) % 2 == 1 - index_i % 2) by (bit_vector);
    assert(index_i >> 1 == index_i / 2) by (bit_vector);
}

/// Opens, in every round, the row that holds the queried position and records
/// the value paired with it.
pub fn answer_query<F, M>(config: &FriConfig<M>, commit_phase_commits: &[M::ProverData], index: usize) -> (r:
    Result<Vec<CommitPhaseProofStep<F, M::Proof>>, FriError>) where F: FieldElement, M: Mmcs<F>
    requires
        commit_phase_commits@.len() <= usize::BITS,
    ensures
        path_well_formed(&config.mmcs, commit_phase_commits@, index) ==> r is Ok && r->Ok_0@ == opening_path(
            &config.mmcs,
            commit_phase_commits@,
            index,
        ),
        !path_well_formed(&config.mmcs, commit_phase_commits@, index) ==> r is Err && r->Err_0
            == FriError::MalformedOpening,
{
    let mut steps: Vec<CommitPhaseProofStep<F, M::Proof>> = Vec::new();
    let mut i: usize = 0;
    while i < commit_phase_commits.len()
        invariant
            i <= commit_phase_commits@.len(),
            commit_phase_commits@.len() <= usize::BITS,
            steps@.len() == i,
            forall|j: int|
                0 <= j < i ==> opening_well_formed(
                    &config.mmcs,
                    &#[trigger] commit_phase_commits@[j],
                    round_index(index, j as nat),
                ),
            forall|j: int|
                0 <= j < i ==> #[trigger] steps@[j] == opening_step(
                    &config.mmcs,
                    &commit_phase_commits@[j],
                    round_index(index, j as nat),
                ),
        decreases commit_phase_commits@.len() - i,
    {
        proof {
            lemma_usize_shr_is_div(index, i);
        }
        let index_i = index >> i;
        let index_i_sibling = index_i ^ 1;
        let index_pair = index_i >> 1;
        proof {
            lemma_sibling_bits(index_i);
            assert(index_i == round_index(index, i as nat));
        }
        let (opened_rows, opening_proof) = config.mmcs.open_batch(index_pair, &commit_phase_commits[i]);
        let ghost rows = opened_rows@.map_values(|row: Vec<F>| row@);
        if opened_rows.len() != 1 {
            assert(!opening_well_formed(&config.mmcs, &commit_phase_commits@[i as int], round_index(index, i as nat)));
            return Err(FriError::MalformedOpening);
        }
        assert(rows[0] == opened_rows@[0]@);
        if opened_rows[0].len() != 2 {
            assert(!opening_well_formed(&config.mmcs, &commit_phase_commits@[i as int], round_index(index, i as nat)));
            return Err(FriError::MalformedOpening);
        }
        let sibling_value = opened_rows[0][index_i_sibling % 2];
        steps.push(CommitPhaseProofStep { sibling_value, opening_proof });
        i += 1;
    }
    assert(steps@ =~= opening_path(&config.mmcs, commit_phase_commits@, index));
    Ok(steps)
}

/// The query indices drawn one after another from a transcript, and the
/// transcript after the last of them.
pub open spec fn index_stream<F, C, Ch: FriChallenger<F, C>>(challenger: Ch, bits: usize, count: nat) -> (
    Seq<usize>,
    Ch,
)
    decreases count,
{
    if count == 0 {
        (Seq::empty(), challenger)
    } else {
        let earlier = index_stream::<F, C, Ch>(challenger, bits, (count - 1) as nat);
        let drawn = earlier.1.sample_bits_spec(bits);
        (earlier.0.push(drawn.0), drawn.1)
    }
}

/// A longer stream of indices begins with the shorter one.
pub proof fn lemma_index_stream_prefix<F, C, Ch: FriChallenger<F, C>>(
    challenger: Ch,
    bits: usize,
    shorter: nat,
    longer: nat,
)
    requires
        shorter <= longer,
    ensures
        index_stream::<F, C, Ch>(challenger, bits, longer).0.len() == longer,
        index_stream::<F, C, Ch>(challenger, bits, shorter).0 == index_stream::<F, C, Ch>(
            challenger,
            bits,
            longer,
        ).0.take(shorter as int),
    decreases longer,
{
    let long = index_stream::<F, C, Ch>(challenger, bits, longer).0;
    if longer == 0 {
        assert(long.take(0) =~= long);
    } else if shorter == longer {
        lemma_index_stream_prefix::<F, C, Ch>(challenger, bits, (longer - 1) as nat, (longer - 1) as nat);
        assert(long.take(longer as int) =~= long);
    } else {
        lemma_index_stream_prefix::<F, C, Ch>(challenger, bits, shorter, (longer - 1) as nat);
        let middle = index_stream::<F, C, Ch>(challenger, bits, (longer - 1) as nat).0;
        assert(middle.take(shorter as int) =~= long.take(shorter as int));
    }
}

/// Folding from a length takes at most its logarithm many rounds.
pub proof fn lemma_round_count_at_most_log(len: nat, stop: nat)
    ensures
        round_count(len, stop) <= log2_floor(len),
    decreases len,
{
    if len >= 2 && len > stop {
        lemma_round_count_at_most_log(len / 2, stop);
    }
}

/// What is wrong before the transcript is touched, if anything: the oracles
/// as supplied, or a query index that would not fit a machine word.
pub open spec fn early_fault<G: FriGenericConfig<F>, F>(g: &G, oracles: Seq<Seq<F>>) -> Option<FriError> {
    match input_fault(oracles) {
        Some(e) => Some(e),
        None => if log2_floor(oracles[0].len()) + g.extra_bits_spec() >= usize::BITS {
            Some(FriError::IndexTooWide)
        } else {
            None
        },
    }
}

/// Every query's opening path is well formed.
pub open spec fn all_paths_well_formed<F, M: Mmcs<F>>(
    mmcs: &M,
    data: Seq<M::ProverData>,
    indices: Seq<usize>,
    extra_bits: usize,
) -> bool {
    forall|q: int|
        0 <= q < indices.len() ==> path_well_formed(
            mmcs,
            data,
            round_index(#[trigger] indices[q], extra_bits as nat),
        )
}

/// Generates a proof: the commit phase, the proof-of-work witness, then one
/// answer per sampled query index.
pub fn prove<G, F, M, Ch, O>(
    g: &G,
    config: &FriConfig<M>,
    inputs: Vec<Vec<F>>,
    challenger: &mut Ch,
    open_input: O,
) -> (r: Result<FriProof<F, M::Commitment, M::Proof, Ch::Witness, G::InputProof>, FriError>) where
    F: FieldElement,
    M: Mmcs<F>,
    Ch: FriChallenger<F, M::Commitment>,
    G: FriGenericConfig<F>,
    O: Fn(usize) -> G::InputProof,

    requires
        config.valid(),
        forall|index: usize| open_input.requires((index,)),
    ensures
        early_fault(g, oracle_values(inputs@)) matches Some(e) ==> r is Err && r->Err_0 == e && *final(challenger)
            == *old(challenger),
        early_fault(g, oracle_values(inputs@)) is None ==> match commit_rounds(
            g,
            &config.mmcs,
            oracle_values(inputs@)[0],
            oracle_values(inputs@).skip(1),
            *old(challenger),
            config.threshold(),
        ) {
            Err(e) => r is Err && r->Err_0 == e,
            Ok(t) => {
                let ground = t.challenger.grind_spec(config.proof_of_work_bits);
                let bits = (log2_floor(inputs@[0]@.len()) + g.extra_bits_spec()) as usize;
                let drawn = index_stream::<F, M::Commitment, Ch>(ground.1, bits, config.num_queries as nat);
                if all_paths_well_formed(&config.mmcs, t.data, drawn.0, g.extra_bits_spec()) {
                    &&& r is Ok
                    &&& r->Ok_0.commit_phase_commits@ == t.commits
                    &&& r->Ok_0.final_poly@ == t.final_poly
                    &&& r->Ok_0.pow_witness == ground.0
                    &&& r->Ok_0.query_proofs@.len() == config.num_queries
                    &&& forall|q: int|
                        0 <= q < config.num_queries ==> open_input.ensures(
                            (drawn.0[q],),
                            (#[trigger] r->Ok_0.query_proofs@[q]).input_proof,
                        )
                    &&& forall|q: int|
                        0 <= q < config.num_queries ==> (#[trigger] r->Ok_0.query_proofs@[q]).commit_phase_openings@
                            == opening_path(
                            &config.mmcs,
                            t.data,
                            round_index(drawn.0[q], g.extra_bits_spec() as nat),
                        )
                    &&& *final(challenger) == drawn.1
                } else {
                    r is Err && r->Err_0 == FriError::MalformedOpening
                }
            },
        },
        r is Ok ==> r->Ok_0.commit_phase_commits@.len() == round_count(
            inputs@[0]@.len(),
            stop_length(config.threshold(), inputs@.last()@.len()),
        ),
        r is Ok ==> r->Ok_0.final_poly@.len() <= config.threshold(),
        r is Ok ==> r->Ok_0.query_proofs@.len() == config.num_queries,
        r is Ok ==> forall|q: int|
            0 <= q < r->Ok_0.query_proofs@.len() ==> (#[trigger] r->Ok_0.query_proofs@[q]).commit_phase_openings@.len()
                == r->Ok_0.commit_phase_commits@.len(),
{
    let ghost oracles = oracle_values(inputs@);
    match check_inputs(&inputs) {
        Err(e) => {
            return Err(e);
        },
        Ok(_) => {},
    }
    proof {
        assert(oracles[0] == inputs@[0]@);
        assert(is_power_of_two(oracles[0].len()));
    }
    let log_max_height = log2_strict(inputs[0].len());
    let extra_bits = g.extra_query_index_bits();
    if extra_bits >= usize::BITS as usize || log_max_height >= usize::BITS as usize - extra_bits {
        return Err(FriError::IndexTooWide);
    }
    let bits = log_max_height + extra_bits;

    let commit_phase_result = match commit_phase(g, config, inputs, challenger) {
        Ok(result) => result,
        Err(e) => {
            return Err(e);
        },
    };
    let ghost trace = commit_rounds(
        g,
        &config.mmcs,
        oracles[0],
        oracles.skip(1),
        *old(challenger),
        config.threshold(),
    )->Ok_0;

    let pow_witness = challenger.grind(config.proof_of_work_bits);
    let ghost ground = *challenger;
    let ghost indices = index_stream::<F, M::Commitment, Ch>(ground, bits, config.num_queries as nat).0;
    proof {
        lemma_round_count_at_most_log(
            oracles[0].len(),
            stop_length(config.threshold(), oracles.last().len()),
        );
        lemma_index_stream_prefix::<F, M::Commitment, Ch>(
            ground,
            bits,
            config.num_queries as nat,
            config.num_queries as nat,
        );
    }

    let mut query_proofs: Vec<QueryProof<F, M::Proof, G::InputProof>> = Vec::new();
    let mut q: usize = 0;
    while q < config.num_queries
        invariant
            q <= config.num_queries,
            oracles == oracle_values(inputs@),
            oracles[0] == inputs@[0]@,
            early_fault(g, oracles) is None,
            commit_rounds(
                g,
                &config.mmcs,
                oracles[0],
                oracles.skip(1),
                *old(challenger),
                config.threshold(),
            ) == Ok::<CommitTrace<F, M::Commitment, M::ProverData, Ch>, FriError>(trace),
            ground == trace.challenger.grind_spec(config.proof_of_work_bits).1,
            bits == log2_floor(oracles[0].len()) + g.extra_bits_spec(),
            extra_bits == g.extra_bits_spec(),
            extra_bits < usize::BITS,
            commit_phase_result.data@ == trace.data,
            commit_phase_result.data@.len() <= usize::BITS,
            forall|index: usize| open_input.requires((index,)),
            indices == index_stream::<F, M::Commitment, Ch>(ground, bits, config.num_queries as nat).0,
            indices.len() == config.num_queries,
            *challenger == index_stream::<F, M::Commitment, Ch>(ground, bits, q as nat).1,
            query_proofs@.len() == q,
            forall|j: int|
                0 <= j < q ==> path_well_formed(
                    &config.mmcs,
                    trace.data,
                    round_index(#[trigger] indices[j], extra_bits as nat),
                ),
            forall|j: int|
                0 <= j < q ==> open_input.ensures((indices[j],), (#[trigger] query_proofs@[j]).input_proof),
            forall|j: int|
                0 <= j < q ==> (#[trigger] query_proofs@[j]).commit_phase_openings@ == opening_path(
                    &config.mmcs,
                    trace.data,
                    round_index(indices[j], extra_bits as nat),
                ),
        decreases config.num_queries - q,
    {
        let index = challenger.sample_bits(bits);
        proof {
            lemma_index_stream_prefix::<F, M::Commitment, Ch>(
                ground,
                bits,
                (q + 1) as nat,
                config.num_queries as nat,
            );
            lemma_index_stream_prefix::<F, M::Commitment, Ch>(ground, bits, q as nat, q as nat);
            assert(((q + 1) as nat - 1) as nat == q as nat);
            assert(index_stream::<F, M::Commitment, Ch>(ground, bits, (q + 1) as nat).0[q as int] == index);
            assert(indices[q as int] == index);
            lemma_usize_shr_is_div(index, extra_bits);
        }
        let input_proof = open_input(index);
        let commit_phase_openings = match answer_query(
            config,
            commit_phase_result.data.as_slice(),
            index >> extra_bits,
        ) {
            Ok(steps) => steps,
            Err(e) => {
                proof {
                    assert(index >> extra_bits == round_index(indices[q as int], extra_bits as nat));
                    assert(!path_well_formed(
                        &config.mmcs,
                        trace.data,
                        round_index(indices[q as int], extra_bits as nat),
                    ));
                    assert(!all_paths_well_formed(&config.mmcs, trace.data, indices, extra_bits));
                }
                return Err(e);
            },
        };
        query_proofs.push(QueryProof { input_proof, commit_phase_openings });
        q += 1;
    }

    Ok(
        FriProof {
            commit_phase_commits: commit_phase_result.commits,
            query_proofs,
            final_poly: commit_phase_result.final_poly,
            pow_witness,
        },
    )
}

} // verus!
