use std::cell::Cell;

use fri_prover::config::{
    Elements, FieldElement, FriChallenger, FriConfig, FriGenericConfig, Mmcs, RowList, Table,
    TableList,
};
use fri_prover::fri_proof::{FriError, FriProof};
use fri_prover::powers::{is_power_of_two_usize, log2_strict};
use fri_prover::prover::{answer_query, check_inputs, commit_phase, fold_round, prove};

const MODULUS: u64 = 97;

#[derive(Clone, Copy, Debug, PartialEq, Eq)]
struct Fp(u64);

impl FieldElement for Fp {
    fn sum(self, rhs: Self) -> Self {
        Fp((self.0 + rhs.0) % MODULUS)
    }

    fn add(self, rhs: Self) -> Self {
        Fp((self.0 + rhs.0) % MODULUS)
    }
}

fn fps(values: &[u64]) -> Vec<Fp> {
    values.iter().map(|v| Fp(*v % MODULUS)).collect()
}

/// What a stub commitment scheme does wrong, if anything.
#[derive(Clone, Copy, PartialEq, Eq)]
enum Fault {
    Sound,
    NoTable,
    WideTable,
    WideRow,
    TwoRows,
}

struct StubMmcs {
    fault: Fault,
}

struct StubData {
    values: Vec<Fp>,
}

impl Mmcs<Fp> for StubMmcs {
    type Commitment = u64;
    type ProverData = StubData;
    type Proof = usize;

    fn commit_spec(&self, _values: Elements<Fp>) -> (u64, StubData) {
        unreachable!()
    }

    fn matrices_spec(&self, _data: &StubData) -> TableList<Fp> {
        unreachable!()
    }

    fn open_spec(&self, _index: usize, _data: &StubData) -> (RowList<Fp>, usize) {
        unreachable!()
    }

    fn commit_matrix(&self, table: Table<Fp>) -> (u64, StubData) {
        let mut digest: u64 = table.values.len() as u64;
        for v in &table.values {
            digest = digest.wrapping_mul(1_000_003).wrapping_add(v.0);
        }
        (digest, StubData { values: table.values })
    }

    fn get_matrices(&self, data: &StubData) -> Vec<Table<Fp>> {
        match self.fault {
            Fault::NoTable => Vec::new(),
            Fault::WideTable => vec![Table { values: data.values.clone(), width: 3 }],
            _ => vec![Table { values: data.values.clone(), width: 2 }],
        }
    }

    fn open_batch(&self, index: usize, data: &StubData) -> (Vec<Vec<Fp>>, usize) {
        let row = vec![data.values[2 * index], data.values[2 * index + 1]];
        match self.fault {
            Fault::WideRow => (vec![vec![row[0], row[1], Fp(0)]], index),
            Fault::TwoRows => (vec![row.clone(), row], index),
            _ => (vec![row], index),
        }
    }
}

#[derive(Clone, Debug, PartialEq, Eq)]
struct StubChallenger {
    state: u64,
    bit_requests: Vec<usize>,
}

impl StubChallenger {
    fn seeded(seed: u64) -> Self {
        StubChallenger { state: seed, bit_requests: Vec::new() }
    }

    fn step(&mut self) -> u64 {
        self.state = self
            .state
            .wrapping_mul(6364136223846793005)
            .wrapping_add(1442695040888963407);
        self.state >> 16
    }
}

impl FriChallenger<Fp, u64> for StubChallenger {
    type Witness = u64;

    fn observe_spec(self, _commitment: u64) -> Self {
        unreachable!()
    }

    fn sample_spec(self) -> (Fp, Self) {
        unreachable!()
    }

    fn sample_bits_spec(self, _bits: usize) -> (usize, Self) {
        unreachable!()
    }

    fn grind_spec(self, _bits: usize) -> (u64, Self) {
        unreachable!()
    }

    fn observe(&mut self, commitment: &u64) {
        self.state = self.state.wrapping_mul(31).wrapping_add(*commitment);
    }

    fn sample(&mut self) -> Fp {
        Fp(self.step() % MODULUS)
    }

    fn sample_bits(&mut self, bits: usize) -> usize {
        self.bit_requests.push(bits);
        (self.step() as usize) & ((1usize << bits) - 1)
    }

    fn grind(&mut self, bits: usize) -> u64 {
        self.state = self.state.wrapping_add(bits as u64 + 1);
        self.state
    }
}

/// Folds a pair to its sum, whatever the challenge.
struct PairSum {
    extra_bits: usize,
    short_by: usize,
}

impl PairSum {
    fn plain() -> Self {
        PairSum { extra_bits: 0, short_by: 0 }
    }
}

impl FriGenericConfig<Fp> for PairSum {
    type InputProof = usize;

    fn extra_bits_spec(&self) -> usize {
        unreachable!()
    }

    fn fold_spec(&self, _beta: Fp, _values: Elements<Fp>) -> Elements<Fp> {
        unreachable!()
    }

    fn extra_query_index_bits(&self) -> usize {
        self.extra_bits
    }

    fn fold_matrix(&self, _beta: Fp, table: &Table<Fp>) -> Vec<Fp> {
        let rows = table.values.len() / 2 - self.short_by;
        (0..rows).map(|i| table.values[2 * i].add(table.values[2 * i + 1])).collect()
    }
}

/// Folds a pair to its first value plus the challenge times its second.
struct Weighted;

impl FriGenericConfig<Fp> for Weighted {
    type InputProof = usize;

    fn extra_bits_spec(&self) -> usize {
        unreachable!()
    }

    fn fold_spec(&self, _beta: Fp, _values: Elements<Fp>) -> Elements<Fp> {
        unreachable!()
    }

    fn extra_query_index_bits(&self) -> usize {
        0
    }

    fn fold_matrix(&self, beta: Fp, table: &Table<Fp>) -> Vec<Fp> {
        (0..table.values.len() / 2)
            .map(|i| Fp((table.values[2 * i].0 + beta.0 * table.values[2 * i + 1].0) % MODULUS))
            .collect()
    }
}

fn config(log_blowup: usize, log_final_poly_len: usize, num_queries: usize, fault: Fault) -> FriConfig<StubMmcs> {
    FriConfig {
        log_blowup,
        log_final_poly_len,
        num_queries,
        proof_of_work_bits: 3,
        mmcs: StubMmcs { fault },
    }
}

type Proof = FriProof<Fp, u64, usize, u64, usize>;

fn run(
    g: &PairSum,
    cfg: &FriConfig<StubMmcs>,
    inputs: Vec<Vec<Fp>>,
    challenger: &mut StubChallenger,
) -> Result<Proof, FriError> {
    assert!(cfg.is_valid());
    prove(g, cfg, inputs, challenger, |index: usize| index)
}

fn sums(v: &[Fp]) -> Vec<Fp> {
    (0..v.len() / 2).map(|i| v[2 * i].add(v[2 * i + 1])).collect()
}

#[test]
fn round_trip_single_oracle_of_eight() {
    let cfg = config(1, 1, 3, Fault::Sound);
    let mut challenger = StubChallenger::seeded(7);
    let proof = run(&PairSum::plain(), &cfg, vec![fps(&[1, 2, 3, 4, 5, 6, 7, 8])], &mut challenger).unwrap();
    assert_eq!(proof.commit_phase_commits.len(), 2);
    assert_eq!(proof.final_poly.len(), 2);
    assert_eq!(proof.final_poly, fps(&[10, 26]));
    for query in &proof.query_proofs {
        assert_eq!(query.commit_phase_openings.len(), 2);
    }
}

#[test]
fn five_queries_give_five_query_proofs() {
    let cfg = config(0, 0, 5, Fault::Sound);
    let mut challenger = StubChallenger::seeded(11);
    let proof = run(&PairSum::plain(), &cfg, vec![fps(&[1, 2, 3, 4, 5, 6, 7, 8])], &mut challenger).unwrap();
    assert_eq!(proof.commit_phase_commits.len(), 3);
    assert_eq!(proof.final_poly, fps(&[36]));
    assert_eq!(proof.query_proofs.len(), 5);
    for query in &proof.query_proofs {
        assert_eq!(query.commit_phase_openings.len(), 3);
    }
    assert_eq!(challenger.bit_requests, vec![3, 3, 3, 3, 3]);
}

#[test]
fn sibling_values_follow_the_index() {
    let cfg = config(0, 0, 8, Fault::Sound);
    let mut challenger = StubChallenger::seeded(5);
    let round0 = fps(&[1, 2, 3, 4, 5, 6, 7, 8]);
    let round1 = sums(&round0);
    let round2 = sums(&round1);
    let proof = run(&PairSum::plain(), &cfg, vec![round0.clone()], &mut challenger).unwrap();
    for query in &proof.query_proofs {
        let index = query.input_proof;
        assert!(index < 8);
        let steps = &query.commit_phase_openings;
        assert_eq!(steps[0].sibling_value, round0[index ^ 1]);
        assert_eq!(steps[0].opening_proof, index >> 1);
        assert_eq!(steps[1].sibling_value, round1[(index >> 1) ^ 1]);
        assert_eq!(steps[1].opening_proof, index >> 2);
        assert_eq!(steps[2].sibling_value, round2[(index >> 2) ^ 1]);
        assert_eq!(steps[2].opening_proof, index >> 3);
    }
}

#[test]
fn extra_index_bits_are_stripped_before_answering() {
    let cfg = config(0, 0, 6, Fault::Sound);
    let g = PairSum { extra_bits: 2, short_by: 0 };
    let mut challenger = StubChallenger::seeded(23);
    let round0 = fps(&[9, 8, 7, 6]);
    let proof = run(&g, &cfg, vec![round0.clone()], &mut challenger).unwrap();
    assert_eq!(challenger.bit_requests, vec![4; 6]);
    for query in &proof.query_proofs {
        let index = query.input_proof;
        assert!(index < 16);
        assert_eq!(query.commit_phase_openings[0].sibling_value, round0[(index >> 2) ^ 1]);
    }
}

#[test]
fn wide_table_aborts_before_any_query() {
    let cfg = config(1, 1, 4, Fault::WideTable);
    let mut challenger = StubChallenger::seeded(7);
    let opened = Cell::new(0usize);
    let result = prove(&PairSum::plain(), &cfg, vec![fps(&[1, 2, 3, 4, 5, 6, 7, 8])], &mut challenger, |index: usize| {
        opened.set(opened.get() + 1);
        index
    });
    assert_eq!(result.err(), Some(FriError::MalformedTable));
    assert_eq!(opened.get(), 0);
    assert!(challenger.bit_requests.is_empty());
}

#[test]
fn missing_table_is_malformed() {
    let cfg = config(1, 1, 4, Fault::NoTable);
    let mut challenger = StubChallenger::seeded(7);
    let result = run(&PairSum::plain(), &cfg, vec![fps(&[1, 2, 3, 4])], &mut challenger);
    assert_eq!(result.err(), Some(FriError::MalformedTable));
}

#[test]
fn wide_row_is_a_malformed_opening() {
    let cfg = config(1, 1, 4, Fault::WideRow);
    let mut challenger = StubChallenger::seeded(7);
    let result = run(&PairSum::plain(), &cfg, vec![fps(&[1, 2, 3, 4, 5, 6, 7, 8])], &mut challenger);
    assert_eq!(result.err(), Some(FriError::MalformedOpening));
}

#[test]
fn two_opened_rows_are_a_malformed_opening() {
    let cfg = config(1, 1, 4, Fault::TwoRows);
    let mut challenger = StubChallenger::seeded(7);
    let result = run(&PairSum::plain(), &cfg, vec![fps(&[1, 2, 3, 4, 5, 6, 7, 8])], &mut challenger);
    assert_eq!(result.err(), Some(FriError::MalformedOpening));
}

#[test]
fn malformed_rows_do_not_matter_without_rounds() {
    let cfg = config(2, 0, 4, Fault::WideRow);
    let mut challenger = StubChallenger::seeded(7);
    let proof = run(&PairSum::plain(), &cfg, vec![fps(&[1, 2, 3, 4])], &mut challenger).unwrap();
    assert!(proof.commit_phase_commits.is_empty());
    assert_eq!(proof.final_poly, fps(&[1, 2, 3, 4]));
    assert_eq!(proof.query_proofs.len(), 4);
    assert!(proof.query_proofs.iter().all(|query| query.commit_phase_openings.is_empty()));
}

#[test]
fn short_fold_is_a_length_mismatch() {
    let cfg = config(0, 0, 2, Fault::Sound);
    let g = PairSum { extra_bits: 0, short_by: 1 };
    let mut challenger = StubChallenger::seeded(7);
    let result = run(&g, &cfg, vec![fps(&[1, 2, 3, 4, 5, 6, 7, 8])], &mut challenger);
    assert_eq!(result.err(), Some(FriError::FoldLengthMismatch));
}

#[test]
fn early_faults_leave_the_transcript_alone() {
    let cfg = config(1, 1, 2, Fault::Sound);
    let cases: Vec<(Vec<Vec<Fp>>, usize, FriError)> = vec![
        (vec![], 0, FriError::NoInputs),
        (vec![fps(&[1, 2, 3, 4, 5, 6])], 0, FriError::LengthNotPowerOfTwo),
        (vec![fps(&[1, 2, 3, 4]), vec![]], 0, FriError::LengthNotPowerOfTwo),
        (vec![fps(&[1, 2, 3, 4]), fps(&[1, 2, 3, 4])], 0, FriError::NotStrictlyDecreasing),
        (vec![fps(&[1, 2]), fps(&[1, 2, 3, 4])], 0, FriError::NotStrictlyDecreasing),
        (vec![fps(&[1, 2, 3, 4])], usize::BITS as usize - 2, FriError::IndexTooWide),
        (vec![fps(&[1, 2, 3, 4])], usize::MAX, FriError::IndexTooWide),
    ];
    for (inputs, extra_bits, expected) in cases {
        let g = PairSum { extra_bits, short_by: 0 };
        let mut challenger = StubChallenger::seeded(99);
        let result = run(&g, &cfg, inputs, &mut challenger);
        assert_eq!(result.err(), Some(expected));
        assert_eq!(challenger, StubChallenger::seeded(99));
    }
}

#[test]
fn widest_index_that_fits_is_accepted() {
    let cfg = config(2, 2, 1, Fault::Sound);
    let g = PairSum { extra_bits: usize::BITS as usize - 3, short_by: 0 };
    let mut challenger = StubChallenger::seeded(1);
    let proof = run(&g, &cfg, vec![fps(&[1, 2, 3, 4])], &mut challenger).unwrap();
    assert_eq!(challenger.bit_requests, vec![usize::BITS as usize - 1]);
    assert_eq!(proof.query_proofs.len(), 1);
}

#[test]
fn round_count_depends_on_lengths_only() {
    // (oracle lengths, log_blowup, log_final_poly_len, rounds, final length)
    let cases: Vec<(Vec<usize>, usize, usize, usize, usize)> = vec![
        (vec![16], 0, 0, 4, 1),
        (vec![16], 2, 0, 2, 4),
        (vec![16], 0, 3, 1, 8),
        (vec![16], 4, 0, 0, 16),
        (vec![2], 3, 3, 0, 2),
        (vec![1], 0, 0, 0, 1),
        (vec![16, 2], 3, 0, 3, 2),
        (vec![16, 8, 1], 2, 2, 4, 1),
        (vec![8, 4], 0, 0, 3, 1),
    ];
    for (lengths, log_blowup, log_final, rounds, final_len) in cases {
        for seed in [1u64, 2, 3] {
            let cfg = config(log_blowup, log_final, 2, Fault::Sound);
            let inputs: Vec<Vec<Fp>> = lengths.iter().map(|n| (0..*n as u64).map(Fp).collect()).collect();
            let mut challenger = StubChallenger::seeded(seed);
            let proof = prove(&Weighted, &cfg, inputs, &mut challenger, |index: usize| index).unwrap();
            assert_eq!(proof.commit_phase_commits.len(), rounds);
            assert_eq!(proof.final_poly.len(), final_len);
            let threshold = std::cmp::max(1usize << log_blowup, 1usize << log_final);
            assert!(proof.final_poly.len() <= threshold);
            for query in &proof.query_proofs {
                assert_eq!(query.commit_phase_openings.len(), rounds);
            }
        }
    }
}

#[test]
fn second_oracle_is_added_when_lengths_meet() {
    let cfg = config(1, 0, 1, Fault::Sound);
    let mut challenger = StubChallenger::seeded(3);
    let first = fps(&[1, 2, 3, 4, 5, 6, 7, 8]);
    let second = fps(&[10, 20, 30, 40]);
    let result = commit_phase(&PairSum::plain(), &cfg, vec![first.clone(), second.clone()], &mut challenger)
        .ok()
        .unwrap();
    assert_eq!(result.commits.len(), 2);
    assert_eq!(result.data.len(), 2);
    assert_eq!(result.data[0].values, first);
    // [3, 7, 11, 15] + [10, 20, 30, 40]
    assert_eq!(result.data[1].values, fps(&[13, 27, 41, 55]));
    assert_eq!(result.final_poly, fps(&[40, 96]));
}

#[test]
fn oracle_of_the_final_length_is_still_mixed_in() {
    let cfg = config(2, 0, 1, Fault::Sound);
    let mut challenger = StubChallenger::seeded(3);
    let result = commit_phase(
        &PairSum::plain(),
        &cfg,
        vec![fps(&[1, 2, 3, 4, 5, 6, 7, 8]), fps(&[90, 91, 92, 93])],
        &mut challenger,
    )
    .ok()
    .unwrap();
    assert_eq!(result.commits.len(), 1);
    assert_eq!(result.final_poly, fps(&[93, 98, 103, 108]));
}

#[test]
fn same_seed_same_proof() {
    let inputs = vec![fps(&[5, 1, 4, 1, 5, 9, 2, 6, 5, 3, 5, 8, 9, 7, 9, 3]), fps(&[2, 7, 1, 8])];
    let cfg = config(0, 0, 4, Fault::Sound);
    let mut first = StubChallenger::seeded(42);
    let mut second = StubChallenger::seeded(42);
    let a = prove(&Weighted, &cfg, inputs.clone(), &mut first, |index: usize| index).unwrap();
    let b = prove(&Weighted, &cfg, inputs.clone(), &mut second, |index: usize| index).unwrap();
    assert_eq!(first, second);
    assert_eq!(a.commit_phase_commits, b.commit_phase_commits);
    assert_eq!(a.final_poly, b.final_poly);
    assert_eq!(a.pow_witness, b.pow_witness);
    assert_eq!(a.query_proofs.len(), b.query_proofs.len());
    for (x, y) in a.query_proofs.iter().zip(b.query_proofs.iter()) {
        assert_eq!(x.input_proof, y.input_proof);
        assert_eq!(x.commit_phase_openings.len(), y.commit_phase_openings.len());
        for (s, t) in x.commit_phase_openings.iter().zip(y.commit_phase_openings.iter()) {
            assert_eq!(s.sibling_value, t.sibling_value);
            assert_eq!(s.opening_proof, t.opening_proof);
        }
    }
    let mut third = StubChallenger::seeded(43);
    let c = prove(&Weighted, &cfg, inputs, &mut third, |index: usize| index).unwrap();
    assert_ne!(a.pow_witness, c.pow_witness);
}

#[test]
fn transcript_order_is_observe_sample_grind_then_indices() {
    let cfg = config(0, 0, 2, Fault::Sound);
    let values = fps(&[3, 4]);
    let mut challenger = StubChallenger::seeded(17);
    let proof = run(&PairSum::plain(), &cfg, vec![values.clone()], &mut challenger).unwrap();

    let mut expected = StubChallenger::seeded(17);
    let (commit, _) = cfg.mmcs.commit_matrix(Table { values, width: 2 });
    expected.observe(&commit);
    let _ = expected.sample();
    let witness = expected.grind(3);
    let first = expected.sample_bits(1);
    let second = expected.sample_bits(1);
    assert_eq!(proof.commit_phase_commits, vec![commit]);
    assert_eq!(proof.pow_witness, witness);
    assert_eq!(proof.query_proofs[0].input_proof, first);
    assert_eq!(proof.query_proofs[1].input_proof, second);
    assert_eq!(challenger, expected);
}

#[test]
fn fold_round_commits_then_folds() {
    let mmcs = StubMmcs { fault: Fault::Sound };
    let mut challenger = StubChallenger::seeded(8);
    let values = fps(&[1, 2, 3, 4]);
    let (commit, data, next) = fold_round(&PairSum::plain(), &mmcs, values.clone(), &mut challenger).ok().unwrap();
    assert_eq!(commit, mmcs.commit_matrix(Table { values: values.clone(), width: 2 }).0);
    assert_eq!(data.values, values);
    assert_eq!(next, fps(&[3, 7]));
}

#[test]
fn answer_query_opens_each_round() {
    let cfg = config(0, 0, 1, Fault::Sound);
    let data = vec![
        StubData { values: fps(&[1, 2, 3, 4, 5, 6, 7, 8]) },
        StubData { values: fps(&[11, 12, 13, 14]) },
        StubData { values: fps(&[21, 22]) },
    ];
    let steps = answer_query(&cfg, &data, 6).ok().unwrap();
    assert_eq!(steps.len(), 3);
    assert_eq!(steps[0].sibling_value, Fp(8));
    assert_eq!(steps[0].opening_proof, 3);
    assert_eq!(steps[1].sibling_value, Fp(13));
    assert_eq!(steps[1].opening_proof, 1);
    assert_eq!(steps[2].sibling_value, Fp(21));
    assert_eq!(steps[2].opening_proof, 0);
    let none: Vec<StubData> = Vec::new();
    assert!(answer_query(&cfg, &none, 6).ok().unwrap().is_empty());
}

#[test]
fn check_inputs_names_the_first_fault() {
    assert_eq!(check_inputs::<Fp>(&vec![]), Err(FriError::NoInputs));
    assert_eq!(check_inputs(&vec![fps(&[1, 2, 3])]), Err(FriError::LengthNotPowerOfTwo));
    assert_eq!(check_inputs(&vec![fps(&[1, 2]), fps(&[1, 2, 3])]), Err(FriError::LengthNotPowerOfTwo));
    assert_eq!(check_inputs(&vec![fps(&[1, 2]), fps(&[1, 2])]), Err(FriError::NotStrictlyDecreasing));
    assert_eq!(check_inputs(&vec![fps(&[1, 2, 3, 4]), fps(&[1, 2]), fps(&[1])]), Ok(()));
}

#[test]
fn powers_of_two_and_their_logarithms() {
    assert!(!is_power_of_two_usize(0));
    assert!(is_power_of_two_usize(1));
    assert!(is_power_of_two_usize(2));
    assert!(!is_power_of_two_usize(3));
    assert!(!is_power_of_two_usize(12));
    assert!(is_power_of_two_usize(1 << 20));
    assert_eq!(log2_strict(1), 0);
    assert_eq!(log2_strict(2), 1);
    assert_eq!(log2_strict(8), 3);
    assert_eq!(log2_strict(1 << 20), 20);
}

#[test]
fn config_lengths() {
    let cfg = config(3, 5, 1, Fault::Sound);
    assert!(cfg.is_valid());
    assert_eq!(cfg.blowup(), 8);
    assert_eq!(cfg.final_poly_len(), 32);
    assert!(!config(usize::BITS as usize, 0, 1, Fault::Sound).is_valid());
    assert!(!config(0, usize::BITS as usize, 1, Fault::Sound).is_valid());
    assert!(config(usize::BITS as usize - 1, 0, 1, Fault::Sound).is_valid());
}

#[test]
fn no_queries_give_no_query_proofs() {
    let cfg = config(0, 0, 0, Fault::Sound);
    let mut challenger = StubChallenger::seeded(4);
    let proof = run(&PairSum::plain(), &cfg, vec![fps(&[1, 2, 3, 4])], &mut challenger).unwrap();
    assert_eq!(proof.commit_phase_commits.len(), 2);
    assert_eq!(proof.final_poly, fps(&[10]));
    assert!(proof.query_proofs.is_empty());
    assert!(challenger.bit_requests.is_empty());
}

#[test]
fn answer_query_rejects_malformed_rows() {
    let data = vec![StubData { values: fps(&[1, 2, 3, 4]) }];
    let wide = config(0, 0, 1, Fault::WideRow);
    assert_eq!(answer_query(&wide, &data, 1).err(), Some(FriError::MalformedOpening));
    let twice = config(0, 0, 1, Fault::TwoRows);
    assert_eq!(answer_query(&twice, &data, 1).err(), Some(FriError::MalformedOpening));
    let sound = config(0, 0, 1, Fault::Sound);
    let steps = answer_query(&sound, &data, 1).ok().unwrap();
    assert_eq!(steps[0].sibling_value, Fp(1));
}

#[test]
fn three_oracles_are_each_mixed_in_at_their_length() {
    let cfg = config(0, 0, 1, Fault::Sound);
    let mut challenger = StubChallenger::seeded(3);
    let result = commit_phase(
        &PairSum::plain(),
        &cfg,
        vec![fps(&[1, 1, 1, 1, 1, 1, 1, 1]), fps(&[10, 10, 10, 10]), fps(&[50])],
        &mut challenger,
    )
    .ok()
    .unwrap();
    assert_eq!(result.commits.len(), 3);
    assert_eq!(result.data[1].values, fps(&[12, 12, 12, 12]));
    assert_eq!(result.data[2].values, fps(&[24, 24]));
    assert_eq!(result.final_poly, fps(&[98]));
}
