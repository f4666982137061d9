use vstd::prelude::*;
use crate::random::random_index;

verus! {

/// Inputs of the neural brain.
pub const INPUT_SIZE: usize = 10;
/// Hidden neurons of the neural brain.
pub const HIDDEN_SIZE: usize = 6;
/// Outputs of the neural brain (movement along x and y).
pub const OUTPUT_SIZE: usize = 2;

/// Weights and biases of the brain.
pub const NN_PARAM_COUNT: usize = INPUT_SIZE * HIDDEN_SIZE + HIDDEN_SIZE * OUTPUT_SIZE + HIDDEN_SIZE
    + OUTPUT_SIZE;

/// Genes per genome: three phenotype genes followed by the brain parameters.
pub const GENOME_LEN: usize = 3 + NN_PARAM_COUNT;

/// Gene that sets the speed tier.
pub const GENE_SPEED: usize = 0;
/// Gene that sets the vision range.
pub const GENE_VISION: usize = 1;
/// Gene that sets the reproduction threshold.
pub const GENE_REPRO_THRESH: usize = 2;

/// Start of the input-to-hidden weights (row-major by input).
pub const W_IH_OFFSET: usize = 3;
/// Start of the hidden biases.
pub const B_H_OFFSET: usize = W_IH_OFFSET + INPUT_SIZE * HIDDEN_SIZE;
/// Start of the hidden-to-output weights (row-major by hidden neuron).
pub const W_HO_OFFSET: usize = B_H_OFFSET + HIDDEN_SIZE;
/// Start of the output biases.
pub const B_O_OFFSET: usize = W_HO_OFFSET + HIDDEN_SIZE * OUTPUT_SIZE;

/// The brain's blocks follow the phenotype genes back to back and fill the genome exactly.
pub proof fn lemma_genome_layout()
    ensures
        GENE_SPEED < GENE_VISION < GENE_REPRO_THRESH < W_IH_OFFSET,
        B_H_OFFSET == W_IH_OFFSET + INPUT_SIZE * HIDDEN_SIZE,
        W_HO_OFFSET == B_H_OFFSET + HIDDEN_SIZE,
        B_O_OFFSET == W_HO_OFFSET + HIDDEN_SIZE * OUTPUT_SIZE,
        B_O_OFFSET + OUTPUT_SIZE == GENOME_LEN,
        GENOME_LEN == 83,
{
}

/// Gene index of the weight from input `j` to hidden neuron `i`.
pub fn input_weight_index(j: usize, i: usize) -> (r: usize)
    requires
        j < INPUT_SIZE,
        i < HIDDEN_SIZE,
    ensures
        r == W_IH_OFFSET + j * HIDDEN_SIZE + i,
        W_IH_OFFSET <= r < B_H_OFFSET,
{
    assert(j * HIDDEN_SIZE + i < INPUT_SIZE * HIDDEN_SIZE) by (nonlinear_arith)
        requires
            j < INPUT_SIZE,
            i < HIDDEN_SIZE,
    ;
    W_IH_OFFSET + j * HIDDEN_SIZE + i
}

/// Gene index of the weight from hidden neuron `j` to output `i`.
pub fn output_weight_index(j: usize, i: usize) -> (r: usize)
    requires
        j < HIDDEN_SIZE,
        i < OUTPUT_SIZE,
    ensures
        r == W_HO_OFFSET + j * OUTPUT_SIZE + i,
        W_HO_OFFSET <= r < B_O_OFFSET,
{
    assert(j * OUTPUT_SIZE + i < HIDDEN_SIZE * OUTPUT_SIZE) by (nonlinear_arith)
        requires
            j < HIDDEN_SIZE,
            i < OUTPUT_SIZE,
    ;
    W_HO_OFFSET + j * OUTPUT_SIZE + i
}

/// The child of a two-point crossover at cut points `i <= j`: parent B's
/// genes on `i..j`, parent A's genes elsewhere.
pub open spec fn crossover_spec<T>(a: Seq<T>, b: Seq<T>, i: int, j: int) -> Seq<T> {
    Seq::new(a.len(), |k: int| if k < i || k >= j { a[k] } else { b[k] })
}

/// Two-point crossover at the given cut points.
pub fn crossover_at<T: Copy>(
    parent_a: &[T; GENOME_LEN],
    parent_b: &[T; GENOME_LEN],
    i: usize,
    j: usize,
) -> (child: [T; GENOME_LEN])
    ensures
        child@ == crossover_spec(parent_a@, parent_b@, i as int, j as int),
{
    let mut child: [T; GENOME_LEN] = *parent_a;
    let mut k: usize = 0;
    while k < GENOME_LEN
        invariant
            k <= GENOME_LEN,
            child@.len() == GENOME_LEN,
            forall|m: int|
                0 <= m < GENOME_LEN ==> #[trigger] child@[m] == if m < k {
                    crossover_spec(parent_a@, parent_b@, i as int, j as int)[m]
                } else {
                    parent_a@[m]
                },
        decreases GENOME_LEN - k,
    {
        if k < i || k >= j {
            child[k] = parent_a[k];
        } else {
            child[k] = parent_b[k];
        }
        k = k + 1;
    }
    assert(child@ =~= crossover_spec(parent_a@, parent_b@, i as int, j as int));
    child
}

/// Two-point crossover preserving gene blocks: draws a first cut `i` in
/// `0..GENOME_LEN` and a second cut `j` in `i..=GENOME_LEN`, then takes parent
/// B's genes on `i..j` and parent A's genes elsewhere. Every gene of the child
/// is the gene at the same place in one of the parents.
pub fn two_point_crossover<T: Copy>(
    parent_a: &[T; GENOME_LEN],
    parent_b: &[T; GENOME_LEN],
    rng: &mut rand::rngs::StdRng,
) -> (child: [T; GENOME_LEN])
    ensures
        exists|i: int, j: int|
            0 <= i < GENOME_LEN && i <= j <= GENOME_LEN && child@ == #[trigger] crossover_spec(
                parent_a@,
                parent_b@,
                i,
                j,
            ),
        forall|k: int|
            0 <= k < GENOME_LEN ==> #[trigger] child@[k] == parent_a@[k] || child@[k]
                == parent_b@[k],
{
    let i = random_index(rng, 0, GENOME_LEN);
    let j = random_index(rng, i, GENOME_LEN + 1);
    let child = crossover_at(parent_a, parent_b, i, j);
    assert(forall|k: int|
        0 <= k < GENOME_LEN ==> #[trigger] child@[k] == parent_a@[k] || child@[k] == parent_b@[k]);
    child
}

} // verus!
