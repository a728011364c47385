//! The bookkeeping of mini-batch training: checking a training set against
//! a network, ordering the samples of an epoch, cutting an epoch into
//! batches and a batch into the shares of workers.
use crate::error::ModelError;
use crate::layer::LayerView;
use crate::network::Network;
use crate::strategy::{spec_loss_supports, ExecutionStrategy, Loss};
use rand::rngs::ThreadRng;
use rand::seq::SliceRandom;
use vstd::prelude::*;

verus! {

/// rand's thread-local random generator, carried through to the shuffle;
/// nothing is claimed of what it holds.
#[verifier::external_type_specification]
#[verifier::external_body]
pub struct ExThreadRng(rand::rngs::ThreadRng);

/// Calls rand's `SliceRandom::shuffle` on `order`. It is a Fisher-Yates
/// shuffle, made of swaps, so `order` ends as a permutation of what it held;
/// which permutation depends on the generator and is left unsaid.
#[verifier::external_body]
fn shuffle(order: &mut Vec<usize>, rng: &mut ThreadRng)
    ensures
        final(order)@.len() == old(order)@.len(),
        final(order)@.to_multiset() == old(order)@.to_multiset(),
{
    order.shuffle(rng);
}

/// The settings of mini-batch gradient descent.
///
/// `learning_rate` is the bit pattern of an `f64`.
#[derive(Debug, Clone, Copy)]
pub struct Optimizer {
    pub learning_rate: u64,
    pub batch_size: usize,
    pub loss: Loss,
    pub strategy: ExecutionStrategy,
}

/// What checking a training set of `n_inputs` inputs and `n_expected`
/// expected outputs against a network with layers `layers` gives: the two
/// counts must agree, and cross entropy needs a final Sigmoid or SoftMax.
pub open spec fn spec_validate(
    loss: Loss,
    layers: Seq<LayerView>,
    n_inputs: usize,
    n_expected: usize,
) -> Result<(), ModelError> {
    if n_inputs != n_expected {
        Err(ModelError::InputExpectedMismatch(n_inputs, n_expected))
    } else if loss is CrossEntropy && !spec_loss_supports(loss, layers.last().activation) {
        Err(ModelError::BadCombination(layers.last().activation, loss))
    } else {
        Ok(())
    }
}

/// The number of batches of at most `b` samples that `n` samples make.
pub open spec fn spec_batch_count(n: nat, b: nat) -> nat {
    ((n + b - 1) / (b as int)) as nat
}

/// The batches of an epoch of `n` samples: batch `k` covers positions
/// `k * b` up to (not including) `min(k * b + b, n)` of the epoch's order.
pub open spec fn spec_batches(n: nat, b: nat) -> Seq<(usize, usize)> {
    Seq::new(
        spec_batch_count(n, b),
        |k: int|
            (
                (k * b) as usize,
                (if k * b + b <= n {
                    k * b + b
                } else {
                    n as int
                }) as usize,
            ),
    )
}

/// How many samples of a batch of `size` samples worker `w` of `workers`
/// takes: an equal share, and one more for each of the first
/// `size % workers` workers.
pub open spec fn spec_share(size: nat, workers: nat, w: nat) -> nat {
    (size / workers + if w < size % workers {
        1nat
    } else {
        0nat
    }) as nat
}

/// Where, counted from the start of the batch, the share of worker `w`
/// starts: after the shares of workers `0 .. w`.
pub open spec fn spec_offset(size: nat, workers: nat, w: nat) -> nat {
    (w * (size / workers) + if w < size % workers {
        w
    } else {
        size % workers
    }) as nat
}

/// The number of workers that get a non-empty share.
pub open spec fn spec_active_workers(size: nat, workers: nat) -> nat {
    if size < workers {
        size
    } else {
        workers
    }
}

/// The slices of the epoch's order that the workers take of a batch of
/// `size` samples starting at position `start`, in worker order; workers
/// with an empty share get none.
pub open spec fn spec_worker_ranges(start: nat, size: nat, workers: nat) -> Seq<(usize, usize)> {
    Seq::new(
        spec_active_workers(size, workers),
        |k: int|
            (
                (start + spec_offset(size, workers, k as nat)) as usize,
                (start + spec_offset(size, workers, k as nat) + spec_share(
                    size,
                    workers,
                    k as nat,
                )) as usize,
            ),
    )
}

impl Optimizer {
    /// An optimizer with the given settings.
    pub fn new(learning_rate: u64, batch_size: usize, loss: Loss, strategy: ExecutionStrategy) -> (r:
        Optimizer)
        ensures
            r.learning_rate == learning_rate,
            r.batch_size == batch_size,
            r.loss == loss,
            r.strategy == strategy,
    {
        Optimizer { learning_rate, batch_size, loss, strategy }
    }

    /// Checks a training set of `n_inputs` inputs and `n_expected` expected
    /// outputs against `network` before training it.
    pub fn validate(&self, network: &Network, n_inputs: usize, n_expected: usize) -> (r: Result<
        (),
        ModelError,
    >)
        requires
            !(n_inputs == n_expected && self.loss is CrossEntropy && network.layers@.len() == 0),
        ensures
            r == spec_validate(self.loss, network@, n_inputs, n_expected),
            n_inputs != n_expected ==> r == Err::<(), ModelError>(
                ModelError::InputExpectedMismatch(n_inputs, n_expected),
            ),
            n_inputs == n_expected && self.loss is MeanSquare ==> r == Ok::<(), ModelError>(()),
            n_inputs == n_expected && self.loss is CrossEntropy ==> {
                let last = network.layers@[network.layers@.len() - 1].activation;
                &&& (r is Ok) <==> (last is Sigmoid || last is SoftMax)
                &&& r is Err ==> r == Err::<(), ModelError>(
                    ModelError::BadCombination(last, Loss::CrossEntropy),
                )
            },
    {
        if n_inputs != n_expected {
            return Err(ModelError::InputExpectedMismatch(n_inputs, n_expected));
        }
        if let Loss::CrossEntropy = self.loss {
            let last = &network.layers[network.layers.len() - 1];
            assert(network@.last() == last@);
            if !self.loss.supports(&last.activation) {
                return Err(ModelError::BadCombination(last.activation, self.loss));
            }
        }
        Ok(())
    }

    /// The order of the samples before the first epoch: `0, 1, .., n - 1`.
    pub fn sample_order(n: usize) -> (r: Vec<usize>)
        ensures
            r@ == Seq::new(n as nat, |i: int| i as usize),
    {
        let mut order: Vec<usize> = Vec::new();
        let mut i: usize = 0;
        while i < n
            invariant
                i <= n,
                order@ == Seq::new(i as nat, |k: int| k as usize),
            decreases n - i,
        {
            order.push(i);
            i = i + 1;
            assert(order@ =~= Seq::new(i as nat, |k: int| k as usize));
        }
        order
    }

    /// The batches of an epoch of `n` samples: ranges of positions in the
    /// epoch's order, `batch_size` of them each but the last.
    pub fn batches(&self, n: usize) -> (r: Vec<(usize, usize)>)
        requires
            self.batch_size > 0,
        ensures
            r@ == spec_batches(n as nat, self.batch_size as nat),
    {
        let b = self.batch_size;
        let mut r: Vec<(usize, usize)> = Vec::new();
        let mut start: usize = 0;
        let ghost mut k: nat = 0;
        while start < n
            invariant
                b == self.batch_size,
                b > 0,
                k * b <= n ==> start == k * b,
                k * b > n ==> start == n,
                k == 0 || (k - 1) * b < n,
                start <= n,
                r@ == spec_batches(n as nat, b as nat).take(k as int),
                k <= spec_batch_count(n as nat, b as nat),
            decreases n - start,
        {
            let end = if n - start >= b {
                start + b
            } else {
                n
            };
            r.push((start, end));
            proof {
                lemma_batch_count(n as nat, b as nat, k);
                assert((k + 1) * b == k * b + b) by (nonlinear_arith);
                assert(r@ =~= spec_batches(n as nat, b as nat).take(k + 1 as int));
                k = k + 1;
            }
            start = end;
        }
        proof {
            lemma_batch_count_exact(n as nat, b as nat, k);
            assert(spec_batches(n as nat, b as nat).take(k as int) =~= spec_batches(
                n as nat,
                b as nat,
            ));
        }
        r
    }
}

/// While `k` batches of `b` do not reach past `n`, there is a `k + 1`-th.
proof fn lemma_batch_count(n: nat, b: nat, k: nat)
    requires
        b > 0,
        k * b < n,
    ensures
        k < spec_batch_count(n, b),
{
    assert(k * b + b <= n + b - 1);
    assert((k + 1) * b == k * b + b) by (nonlinear_arith);
    assert((n + b - 1) / (b as int) >= k + 1) by (nonlinear_arith)
        requires
            (k + 1) * b <= n + b - 1,
            b > 0,
    ;
}

/// `k` batches of `b` reach `n` exactly when `k` is the batch count.
proof fn lemma_batch_count_exact(n: nat, b: nat, k: nat)
    requires
        b > 0,
        k * b >= n,
        k == 0 || (k - 1) * b < n,
    ensures
        k == spec_batch_count(n, b),
{
    if k == 0 {
        assert(n == 0);
        assert((b - 1) / (b as int) == 0) by (nonlinear_arith)
            requires
                b > 0,
        ;
    } else {
        assert((n + b - 1) / (b as int) == k) by (nonlinear_arith)
            requires
                b > 0,
                k * b >= n,
                (k - 1) * b < n,
                k > 0,
        ;
    }
}

impl Optimizer {
    /// Starts an epoch: shuffles the sample order `order` and cuts it into
    /// batches (ranges of positions in the shuffled order).
    pub fn plan_epoch(&self, order: &mut Vec<usize>, rng: &mut ThreadRng) -> (r: Vec<(usize, usize)>)
        requires
            self.batch_size > 0,
        ensures
            final(order)@.len() == old(order)@.len(),
            final(order)@.to_multiset() == old(order)@.to_multiset(),
            r@ == spec_batches(old(order)@.len(), self.batch_size as nat),
    {
        shuffle(order, rng);
        self.batches(order.len())
    }

    /// The shares of `workers` workers in a batch of `size` samples that
    /// starts at position `start` of the epoch's order: each worker in turn
    /// takes the next `size / workers` samples, and the first
    /// `size % workers` workers one more; workers left with nothing are
    /// skipped.
    pub fn worker_ranges(start: usize, size: usize, workers: usize) -> (r: Vec<(usize, usize)>)
        requires
            workers > 0,
            start + size <= usize::MAX,
        ensures
            r@ == spec_worker_ranges(start as nat, size as nat, workers as nat),
    {
        let base = size / workers;
        let rem = size % workers;
        let ghost target = spec_worker_ranges(start as nat, size as nat, workers as nat);
        let ghost active = spec_active_workers(size as nat, workers as nat);
        let mut r: Vec<(usize, usize)> = Vec::new();
        let mut next: usize = start;
        let mut w: usize = 0;
        while w < workers
            invariant
                workers > 0,
                start + size <= usize::MAX,
                base == size / workers,
                rem == size % workers,
                target == spec_worker_ranges(start as nat, size as nat, workers as nat),
                active == spec_active_workers(size as nat, workers as nat),
                w <= workers,
                next == start + spec_offset(size as nat, workers as nat, w as nat),
                r@ == target.take(
                    if w < active {
                        w as int
                    } else {
                        active as int
                    },
                ),
            decreases workers - w,
        {
            proof {
                lemma_offset_step(size as nat, workers as nat, w as nat);
                lemma_share_zero(size as nat, workers as nat, w as nat);
            }
            let share = if w < rem {
                base + 1
            } else {
                base
            };
            if share != 0 {
                r.push((next, next + share));
                next = next + share;
                assert(r@ =~= target.take(w + 1));
            }
            w = w + 1;
        }
        proof {
            assert(target.take(active as int) =~= target);
        }
        r
    }
}

/// The share of worker `w` starts where that of worker `w - 1` ends, and
/// all the shares end within the batch.
proof fn lemma_offset_step(size: nat, workers: nat, w: nat)
    requires
        workers > 0,
        w < workers,
    ensures
        spec_offset(size, workers, w + 1) == spec_offset(size, workers, w) + spec_share(
            size,
            workers,
            w,
        ),
        spec_offset(size, workers, w + 1) <= size,
        spec_offset(size, workers, workers) == size,
{
    let q = size / workers;
    let rem = size % workers;
    assert((w + 1) * q == w * q + q) by (nonlinear_arith);
    assert((w + 1) * q <= workers * q) by (nonlinear_arith)
        requires
            w + 1 <= workers,
    ;
    assert(workers * q + rem == size) by (nonlinear_arith)
        requires
            q == size / workers,
            rem == size % workers,
            workers > 0,
    ;
}

/// A worker's share is empty exactly when it is not among the active ones.
proof fn lemma_share_zero(size: nat, workers: nat, w: nat)
    requires
        workers > 0,
        w < workers,
    ensures
        (spec_share(size, workers, w) == 0) == (w >= spec_active_workers(size, workers)),
{
    let q = size / workers;
    let rem = size % workers;
    if size < workers {
        assert(q == 0 && rem == size) by (nonlinear_arith)
            requires
                size < workers,
                q == size / workers,
                rem == size % workers,
        ;
    } else {
        assert(q >= 1) by (nonlinear_arith)
            requires
                size >= workers,
                workers > 0,
                q == size / workers,
        ;
    }
}

/// The batches of an epoch tile it: they start at position 0, each starts
/// where the one before ends, the last ends at `n`, none is empty, each
/// holds `b` samples but the last, which holds at most `b`; there are none
/// exactly when there are no samples.
pub proof fn law_batches_tile(n: nat, b: nat)
    requires
        b > 0,
        n <= usize::MAX,
    ensures
        ({
            let r = spec_batches(n, b);
            &&& (r.len() == 0) == (n == 0)
            &&& r.len() > 0 ==> r[0].0 == 0 && r.last().1 == n
            &&& forall|k: int| 0 <= k < r.len() - 1 ==> #[trigger] r[k].1 == r[k + 1].0
            &&& forall|k: int| 0 <= k < r.len() ==> 0 < #[trigger] r[k].1 - r[k].0 <= b
            &&& forall|k: int| 0 <= k < r.len() - 1 ==> #[trigger] r[k].1 - r[k].0 == b
        }),
{
    let r = spec_batches(n, b);
    let c = spec_batch_count(n, b);
    if n == 0 {
        assert((b - 1) / (b as int) == 0) by (nonlinear_arith)
            requires
                b > 0,
        ;
    } else {
        assert(c >= 1 && (c - 1) * b < n && c * b >= n) by (nonlinear_arith)
            requires
                b > 0,
                n > 0,
                c == (n + b - 1) / (b as int),
        ;
    }
    assert forall|k: int| 0 <= k < r.len() implies 0 < #[trigger] r[k].1 - r[k].0 <= b && (k < r.len()
        - 1 ==> r[k].1 == r[k + 1].0 && r[k].1 - r[k].0 == b) && k * b < n by {
        assert(k * b <= (c - 1) * b) by (nonlinear_arith)
            requires
                k <= c - 1,
                b > 0,
        ;
        assert((k + 1) * b == k * b + b) by (nonlinear_arith);
        if k < r.len() - 1 {
            assert((k + 1) * b <= (c - 1) * b) by (nonlinear_arith)
                requires
                    k + 1 <= c - 1,
                    b > 0,
            ;
        }
    }
    if r.len() > 0 {
        assert((c - 1) * b + b == c * b) by (nonlinear_arith);
    }
}

/// The workers' shares tile their batch: they start at `start`, each starts
/// where the one before ends, the last ends at `start + size`, none is
/// empty, no share holds more than one sample more than another, and no
/// worker gets more than an earlier one (the larger shares come first); there
/// are as many as there are workers, or samples if those are fewer.
pub proof fn law_worker_ranges_tile(start: nat, size: nat, workers: nat)
    requires
        workers > 0,
        start + size <= usize::MAX,
    ensures
        ({
            let r = spec_worker_ranges(start, size, workers);
            &&& r.len() == if size < workers {
                size
            } else {
                workers
            }
            &&& r.len() > 0 ==> r[0].0 == start && r.last().1 == start + size
            &&& forall|k: int| 0 <= k < r.len() - 1 ==> #[trigger] r[k].1 == r[k + 1].0
            &&& forall|k: int| 0 <= k < r.len() ==> #[trigger] r[k].0 < r[k].1
            &&& forall|j: int, k: int|
                0 <= j < r.len() && 0 <= k < r.len() ==> #[trigger] (r[k].1 - r[k].0) <= #[trigger] (r[j].1
                    - r[j].0) + 1
            &&& forall|j: int, k: int|
                0 <= j < k < r.len() ==> #[trigger] (r[k].1 - r[k].0) <= #[trigger] (r[j].1 - r[j].0)
        }),
{
    let r = spec_worker_ranges(start, size, workers);
    let active = spec_active_workers(size, workers);
    assert forall|k: int| 0 <= k < r.len() implies r[k].0 == start + spec_offset(
        size,
        workers,
        k as nat,
    ) && r[k].1 == start + spec_offset(size, workers, (k + 1) as nat) && #[trigger] r[k].0 < r[k].1
        && (r[k].1 - r[k].0 == size / workers || r[k].1 - r[k].0 == size / workers + 1) by {
        lemma_offset_step(size, workers, k as nat);
        lemma_share_zero(size, workers, k as nat);
    }
    if active > 0 {
        lemma_offset_step(size, workers, (active - 1) as nat);
        if size < workers {
            let q = size / workers;
            assert(q == 0 && size % workers == size) by (nonlinear_arith)
                requires
                    size < workers,
                    q == size / workers,
            ;
        }
        assert(r.last().1 == start + size);
        assert(r[0].0 == start);
    }
    assert(r.len() == active);
    assert forall|k: int| 0 <= k < r.len() - 1 implies #[trigger] r[k].1 == r[k + 1].0 by {
        lemma_offset_step(size, workers, k as nat);
        assert(r[k].1 == start + spec_offset(size, workers, (k + 1) as nat));
        assert(r[k + 1].0 == start + spec_offset(size, workers, (k + 1) as nat));
    }
    assert forall|j: int, k: int| 0 <= j < r.len() && 0 <= k < r.len() implies #[trigger] (r[k].1
        - r[k].0) <= #[trigger] (r[j].1 - r[j].0) + 1 && (j < k ==> r[k].1 - r[k].0 <= r[j].1
        - r[j].0) by {
        assert(r[k].0 < r[k].1);
        assert(r[j].0 < r[j].1);
        lemma_offset_step(size, workers, j as nat);
        lemma_offset_step(size, workers, k as nat);
    }
}

/// Shuffling the first order of samples keeps every epoch a permutation of
/// the samples: an order with the same elements as `0, 1, .., n - 1` holds
/// each sample exactly once and nothing else.
pub proof fn law_epoch_order_is_permutation(order: Seq<usize>, n: nat)
    requires
        n <= usize::MAX + 1,
        order.to_multiset() == Seq::new(n, |i: int| i as usize).to_multiset(),
    ensures
        order.len() == n,
        order.no_duplicates(),
        forall|x: usize| order.contains(x) <==> x < n,
{
    broadcast use vstd::seq_lib::group_to_multiset_ensures;

    let ident = Seq::new(n, |i: int| i as usize);
    assert(ident.no_duplicates());
    ident.lemma_multiset_has_no_duplicates();
    assert forall|x: usize| order.to_multiset().contains(x) implies order.to_multiset().count(x)
        == 1 by {}
    order.lemma_multiset_has_no_duplicates_conv();
    assert(order.to_multiset().len() == order.len());
    assert(ident.to_multiset().len() == ident.len());
    assert forall|x: usize| order.contains(x) <==> x < n by {
        assert(order.contains(x) <==> order.to_multiset().count(x) > 0);
        assert(ident.contains(x) <==> ident.to_multiset().count(x) > 0);
        if x < n {
            assert(ident[x as int] == x);
        }
    }
}

/// A training set is checked against the network's final layer: different
/// numbers of inputs and expected outputs are refused first; then mean
/// square goes with every network, while cross entropy is accepted exactly
/// when the last layer's activation is Sigmoid or SoftMax, and is otherwise
/// refused naming that last activation.
pub proof fn law_validate_checks_last_layer(
    loss: Loss,
    layers: Seq<LayerView>,
    n_inputs: usize,
    n_expected: usize,
)
    ensures
        n_inputs != n_expected ==> spec_validate(loss, layers, n_inputs, n_expected) == Err::<
            (),
            ModelError,
        >(ModelError::InputExpectedMismatch(n_inputs, n_expected)),
        n_inputs == n_expected && loss is MeanSquare ==> spec_validate(
            loss,
            layers,
            n_inputs,
            n_expected,
        ) == Ok::<(), ModelError>(()),
        n_inputs == n_expected && loss is CrossEntropy && layers.len() > 0 ==> {
            let last = layers[layers.len() - 1].activation;
            &&& (spec_validate(loss, layers, n_inputs, n_expected) is Ok) <==> (last is Sigmoid
                || last is SoftMax)
            &&& spec_validate(loss, layers, n_inputs, n_expected) is Err ==> spec_validate(
                loss,
                layers,
                n_inputs,
                n_expected,
            ) == Err::<(), ModelError>(ModelError::BadCombination(last, Loss::CrossEntropy))
        },
{
}

} // verus!
