use vstd::prelude::*;
use crate::config::{EPOCHS, PATIENCE, SHUFFLE_SEED};
use crate::layout::{chunk_bounds, chunk_range, chunk_total};
use crate::label::Label;
use vstd::multiset::Multiset;

verus! {

// ── Randomness ───────────────────────────────────────────────────────────────

/// The seeded standard random generator of `rand`.
#[verifier::external_type_specification]
#[verifier::external_body]
pub struct ExStdRng(rand::rngs::StdRng);

/// The generator that `StdRng::seed_from_u64` makes from `seed`: its state is
/// a function of the seed alone (the seed is expanded by a fixed PCG32 step).
pub uninterp spec fn seeded_generator(seed: u64) -> rand::rngs::StdRng;

/// `rand::SeedableRng::seed_from_u64` for `StdRng`: the generator determined
/// by `seed`.  Nothing is stated of the numbers it produces.
#[verifier::external_body]
fn seeded_rng(seed: u64) -> (r: rand::rngs::StdRng)
    ensures
        r == seeded_generator(seed),
{
    <rand::rngs::StdRng as rand::SeedableRng>::seed_from_u64(seed)
}

/// `rand::seq::SliceRandom::shuffle` on the items of `v`: a Fisher–Yates
/// shuffle made of swaps, so the result is a permutation of the input.  Which
/// permutation depends on the generator and is not stated.
#[verifier::external_body]
fn shuffle(v: &mut Vec<usize>, rng: &mut rand::rngs::StdRng)
    ensures
        final(v)@.len() == old(v)@.len(),
        final(v)@.to_multiset() == old(v)@.to_multiset(),
{
    rand::seq::SliceRandom::shuffle(v.as_mut_slice(), rng)
}

/// The generator that balances the training set (seeded with `SHUFFLE_SEED`).
pub fn balancing_rng() -> (r: rand::rngs::StdRng)
    ensures
        r == seeded_generator(SHUFFLE_SEED),
{
    seeded_rng(SHUFFLE_SEED)
}

/// The generator that orders the batches of each epoch (seeded with `SHUFFLE_SEED + 1`).
pub fn epoch_rng() -> (r: rand::rngs::StdRng)
    ensures
        r == seeded_generator((SHUFFLE_SEED + 1) as u64),
{
    seeded_rng(SHUFFLE_SEED + 1)
}

// ── Class balancing ──────────────────────────────────────────────────────────

/// Number of entries of `labels` equal to `l`.
pub open spec fn label_count(labels: Seq<Label>, l: Label) -> nat
    decreases labels.len(),
{
    if labels.len() == 0 {
        0
    } else {
        label_count(labels.drop_last(), l) + if labels.last() == l {
            1nat
        } else {
            0nat
        }
    }
}

/// The indices among `indices` whose sample has label `l`, as a multiset.
pub open spec fn members_of(indices: Seq<usize>, labels: Seq<Label>, l: Label) -> Multiset<usize> {
    indices.to_multiset().filter(|i: usize| labels[i as int] == l)
}

/// The size of each class after undersampling the majority class.
pub open spec fn balanced_size(labels: Seq<Label>) -> nat {
    let m = label_count(labels, Label::Male);
    let f = label_count(labels, Label::Female);
    if m <= f {
        m
    } else {
        f
    }
}

/// Whether `indices` are distinct positions of `labels` holding exactly
/// `balanced_size(labels)` samples of each class.
pub open spec fn is_balanced_selection(indices: Seq<usize>, labels: Seq<Label>) -> bool {
    &&& indices.len() == 2 * balanced_size(labels)
    &&& indices.no_duplicates()
    &&& forall|k: int| 0 <= k < indices.len() ==> #[trigger] indices[k] < labels.len()
    &&& members_of(indices, labels, Label::Male).len() == balanced_size(labels)
    &&& members_of(indices, labels, Label::Female).len() == balanced_size(labels)
}

/// The indices, in increasing order, of the entries of `labels` equal to `l`.
fn class_indices(labels: &[Label], l: Label) -> (r: Vec<usize>)
    ensures
        r@.len() == label_count(labels@, l),
        forall|a: int, b: int| 0 <= a < b < r@.len() ==> r@[a] < r@[b],
        forall|k: int| 0 <= k < r@.len() ==> #[trigger] r@[k] < labels@.len() && labels@[r@[k] as int] == l,
{
    let mut out: Vec<usize> = Vec::new();
    let mut i: usize = 0;
    while i < labels.len()
        invariant
            i <= labels@.len(),
            out@.len() == label_count(labels@.take(i as int), l),
            forall|a: int, b: int| 0 <= a < b < out@.len() ==> out@[a] < out@[b],
            forall|k: int| 0 <= k < out@.len() ==> #[trigger] out@[k] < i && labels@[out@[k] as int] == l,
        decreases labels@.len() - i,
    {
        assert(labels@.take(i + 1).drop_last() =~= labels@.take(i as int));
        if labels[i] == l {
            out.push(i);
        }
        i += 1;
    }
    assert(labels@.take(labels@.len() as int) =~= labels@);
    out
}

/// A permutation keeps the elements, their validity and their distinctness.
proof fn lemma_permutation_keeps(s: Seq<usize>, t: Seq<usize>)
    requires
        s.to_multiset() == t.to_multiset(),
        s.no_duplicates(),
    ensures
        t.no_duplicates(),
        forall|x: usize| t.contains(x) <==> s.contains(x),
{
    broadcast use vstd::seq_lib::group_to_multiset_ensures;

    s.lemma_multiset_has_no_duplicates();
    t.lemma_multiset_has_no_duplicates_conv();
    assert forall|x: usize| t.contains(x) <==> s.contains(x) by {
        vstd::seq_lib::to_multiset_contains(t, x);
        vstd::seq_lib::to_multiset_contains(s, x);
    }
}

/// Undersamples the majority class: shuffles the indices of each class,
/// keeps as many of each as the minority class has, and shuffles the union.
/// Returns the positions in `labels` of the selected training samples.
pub fn balance_classes(labels: &[Label], rng: &mut rand::rngs::StdRng) -> (r: Vec<usize>)
    ensures
        is_balanced_selection(r@, labels@),
{
    let mut male = class_indices(labels, Label::Male);
    let mut female = class_indices(labels, Label::Female);
    let min_count = if male.len() <= female.len() {
        male.len()
    } else {
        female.len()
    };
    let ghost male0 = male@;
    let ghost female0 = female@;
    proof {
        assert(male0.no_duplicates());
        assert(female0.no_duplicates());
    }
    shuffle(&mut male, rng);
    shuffle(&mut female, rng);
    proof {
        lemma_permutation_keeps(male0, male@);
        lemma_permutation_keeps(female0, female@);
        assert forall|k: int| 0 <= k < male@.len() implies #[trigger] male@[k] < labels@.len()
            && labels@[male@[k] as int] == Label::Male by {
            assert(male@.contains(male@[k]));
            assert(male0.contains(male@[k]));
        }
        assert forall|k: int| 0 <= k < female@.len() implies #[trigger] female@[k] < labels@.len()
            && labels@[female@[k] as int] == Label::Female by {
            assert(female@.contains(female@[k]));
            assert(female0.contains(female@[k]));
        }
    }
    male.truncate(min_count);
    female.truncate(min_count);
    let ghost ms = male@;
    let ghost fs = female@;
    let mut selected = male;
    selected.append(&mut female);
    let ghost joined = selected@;
    proof {
        assert(joined == ms + fs);
        assert(joined.no_duplicates()) by {
            assert forall|a: int, b: int| 0 <= a < joined.len() && 0 <= b < joined.len() && a != b implies joined[a]
                != joined[b] by {
                if a < ms.len() && b >= ms.len() {
                    assert(labels@[joined[a] as int] == Label::Male);
                    assert(labels@[joined[b] as int] == Label::Female);
                } else if b < ms.len() && a >= ms.len() {
                    assert(labels@[joined[b] as int] == Label::Male);
                    assert(labels@[joined[a] as int] == Label::Female);
                } else if a < ms.len() {
                    assert(joined[a] == ms[a] && joined[b] == ms[b]);
                } else {
                    assert(joined[a] == fs[a - ms.len()] && joined[b] == fs[b - ms.len()]);
                }
            }
        }
        lemma_class_members(ms, fs, labels@);
    }
    shuffle(&mut selected, rng);
    proof {
        lemma_permutation_keeps(joined, selected@);
        assert forall|k: int| 0 <= k < selected@.len() implies #[trigger] selected@[k] < labels@.len() by {
            assert(selected@.contains(selected@[k]));
            let j = choose|j: int| 0 <= j < joined.len() && joined[j] == selected@[k];
            if j < ms.len() {
                assert(joined[j] == ms[j]);
            } else {
                assert(joined[j] == fs[j - ms.len()]);
            }
        }
    }
    selected
}

/// The multiset of a class part of a selection.
proof fn lemma_class_members(ms: Seq<usize>, fs: Seq<usize>, labels: Seq<Label>)
    requires
        forall|k: int| 0 <= k < ms.len() ==> #[trigger] ms[k] < labels.len() && labels[ms[k] as int] == Label::Male,
        forall|k: int| 0 <= k < fs.len() ==> #[trigger] fs[k] < labels.len() && labels[fs[k] as int] == Label::Female,
    ensures
        members_of(ms + fs, labels, Label::Male).len() == ms.len(),
        members_of(ms + fs, labels, Label::Female).len() == fs.len(),
{
    broadcast use vstd::seq_lib::group_to_multiset_ensures;
    broadcast use vstd::multiset::group_multiset_axioms;

    vstd::seq_lib::lemma_multiset_commutative(ms, fs);
    let all = (ms + fs).to_multiset();
    assert(members_of(ms + fs, labels, Label::Male) =~= ms.to_multiset()) by {
        assert forall|v: usize| #[trigger] members_of(ms + fs, labels, Label::Male).count(v) == ms.to_multiset().count(v) by {
            if fs.to_multiset().count(v) > 0 {
                assert(fs.contains(v));
            }
            if ms.to_multiset().count(v) > 0 {
                assert(ms.contains(v));
            }
        }
    }
    assert(members_of(ms + fs, labels, Label::Female) =~= fs.to_multiset()) by {
        assert forall|v: usize| #[trigger] members_of(ms + fs, labels, Label::Female).count(v) == fs.to_multiset().count(v) by {
            if fs.to_multiset().count(v) > 0 {
                assert(fs.contains(v));
            }
            if ms.to_multiset().count(v) > 0 {
                assert(ms.contains(v));
            }
        }
    }
}

// ── Epoch planning ───────────────────────────────────────────────────────────

/// Reshuffles the training order for a new epoch and returns the ranges of
/// its batches of `batch_size` positions (the last batch possibly shorter).
pub fn plan_epoch(order: &mut Vec<usize>, rng: &mut rand::rngs::StdRng, batch_size: usize) -> (r: Vec<(usize, usize)>)
    requires
        batch_size > 0,
    ensures
        final(order)@.to_multiset() == old(order)@.to_multiset(),
        final(order)@.len() == old(order)@.len(),
        r@.len() == chunk_total(old(order)@.len(), batch_size as nat),
        forall|i: int|
            0 <= i < r@.len() ==> (#[trigger] r@[i]).0 as nat == chunk_range(old(order)@.len(), batch_size as nat, i as nat).0
                && r@[i].1 as nat == chunk_range(old(order)@.len(), batch_size as nat, i as nat).1,
{
    shuffle(order, rng);
    chunk_bounds(order.len(), batch_size)
}

/// Whether accuracies are also computed (and logged) after epoch `epoch`:
/// on the first epoch and every fifth.
pub open spec fn logs_accuracy_at(epoch: nat) -> bool {
    epoch % 5 == 0 || epoch == 1
}

/// Whether accuracies are also computed (and logged) after epoch `epoch`.
pub fn logs_accuracy(epoch: usize) -> (r: bool)
    ensures
        r == logs_accuracy_at(epoch as nat),
{
    epoch % 5 == 0 || epoch == 1
}

// ── Early stopping ──────────────────────────────────────────────────────────

/// What the training monitor knows: the last epoch started, the number of
/// validation checks since the last improvement, and whether training stopped.
pub ghost struct MonitorView {
    pub epoch: nat,
    pub stalled: nat,
    pub stopped: bool,
}

/// The monitor's stall count and stop flag after an epoch's outcome:
/// `None` when there is no validation set, else whether the validation loss
/// improved.  A stopped monitor does not change.
pub open spec fn after_outcome(stalled: nat, stopped: bool, outcome: Option<bool>) -> (nat, bool) {
    if stopped {
        (stalled, true)
    } else {
        match outcome {
            None => (stalled, false),
            Some(true) => (0, false),
            Some(false) => ((stalled + 1) as nat, stalled + 1 >= PATIENCE),
        }
    }
}

/// The monitor's stall count and stop flag after a sequence of epoch outcomes.
pub open spec fn after_outcomes(outcomes: Seq<Option<bool>>) -> (nat, bool)
    decreases outcomes.len(),
{
    if outcomes.len() == 0 {
        (0, false)
    } else {
        let prev = after_outcomes(outcomes.drop_last());
        after_outcome(prev.0, prev.1, outcomes.last())
    }
}

/// Number of validation checks without improvement at the end of `outcomes`
/// (epochs without validation neither count nor interrupt the run).
pub open spec fn trailing_stalls(outcomes: Seq<Option<bool>>) -> nat
    decreases outcomes.len(),
{
    if outcomes.len() == 0 {
        0
    } else {
        match outcomes.last() {
            None => trailing_stalls(outcomes.drop_last()),
            Some(true) => 0,
            Some(false) => trailing_stalls(outcomes.drop_last()) + 1,
        }
    }
}

/// Drives the epochs of a training run: at most `EPOCHS` epochs, stopping
/// early once `PATIENCE` validation checks in a row brought no improvement.
pub struct TrainingMonitor {
    epoch: usize,
    stalled: usize,
    stopped: bool,
}

impl View for TrainingMonitor {
    type V = MonitorView;

    closed spec fn view(&self) -> MonitorView {
        MonitorView { epoch: self.epoch as nat, stalled: self.stalled as nat, stopped: self.stopped }
    }
}

impl TrainingMonitor {
    #[verifier::type_invariant]
    spec fn inv(self) -> bool {
        &&& self.epoch <= EPOCHS
        &&& self.stalled <= PATIENCE
        &&& (self.stopped || self.stalled < PATIENCE)
    }

    /// A monitor before the first epoch.
    pub fn new() -> (r: Self)
        ensures
            r@ == (MonitorView { epoch: 0, stalled: 0, stopped: false }),
    {
        TrainingMonitor { epoch: 0, stalled: 0, stopped: false }
    }

    /// Starts the next epoch and returns its number (from 1), or `None` when
    /// training has stopped early or all `EPOCHS` epochs have run.
    pub fn start_epoch(&mut self) -> (r: Option<usize>)
        ensures
            old(self)@.stopped || old(self)@.epoch >= EPOCHS ==> r is None && final(self)@ == old(self)@,
            !(old(self)@.stopped || old(self)@.epoch >= EPOCHS) ==> r == Some((old(self)@.epoch + 1) as usize)
                && final(self)@ == (MonitorView { epoch: old(self)@.epoch + 1, ..old(self)@ }),
    {
        proof {
            use_type_invariant(&*self);
        }
        if self.stopped || self.epoch >= EPOCHS {
            None
        } else {
            self.epoch = self.epoch + 1;
            Some(self.epoch)
        }
    }

    /// Records an epoch's outcome (`None` without a validation set, else
    /// whether the validation loss improved) and returns whether training
    /// stops early because of it.
    pub fn finish_epoch(&mut self, outcome: Option<bool>) -> (stop: bool)
        ensures
            (final(self)@.stalled, final(self)@.stopped) == after_outcome(old(self)@.stalled, old(self)@.stopped, outcome),
            final(self)@.epoch == old(self)@.epoch,
            stop == (final(self)@.stopped && !old(self)@.stopped),
    {
        proof {
            use_type_invariant(&*self);
        }
        if self.stopped {
            return false;
        }
        match outcome {
            None => false,
            Some(true) => {
                self.stalled = 0;
                false
            },
            Some(false) => {
                if self.stalled + 1 >= PATIENCE {
                    self.stopped = true;
                    self.stalled = self.stalled + 1;
                    true
                } else {
                    self.stalled = self.stalled + 1;
                    false
                }
            },
        }
    }

    /// Whether training has stopped early.
    pub fn stopped(&self) -> (r: bool)
        ensures
            r == self@.stopped,
    {
        self.stopped
    }

    /// Validation checks since the last improvement.
    pub fn stalled(&self) -> (r: usize)
        ensures
            r == self@.stalled,
    {
        self.stalled
    }
}

/// Early stopping: after a sequence of epoch outcomes, training has stopped
/// exactly when some prefix of them ends with `PATIENCE` validation checks
/// without improvement; until then the monitor counts the trailing checks
/// without improvement.  Without a validation set it never stops.
pub proof fn lemma_early_stopping(outcomes: Seq<Option<bool>>)
    ensures
        after_outcomes(outcomes).1 <==> exists|p: int|
            1 <= p <= outcomes.len() && #[trigger] trailing_stalls(outcomes.take(p)) >= PATIENCE,
        !after_outcomes(outcomes).1 ==> after_outcomes(outcomes).0 == trailing_stalls(outcomes),
        !after_outcomes(outcomes).1 ==> after_outcomes(outcomes).0 < PATIENCE,
        (forall|i: int| 0 <= i < outcomes.len() ==> #[trigger] outcomes[i] is None) ==> !after_outcomes(outcomes).1,
    decreases outcomes.len(),
{
    if outcomes.len() == 0 {
    } else {
        let prev = outcomes.drop_last();
        let n = outcomes.len() as int;
        lemma_early_stopping(prev);
        assert(outcomes.take(n) =~= outcomes);
        assert forall|p: int| 1 <= p <= prev.len() implies #[trigger] outcomes.take(p) == prev.take(p) by {
            assert(outcomes.take(p) =~= prev.take(p));
        }
        assert(outcomes.drop_last() == prev);
        if after_outcomes(prev).1 {
            let p = choose|p: int| 1 <= p <= prev.len() && #[trigger] trailing_stalls(prev.take(p)) >= PATIENCE;
            assert(outcomes.take(p) == prev.take(p));
            assert(after_outcomes(outcomes).1);
        } else {
            if after_outcomes(outcomes).1 {
                assert(trailing_stalls(outcomes.take(n)) >= PATIENCE);
            }
            assert forall|p: int| 1 <= p <= outcomes.len() && #[trigger] trailing_stalls(outcomes.take(p)) >= PATIENCE implies after_outcomes(
                outcomes,
            ).1 by {
                if p < outcomes.len() {
                    assert(outcomes.take(p) == prev.take(p));
                } else {
                    assert(outcomes.take(p) == outcomes);
                }
            }
        }
        if forall|i: int| 0 <= i < outcomes.len() ==> #[trigger] outcomes[i] is None {
            assert forall|i: int| 0 <= i < prev.len() implies #[trigger] prev[i] is None by {
                assert(prev[i] == outcomes[i]);
            }
            assert(outcomes[n - 1] is None);
        }
    }
}

// ── Per-class accuracy ───────────────────────────────────────────────────────

/// Per-class counts of evaluated samples and of correct predictions.
#[derive(Clone, Copy, Debug, PartialEq, Eq, Structural)]
pub struct ClassTally {
    pub male_correct: usize,
    pub male_total: usize,
    pub female_correct: usize,
    pub female_total: usize,
}

/// Number of `(true, predicted)` pairs whose true label is `l`.
pub open spec fn total_of(pairs: Seq<(Label, Label)>, l: Label) -> nat
    decreases pairs.len(),
{
    if pairs.len() == 0 {
        0
    } else {
        total_of(pairs.drop_last(), l) + if pairs.last().0 == l {
            1nat
        } else {
            0nat
        }
    }
}

/// Number of `(true, predicted)` pairs whose true and predicted label are `l`.
pub open spec fn correct_of(pairs: Seq<(Label, Label)>, l: Label) -> nat
    decreases pairs.len(),
{
    if pairs.len() == 0 {
        0
    } else {
        correct_of(pairs.drop_last(), l) + if pairs.last().0 == l && pairs.last().1 == l {
            1nat
        } else {
            0nat
        }
    }
}

proof fn lemma_counts_bounded(pairs: Seq<(Label, Label)>)
    ensures
        correct_of(pairs, Label::Male) <= total_of(pairs, Label::Male),
        correct_of(pairs, Label::Female) <= total_of(pairs, Label::Female),
        total_of(pairs, Label::Male) + total_of(pairs, Label::Female) == pairs.len(),
    decreases pairs.len(),
{
    if pairs.len() > 0 {
        lemma_counts_bounded(pairs.drop_last());
    }
}

/// Counts, per true class, the samples and the correct predictions among
/// `(true label, predicted label)` pairs.
pub fn tally(pairs: &[(Label, Label)]) -> (r: ClassTally)
    ensures
        r.male_total == total_of(pairs@, Label::Male),
        r.male_correct == correct_of(pairs@, Label::Male),
        r.female_total == total_of(pairs@, Label::Female),
        r.female_correct == correct_of(pairs@, Label::Female),
{
    let mut t = ClassTally { male_correct: 0, male_total: 0, female_correct: 0, female_total: 0 };
    let mut i: usize = 0;
    while i < pairs.len()
        invariant
            i <= pairs@.len(),
            t.male_total == total_of(pairs@.take(i as int), Label::Male),
            t.male_correct == correct_of(pairs@.take(i as int), Label::Male),
            t.female_total == total_of(pairs@.take(i as int), Label::Female),
            t.female_correct == correct_of(pairs@.take(i as int), Label::Female),
        decreases pairs@.len() - i,
    {
        proof {
            assert(pairs@.take(i + 1).drop_last() =~= pairs@.take(i as int));
            lemma_counts_bounded(pairs@.take(i as int));
        }
        let (truth, predicted) = pairs[i];
        match truth {
            Label::Male => {
                t.male_total = t.male_total + 1;
                if predicted == Label::Male {
                    t.male_correct = t.male_correct + 1;
                }
            },
            Label::Female => {
                t.female_total = t.female_total + 1;
                if predicted == Label::Female {
                    t.female_correct = t.female_correct + 1;
                }
            },
        }
        i += 1;
    }
    assert(pairs@.take(pairs@.len() as int) =~= pairs@);
    t
}

/// The accuracy `(correct, total)` of the worst non-empty class: the male
/// class unless the female class's accuracy is strictly lower; `None` when
/// both classes are empty.
pub open spec fn worst_of(t: ClassTally) -> Option<(usize, usize)> {
    if t.male_total > 0 {
        if t.female_total > 0 && t.female_correct * t.male_total < t.male_correct * t.female_total {
            Some((t.female_correct, t.female_total))
        } else {
            Some((t.male_correct, t.male_total))
        }
    } else if t.female_total > 0 {
        Some((t.female_correct, t.female_total))
    } else {
        None
    }
}

proof fn lemma_product_fits(a: usize, b: usize)
    ensures
        (a as u128) * (b as u128) <= u128::MAX,
{
    let x = a as int;
    let y = b as int;
    assert(x * y <= 0xffff_ffff_ffff_ffff * 0xffff_ffff_ffff_ffff) by (nonlinear_arith)
        requires
            0 <= x <= 0xffff_ffff_ffff_ffff,
            0 <= y <= 0xffff_ffff_ffff_ffff,
    ;
}

/// The accuracy `(correct, total)` of the worst-performing non-empty class.
pub fn worst_class(t: &ClassTally) -> (r: Option<(usize, usize)>)
    ensures
        r == worst_of(*t),
{
    proof {
        lemma_product_fits(t.female_correct, t.male_total);
        lemma_product_fits(t.male_correct, t.female_total);
    }
    if t.male_total > 0 {
        if t.female_total > 0 && (t.female_correct as u128) * (t.male_total as u128) < (t.male_correct as u128) * (
        t.female_total as u128) {
            Some((t.female_correct, t.female_total))
        } else {
            Some((t.male_correct, t.male_total))
        }
    } else if t.female_total > 0 {
        Some((t.female_correct, t.female_total))
    } else {
        None
    }
}

/// The worst class's accuracy is at most that of every non-empty class and
/// is the accuracy of one of them.
pub proof fn lemma_worst_is_minimum(t: ClassTally)
    ensures
        worst_of(t) is None <==> t.male_total == 0 && t.female_total == 0,
        worst_of(t) matches Some((c, n)) ==> {
            &&& (t.male_total > 0 ==> c * t.male_total <= t.male_correct * n)
            &&& (t.female_total > 0 ==> c * t.female_total <= t.female_correct * n)
            &&& ((c, n) == (t.male_correct, t.male_total) || (c, n) == (t.female_correct, t.female_total))
        },
{
    if t.male_total > 0 && t.female_total > 0 {
        let mc = t.male_correct as int;
        let mt = t.male_total as int;
        let fc = t.female_correct as int;
        let ft = t.female_total as int;
        assert(mc * ft == ft * mc && fc * mt == mt * fc) by (nonlinear_arith);
    }
}

} // verus!
