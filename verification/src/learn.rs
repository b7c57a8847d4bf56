//! The optimizer: accuracy-guarded pruning and randomized local search.
//!
//! Each strategy takes the current model, produces a candidate, measures its
//! accuracy over a held-out dataset, and commits the candidate only when the
//! accuracy stays above the configured floor; otherwise the prior model is
//! kept.

use vstd::prelude::*;

use crate::classify::accuracy_of;
use crate::model::assoc_find;
use crate::model::assoc_set;
use crate::model::GramTable;
use crate::model::LabelTables;
use crate::model::model_view;
use crate::model::maps_wf;
use crate::model::NGram;
use crate::nums::PROB_MAX;
use crate::nums::PROB_SCALE;
use crate::strutil::str_copy;
use crate::strutil::str_eq;
use crate::train::tables_clone;
use crate::train::tables_equiv;
use crate::util::InputTup;

verus! {

/// Probability-threshold pruning: thresholds start here, are multiplied by
/// the step factor on every accepted pass, and accuracy may drop at most
/// `max_accuracy_reduction` below the baseline.
#[derive(Clone, Copy)]
pub struct PruneProbabilityConfig {
    /// First threshold tried, in fixed point.
    pub starting_probability: u64,
    /// Largest tolerated accuracy drop below the baseline, in fixed point.
    pub max_accuracy_reduction: u64,
    /// Factor (in fixed point) the threshold is multiplied by per accepted
    /// pass, and divided by on rejection.
    pub probability_multiplyer: u64,
}

impl PruneProbabilityConfig {
    pub fn default() -> (r: PruneProbabilityConfig)
        ensures
            r.starting_probability == 10_000,
            r.max_accuracy_reduction == 100_000_000,
            r.probability_multiplyer == 2_000_000_000,
    {
        PruneProbabilityConfig {
            starting_probability: 10_000,  // 0.00001
            max_accuracy_reduction: 100_000_000,  // 0.1
            probability_multiplyer: 2_000_000_000,  // 2.0
        }
    }

    /// The configuration with the given fields, absent ones defaulted.
    pub fn from_values(
        starting_probability: Option<u64>,
        max_accuracy_reduction: Option<u64>,
        probability_multiplyer: Option<u64>,
    ) -> (r: PruneProbabilityConfig)
        ensures
            r.starting_probability == starting_probability.unwrap_or(10_000),
            r.max_accuracy_reduction == max_accuracy_reduction.unwrap_or(100_000_000),
            r.probability_multiplyer == probability_multiplyer.unwrap_or(2_000_000_000),
    {
        let d = PruneProbabilityConfig::default();
        PruneProbabilityConfig {
            starting_probability: match starting_probability {
                Some(v) => v,
                None => d.starting_probability,
            },
            max_accuracy_reduction: match max_accuracy_reduction {
                Some(v) => v,
                None => d.max_accuracy_reduction,
            },
            probability_multiplyer: match probability_multiplyer {
                Some(v) => v,
                None => d.probability_multiplyer,
            },
        }
    }
}

/// Similarity pruning: removes grams whose probabilities are nearly equal
/// across every label that holds them.
#[derive(Clone, Copy)]
pub struct PruneSimilarityConfig {
    /// First deviation threshold tried, in fixed point.
    pub starting_deviation: u64,
    /// Largest tolerated accuracy drop below the baseline, in fixed point.
    pub max_accuracy_reduction: u64,
    /// Factor (in fixed point) the threshold walks by.
    pub probability_multiplyer: u64,
}

impl PruneSimilarityConfig {
    pub fn default() -> (r: PruneSimilarityConfig)
        ensures
            r.starting_deviation == 10,
            r.max_accuracy_reduction == 100_000_000,
            r.probability_multiplyer == 2_000_000_000,
    {
        PruneSimilarityConfig {
            starting_deviation: 10,  // 0.00000001
            max_accuracy_reduction: 100_000_000,  // 0.1
            probability_multiplyer: 2_000_000_000,  // 2.0
        }
    }

    /// The configuration with the given fields, absent ones defaulted.
    pub fn from_values(
        starting_deviation: Option<u64>,
        max_accuracy_reduction: Option<u64>,
        probability_multiplyer: Option<u64>,
    ) -> (r: PruneSimilarityConfig)
        ensures
            r.starting_deviation == starting_deviation.unwrap_or(10),
            r.max_accuracy_reduction == max_accuracy_reduction.unwrap_or(100_000_000),
            r.probability_multiplyer == probability_multiplyer.unwrap_or(2_000_000_000),
    {
        let d = PruneSimilarityConfig::default();
        PruneSimilarityConfig {
            starting_deviation: match starting_deviation {
                Some(v) => v,
                None => d.starting_deviation,
            },
            max_accuracy_reduction: match max_accuracy_reduction {
                Some(v) => v,
                None => d.max_accuracy_reduction,
            },
            probability_multiplyer: match probability_multiplyer {
                Some(v) => v,
                None => d.probability_multiplyer,
            },
        }
    }
}

/// Count pruning: removes grams whose reconstructed occurrence count is at
/// most `min_count`; a single hard pass with no accuracy feedback.
#[derive(Clone, Copy)]
pub struct PruneCountConfig {
    /// Grams with a reconstructed count at or below this are removed.
    pub min_count: u64,
    /// Added to the reconstructed count before the comparison, in fixed
    /// point.
    pub adjust_amount: u64,
}

impl PruneCountConfig {
    pub fn default() -> (r: PruneCountConfig)
        ensures
            r.min_count == 2,
            r.adjust_amount == 10_000_000,
    {
        PruneCountConfig {
            min_count: 2,
            adjust_amount: 10_000_000,  // 0.01
        }
    }

    /// The configuration with the given fields, absent ones defaulted.
    pub fn from_values(min_count: Option<u64>, adjust_amount: Option<u64>) -> (r: PruneCountConfig)
        ensures
            r.min_count == min_count.unwrap_or(2),
            r.adjust_amount == adjust_amount.unwrap_or(10_000_000),
    {
        let d = PruneCountConfig::default();
        PruneCountConfig {
            min_count: match min_count {
                Some(v) => v,
                None => d.min_count,
            },
            adjust_amount: match adjust_amount {
                Some(v) => v,
                None => d.adjust_amount,
            },
        }
    }
}

/// Randomized local search: perturbs randomly chosen unigram probabilities
/// and keeps only strict accuracy improvements.
#[derive(Clone, Copy)]
pub struct RandomizerConfig {
    /// How many random grams each perturbation touches.
    pub num_params: u64,
    /// Size of one probability step, in fixed point.
    pub step_size: u64,
    /// How many rounds of candidates are tried.
    pub iterations: u64,
}

impl RandomizerConfig {
    pub fn default() -> (r: RandomizerConfig)
        ensures
            r.num_params == 10,
            r.step_size == 1_000_000,
            r.iterations == 1000,
    {
        RandomizerConfig {
            num_params: 10,
            step_size: 1_000_000,  // 0.001
            iterations: 1000,
        }
    }

    /// The configuration with the given fields, absent ones defaulted.
    pub fn from_values(
        num_params: Option<u64>,
        step_size: Option<u64>,
        iterations: Option<u64>,
    ) -> (r: RandomizerConfig)
        ensures
            r.num_params == num_params.unwrap_or(10),
            r.step_size == step_size.unwrap_or(1_000_000),
            r.iterations == iterations.unwrap_or(1000),
    {
        let d = RandomizerConfig::default();
        RandomizerConfig {
            num_params: match num_params {
                Some(v) => v,
                None => d.num_params,
            },
            step_size: match step_size {
                Some(v) => v,
                None => d.step_size,
            },
            iterations: match iterations {
                Some(v) => v,
                None => d.iterations,
            },
        }
    }
}

/// Which strategies a learning run executes.
#[derive(Clone, Copy)]
pub struct PruneSelectionConfig {
    pub probability: bool,
    pub similarity: bool,
    pub count: bool,
    pub randomizer: bool,
}

impl PruneSelectionConfig {
    pub fn default() -> (r: PruneSelectionConfig)
        ensures
            !r.probability && !r.similarity && !r.count && !r.randomizer,
    {
        PruneSelectionConfig { probability: false, similarity: false, count: false, randomizer: false }
    }
}

/// Full learning configuration: the selected strategies and their
/// parameters; absent parameters fall back to the per-strategy defaults.
pub struct LearnConfig {
    pub prune_selection: PruneSelectionConfig,
    pub prune_probability: Option<PruneProbabilityConfig>,
    pub prune_similarity: Option<PruneSimilarityConfig>,
    pub prune_count: Option<PruneCountConfig>,
    pub randomizer: Option<RandomizerConfig>,
}

/// Whether count pruning keeps a gram: its reconstructed occurrence count,
/// nudged by `adjust_amount`, must exceed `min_count`.
pub open spec fn kept_by_count(p: u64, total: u64, cfg: PruneCountConfig) -> bool {
    p * total + cfg.adjust_amount > cfg.min_count * PROB_SCALE
}

/// A probability list with the grams that fail the count floor removed.
pub open spec fn count_filtered(probs: crate::model::ProbsV, total: u64, cfg: PruneCountConfig) -> crate::model::ProbsV {
    probs.filter(|e: (Seq<char>, u64)| kept_by_count(e.1, total, cfg))
}

/// One order's tables after count pruning: the same labels with the same
/// totals, each probability list count-filtered.
pub open spec fn order_count_filtered(a: LabelTables, b: LabelTables, cfg: PruneCountConfig) -> bool {
    &&& b.tables().len() == a.tables().len()
    &&& forall|i: int|
        0 <= i < a.tables().len() ==> (#[trigger] b.tables()[i]).0 == (#[trigger] a.tables()[i]).0
            && b.tables()[i].1.total_samples == a.tables()[i].1.total_samples
            && b.tables()[i].1.probs() == count_filtered(
            a.tables()[i].1.probs(),
            a.tables()[i].1.total_samples,
            cfg,
        )
}

/// One table with its probability list filtered.
fn filter_table(t: &GramTable, cfg: &PruneCountConfig) -> (r: GramTable)
    ensures
        r.total_samples == t.total_samples,
        r.probs() == count_filtered(t.probs(), t.total_samples, *cfg),
{
    let mut probabilities: Vec<(String, u64)> = Vec::new();
    let n = t.probabilities.len();
    let mut i: usize = 0;
    proof {
        reveal(Seq::filter);
        assert(probabilities@.map_values(|e: (String, u64)| (e.0@, e.1))
            =~= Seq::<(Seq<char>, u64)>::empty());
        assert(t.probs().take(0) =~= Seq::<(Seq<char>, u64)>::empty());
        assert(count_filtered(t.probs().take(0), t.total_samples, *cfg)
            =~= Seq::<(Seq<char>, u64)>::empty());
    }
    while i < n
        invariant
            0 <= i <= n,
            n == t.probabilities@.len(),
            probabilities@.map_values(|e: (String, u64)| (e.0@, e.1)) == count_filtered(
                t.probs().take(i as int),
                t.total_samples,
                *cfg,
            ),
        decreases n - i,
    {
        let p = t.probabilities[i].1;
        let ghost pre = t.probs().take(i as int);
        let ghost post = t.probs().take(i + 1);
        proof {
            reveal(Seq::filter);
            assert(post.drop_last() =~= pre);
            assert(post.last() == t.probs()[i as int]);
            assert(t.probs()[i as int] == (t.probabilities@[i as int].0@, p));
        }
        proof {
            assert((p as int) * (t.total_samples as int) + cfg.adjust_amount <= u128::MAX)
                by (nonlinear_arith)
                requires
                    p <= u64::MAX,
                    t.total_samples <= u64::MAX,
                    cfg.adjust_amount <= u64::MAX,
            ;
        }
        let lhs: u128 = (p as u128) * (t.total_samples as u128) + (cfg.adjust_amount as u128);
        let rhs: u128 = (cfg.min_count as u128) * (PROB_SCALE as u128);
        proof {
            assert(lhs == (p as int) * (t.total_samples as int) + cfg.adjust_amount);
            assert(rhs == (cfg.min_count as int) * (PROB_SCALE as int));
            assert(kept_by_count(p, t.total_samples, *cfg) == (lhs > rhs));
        }
        if lhs > rhs {
            let ghost prev = probabilities@.map_values(|e: (String, u64)| (e.0@, e.1));
            probabilities.push((str_copy(t.probabilities[i].0.as_str()), p));
            proof {
                reveal(Seq::filter);
                assert(kept_by_count(post.last().1, t.total_samples, *cfg));
                assert(count_filtered(post, t.total_samples, *cfg) == count_filtered(
                    pre,
                    t.total_samples,
                    *cfg,
                ).push(post.last()));
                assert(probabilities@.map_values(|e: (String, u64)| (e.0@, e.1)) =~= prev.push(
                    post.last(),
                ));
            }
        } else {
            proof {
                reveal(Seq::filter);
                assert(!kept_by_count(post.last().1, t.total_samples, *cfg));
                assert(count_filtered(post, t.total_samples, *cfg) == count_filtered(
                    pre,
                    t.total_samples,
                    *cfg,
                ));
            }
        }
        i += 1;
    }
    proof {
        assert(t.probs().take(n as int) =~= t.probs());
    }
    GramTable { total_samples: t.total_samples, probabilities }
}

impl NGram {
    /// Removes, from every order and label, each gram whose reconstructed
    /// occurrence count (probability times sample total, nudged by the
    /// adjust amount) is at most `min_count`.  A single hard pass with no
    /// accuracy feedback.
    pub fn prune_count(&self, config: &PruneCountConfig) -> (r: Vec<LabelTables>)
        requires
            self.wf(),
        ensures
            maps_wf(r@),
            r@.len() == self.ngram_maps@.len(),
            forall|o: int|
                0 <= o < r@.len() ==> order_count_filtered(self.ngram_maps@[o], #[trigger] r@[o], *config),
    {
        let mut ret_vec: Vec<LabelTables> = Vec::new();
        let no = self.ngram_maps.len();
        let mut o: usize = 0;
        while o < no
            invariant
                0 <= o <= no,
                no == self.ngram_maps@.len(),
                self.wf(),
                ret_vec@.len() == o,
                forall|o2: int|
                    0 <= o2 < o ==> order_count_filtered(self.ngram_maps@[o2], #[trigger] ret_vec@[o2], *config),
                forall|o2: int| 0 <= o2 < o ==> (#[trigger] ret_vec@[o2]).wf(),
            decreases no - o,
        {
            let src_map = &self.ngram_maps[o];
            let mut entries: Vec<(String, GramTable)> = Vec::new();
            let ne = src_map.entries.len();
            let mut k: usize = 0;
            while k < ne
                invariant
                    0 <= k <= ne,
                    0 <= o < no,
                    no == self.ngram_maps@.len(),
                    self.wf(),
                    src_map == &self.ngram_maps[o as int],
                    ne == src_map.entries@.len(),
                    entries@.len() == k,
                    forall|j: int|
                        0 <= j < k ==> (#[trigger] entries@[j]).0@ == src_map.tables()[j].0
                            && entries@[j].1.total_samples == src_map.tables()[j].1.total_samples
                            && entries@[j].1.probs() == count_filtered(
                            src_map.tables()[j].1.probs(),
                            src_map.tables()[j].1.total_samples,
                            *config,
                        ),
                decreases ne - k,
            {
                proof {
                    assert(src_map.tables()[k as int] == (src_map.entries@[k as int].0@, src_map.entries@[k as int].1));
                }
                let filtered = filter_table(&src_map.entries[k].1, config);
                entries.push((str_copy(src_map.entries[k].0.as_str()), filtered));
                k += 1;
            }
            let lt = LabelTables { entries };
            proof {
                assert(forall|j: int|
                    0 <= j < ne ==> (#[trigger] lt.tables()[j]) == (lt.entries@[j].0@, lt.entries@[j].1));
                assert(order_count_filtered(self.ngram_maps@[o as int], lt, *config));
                assert(lt.wf()) by {
                    assert(self.ngram_maps@[o as int].wf());
                    assert forall|i: int, j: int|
                        0 <= i < j < lt.tables().len() implies (#[trigger] lt.tables()[i]).0 != (
                    #[trigger] lt.tables()[j]).0 by {
                        assert(src_map.tables()[i].0 == lt.tables()[i].0);
                        assert(src_map.tables()[j].0 == lt.tables()[j].0);
                    }
                    assert forall|i: int| 0 <= i < lt.tables().len() implies (
                    #[trigger] lt.tables()[i]).1.wf() by {
                        assert(src_map.tables()[i].1.wf());
                        let probs = lt.tables()[i].1.probs();
                        let oldp = src_map.tables()[i].1.probs();
                        lemma_filter_sub(oldp, probs);
                    }
                }
            }
            ret_vec.push(lt);
            o += 1;
        }
        ret_vec
    }
}

/// A filtered probability list keeps distinct keys distinct and bounded
/// values bounded.
proof fn lemma_filter_sub(oldp: Seq<(Seq<char>, u64)>, probs: Seq<(Seq<char>, u64)>)
    requires
        exists|keep: spec_fn((Seq<char>, u64)) -> bool| probs == #[trigger] oldp.filter(keep),
    ensures
        forall|j: int| 0 <= j < probs.len() ==> oldp.contains(#[trigger] probs[j]),
        crate::model::assoc_distinct(oldp) ==> crate::model::assoc_distinct(probs),
        (forall|j: int| 0 <= j < oldp.len() ==> (#[trigger] oldp[j]).1 <= PROB_MAX) ==> forall|
            j: int,
        |
            0 <= j < probs.len() ==> (#[trigger] probs[j]).1 <= PROB_MAX,
{
    let keep = choose|keep: spec_fn((Seq<char>, u64)) -> bool| probs == #[trigger] oldp.filter(keep);
    lemma_filter_structure(oldp, keep);
}

/// A filter result is a subsequence: every element comes from the source, in
/// order and without duplication of positions.
proof fn lemma_filter_structure(s: Seq<(Seq<char>, u64)>, keep: spec_fn((Seq<char>, u64)) -> bool)
    ensures
        forall|j: int| 0 <= j < s.filter(keep).len() ==> s.contains(#[trigger] s.filter(keep)[j]),
        crate::model::assoc_distinct(s) ==> crate::model::assoc_distinct(s.filter(keep)),
        (forall|j: int| 0 <= j < s.len() ==> (#[trigger] s[j]).1 <= PROB_MAX) ==> forall|j: int|
            0 <= j < s.filter(keep).len() ==> (#[trigger] s.filter(keep)[j]).1 <= PROB_MAX,
    decreases s.len(),
{
    reveal(Seq::filter);
    if s.len() > 0 {
        assert(forall|j: int|
            0 <= j < s.drop_last().len() ==> #[trigger] s.drop_last()[j] == s[j]);
        lemma_filter_structure(s.drop_last(), keep);
        let f = s.filter(keep);
        let fd = s.drop_last().filter(keep);
        assert forall|j: int| 0 <= j < f.len() implies s.contains(#[trigger] f[j]) by {
            if keep(s.last()) {
                assert(f == fd.push(s.last()));
                if j < f.len() - 1 {
                    assert(f[j] == fd[j]);
                    assert(s.drop_last().contains(fd[j]));
                    let w = choose|w: int| 0 <= w < s.drop_last().len() && s.drop_last()[w] == fd[j];
                    assert(s[w] == f[j]);
                } else {
                    assert(f[j] == s.last());
                    assert(s[s.len() - 1] == s.last());
                }
            } else {
                assert(f == fd);
                assert(s.drop_last().contains(fd[j]));
                let w = choose|w: int| 0 <= w < s.drop_last().len() && s.drop_last()[w] == fd[j];
                assert(s[w] == f[j]);
            }
        }
        if crate::model::assoc_distinct(s) {
            assert(crate::model::assoc_distinct(s.drop_last())) by {
                assert(forall|j: int|
                    0 <= j < s.drop_last().len() ==> #[trigger] s.drop_last()[j] == s[j]);
            }
            assert forall|a: int, b: int| 0 <= a < b < f.len() implies (#[trigger] f[a]).0 != (
            #[trigger] f[b]).0 by {
                if keep(s.last()) && b == f.len() - 1 && f == fd.push(s.last()) {
                    assert(f[b] == s.last());
                    assert(fd[a] == f[a]);
                    assert(s.drop_last().contains(fd[a]));
                    let w = choose|w: int|
                        0 <= w < s.drop_last().len() && s.drop_last()[w] == fd[a];
                    assert(s[w] == f[a]);
                    assert(s[s.len() - 1] == s.last());
                    assert(s[w].0 != s[s.len() - 1].0);
                }
            }
        }
    } else {
        assert(s.filter(keep) =~= Seq::<(Seq<char>, u64)>::empty());
    }
}

/// A probability list with the grams below the threshold removed.
pub open spec fn threshold_filtered(probs: crate::model::ProbsV, thr: u64) -> crate::model::ProbsV {
    probs.filter(|e: (Seq<char>, u64)| e.1 >= thr)
}

/// A zero threshold removes nothing.
pub proof fn lemma_threshold_filtered_zero(probs: crate::model::ProbsV)
    ensures
        threshold_filtered(probs, 0) == probs,
    decreases probs.len(),
{
    reveal(Seq::filter);
    if probs.len() == 0 {
        assert(threshold_filtered(probs, 0) =~= probs);
    } else {
        lemma_threshold_filtered_zero(probs.drop_last());
        assert(threshold_filtered(probs, 0) == threshold_filtered(probs.drop_last(), 0).push(
            probs.last(),
        ));
        assert(threshold_filtered(probs, 0) =~= probs);
    }
}

/// Pruning twice prunes once at the larger threshold.
pub proof fn lemma_threshold_filtered_compose(probs: crate::model::ProbsV, t1: u64, t2: u64)
    ensures
        threshold_filtered(threshold_filtered(probs, t1), t2) == threshold_filtered(
            probs,
            if t1 >= t2 {
                t1
            } else {
                t2
            },
        ),
    decreases probs.len(),
{
    reveal(Seq::filter);
    let tm = if t1 >= t2 {
        t1
    } else {
        t2
    };
    if probs.len() == 0 {
        assert(threshold_filtered(probs, t1) =~= probs);
        assert(threshold_filtered(probs, tm) =~= probs);
    } else {
        lemma_threshold_filtered_compose(probs.drop_last(), t1, t2);
        let e = probs.last();
        if e.1 >= t1 {
            assert(threshold_filtered(probs, t1) == threshold_filtered(
                probs.drop_last(),
                t1,
            ).push(e));
            assert(threshold_filtered(probs, t1).drop_last() =~= threshold_filtered(
                probs.drop_last(),
                t1,
            ));
            assert(threshold_filtered(probs, t1).last() == e);
        } else {
            assert(threshold_filtered(probs, t1) == threshold_filtered(probs.drop_last(), t1));
        }
    }
}

/// One table with the probabilities below the threshold removed.
fn prune_table_below(t: &GramTable, thr: u64) -> (r: GramTable)
    ensures
        r.total_samples == t.total_samples,
        r.probs() == threshold_filtered(t.probs(), thr),
{
    let mut probabilities: Vec<(String, u64)> = Vec::new();
    let n = t.probabilities.len();
    let mut i: usize = 0;
    proof {
        reveal(Seq::filter);
        assert(probabilities@.map_values(|e: (String, u64)| (e.0@, e.1))
            =~= Seq::<(Seq<char>, u64)>::empty());
        assert(t.probs().take(0) =~= Seq::<(Seq<char>, u64)>::empty());
        assert(threshold_filtered(t.probs().take(0), thr) =~= Seq::<(Seq<char>, u64)>::empty());
    }
    while i < n
        invariant
            0 <= i <= n,
            n == t.probabilities@.len(),
            probabilities@.map_values(|e: (String, u64)| (e.0@, e.1)) == threshold_filtered(
                t.probs().take(i as int),
                thr,
            ),
        decreases n - i,
    {
        let p = t.probabilities[i].1;
        let ghost pre = t.probs().take(i as int);
        let ghost post = t.probs().take(i + 1);
        proof {
            reveal(Seq::filter);
            assert(post.drop_last() =~= pre);
            assert(post.last() == t.probs()[i as int]);
            assert(t.probs()[i as int] == (t.probabilities@[i as int].0@, p));
        }
        if p >= thr {
            let ghost prev = probabilities@.map_values(|e: (String, u64)| (e.0@, e.1));
            probabilities.push((str_copy(t.probabilities[i].0.as_str()), p));
            proof {
                reveal(Seq::filter);
                assert(threshold_filtered(post, thr) == threshold_filtered(pre, thr).push(
                    post.last(),
                ));
                assert(probabilities@.map_values(|e: (String, u64)| (e.0@, e.1)) =~= prev.push(
                    post.last(),
                ));
            }
        } else {
            proof {
                reveal(Seq::filter);
                assert(threshold_filtered(post, thr) == threshold_filtered(pre, thr));
            }
        }
        i += 1;
    }
    proof {
        assert(t.probs().take(n as int) =~= t.probs());
    }
    GramTable { total_samples: t.total_samples, probabilities }
}

/// Absolute difference of two probabilities.
pub open spec fn absdiff(a: u64, b: u64) -> int {
    if a >= b {
        a - b
    } else {
        b - a
    }
}

/// A gram is "similar" at a deviation threshold when every two labels that
/// hold it assign it probabilities within the threshold of each other; such
/// a gram carries no classification signal.
pub open spec fn similar_in(tables: Seq<(Seq<char>, GramTable)>, g: Seq<char>, dev: u64) -> bool {
    forall|i: int, j: int|
        0 <= i < tables.len() && 0 <= j < tables.len() ==> match (
            (#[trigger] tables[i]).1.prob_of(g),
            (#[trigger] tables[j]).1.prob_of(g),
        ) {
            (Some(pi), Some(pj)) => absdiff(pi, pj) <= dev,
            _ => true,
        }
}

/// A probability list with the similar grams removed.
pub open spec fn similarity_filtered(
    probs: crate::model::ProbsV,
    tables: Seq<(Seq<char>, GramTable)>,
    dev: u64,
) -> crate::model::ProbsV {
    probs.filter(|e: (Seq<char>, u64)| !similar_in(tables, e.0, dev))
}

/// Whether every pair of labels holding `g` gives it probabilities within
/// `dev` of each other.
fn is_similar(lt: &LabelTables, g: &str, dev: u64) -> (r: bool)
    ensures
        r == similar_in(lt.tables(), g@, dev),
{
    let n = lt.entries.len();
    let mut i: usize = 0;
    while i < n
        invariant
            0 <= i <= n,
            n == lt.entries@.len(),
            forall|a: int, b: int|
                0 <= a < i && 0 <= b < n ==> match (
                    (#[trigger] lt.tables()[a]).1.prob_of(g@),
                    (#[trigger] lt.tables()[b]).1.prob_of(g@),
                ) {
                    (Some(pa), Some(pb)) => absdiff(pa, pb) <= dev,
                    _ => true,
                },
        decreases n - i,
    {
        proof {
            assert(lt.tables()[i as int] == (lt.entries@[i as int].0@, lt.entries@[i as int].1));
        }
        let pi = lt.entries[i].1.get_prob(g);
        match pi {
            None => {},
            Some(pa) => {
                let mut j: usize = 0;
                while j < n
                    invariant
                        0 <= j <= n,
                        0 <= i < n,
                        n == lt.entries@.len(),
                        lt.tables()[i as int].1.prob_of(g@) == Some(pa),
                        forall|b: int|
                            0 <= b < j ==> match (#[trigger] lt.tables()[b]).1.prob_of(g@) {
                                Some(pb) => absdiff(pa, pb) <= dev,
                                None => true,
                            },
                    decreases n - j,
                {
                    proof {
                        assert(lt.tables()[j as int] == (lt.entries@[j as int].0@, lt.entries@[j as int].1));
                    }
                    let pj = lt.entries[j].1.get_prob(g);
                    match pj {
                        None => {},
                        Some(pb) => {
                            let d = if pa >= pb {
                                pa - pb
                            } else {
                                pb - pa
                            };
                            if d > dev {
                                return false;
                            }
                        },
                    }
                    j += 1;
                }
            },
        }
        i += 1;
    }
    true
}

impl NGram {
    /// Removes, from every order and label, each gram whose probabilities
    /// are within `max_deviation` of each other across all the labels that
    /// hold it.
    pub fn prune_similarity(&self, max_deviation: &u64) -> (r: Vec<LabelTables>)
        requires
            self.wf(),
        ensures
            maps_wf(r@),
            r@.len() == self.ngram_maps@.len(),
            forall|o: int|
                0 <= o < r@.len() ==> order_similarity_filtered(
                    self.ngram_maps@[o],
                    #[trigger] r@[o],
                    *max_deviation,
                ),
    {
        let mut ret_vec: Vec<LabelTables> = Vec::new();
        let no = self.ngram_maps.len();
        let mut o: usize = 0;
        while o < no
            invariant
                0 <= o <= no,
                no == self.ngram_maps@.len(),
                self.wf(),
                ret_vec@.len() == o,
                forall|o2: int|
                    0 <= o2 < o ==> order_similarity_filtered(
                        self.ngram_maps@[o2],
                        #[trigger] ret_vec@[o2],
                        *max_deviation,
                    ),
                forall|o2: int| 0 <= o2 < o ==> (#[trigger] ret_vec@[o2]).wf(),
            decreases no - o,
        {
            let src_map = &self.ngram_maps[o];
            let mut entries: Vec<(String, GramTable)> = Vec::new();
            let ne = src_map.entries.len();
            let mut k: usize = 0;
            while k < ne
                invariant
                    0 <= k <= ne,
                    0 <= o < no,
                    no == self.ngram_maps@.len(),
                    self.wf(),
                    src_map == &self.ngram_maps[o as int],
                    ne == src_map.entries@.len(),
                    entries@.len() == k,
                    forall|j: int|
                        0 <= j < k ==> (#[trigger] entries@[j]).0@ == src_map.tables()[j].0
                            && entries@[j].1.total_samples == src_map.tables()[j].1.total_samples
                            && entries@[j].1.probs() == similarity_filtered(
                            src_map.tables()[j].1.probs(),
                            src_map.tables(),
                            *max_deviation,
                        ),
                decreases ne - k,
            {
                proof {
                    assert(src_map.tables()[k as int] == (src_map.entries@[k as int].0@, src_map.entries@[k as int].1));
                }
                let t = &src_map.entries[k].1;
                let mut probabilities: Vec<(String, u64)> = Vec::new();
                let np = t.probabilities.len();
                let mut i: usize = 0;
                proof {
                    reveal(Seq::filter);
                    assert(probabilities@.map_values(|e: (String, u64)| (e.0@, e.1))
                        =~= Seq::<(Seq<char>, u64)>::empty());
                    assert(t.probs().take(0) =~= Seq::<(Seq<char>, u64)>::empty());
                    assert(similarity_filtered(t.probs().take(0), src_map.tables(), *max_deviation)
                        =~= Seq::<(Seq<char>, u64)>::empty());
                }
                while i < np
                    invariant
                        0 <= i <= np,
                        0 <= k < ne,
                        ne == src_map.entries@.len(),
                        t == &src_map.entries[k as int].1,
                        np == t.probabilities@.len(),
                        probabilities@.map_values(|e: (String, u64)| (e.0@, e.1))
                            == similarity_filtered(
                            t.probs().take(i as int),
                            src_map.tables(),
                            *max_deviation,
                        ),
                    decreases np - i,
                {
                    let ghost pre = t.probs().take(i as int);
                    let ghost post = t.probs().take(i + 1);
                    proof {
                        reveal(Seq::filter);
                        assert(post.drop_last() =~= pre);
                        assert(post.last() == t.probs()[i as int]);
                        assert(t.probs()[i as int] == (t.probabilities@[i as int].0@, t.probabilities@[i as int].1));
                    }
                    let sim = is_similar(src_map, t.probabilities[i].0.as_str(), *max_deviation);
                    if !sim {
                        let ghost prev = probabilities@.map_values(|e: (String, u64)| (e.0@, e.1));
                        probabilities.push(
                            (str_copy(t.probabilities[i].0.as_str()), t.probabilities[i].1),
                        );
                        proof {
                            reveal(Seq::filter);
                            assert(similarity_filtered(post, src_map.tables(), *max_deviation)
                                == similarity_filtered(pre, src_map.tables(), *max_deviation).push(
                                post.last(),
                            ));
                            assert(probabilities@.map_values(|e: (String, u64)| (e.0@, e.1))
                                =~= prev.push(post.last()));
                        }
                    } else {
                        proof {
                            reveal(Seq::filter);
                            assert(similarity_filtered(post, src_map.tables(), *max_deviation)
                                == similarity_filtered(pre, src_map.tables(), *max_deviation));
                        }
                    }
                    i += 1;
                }
                proof {
                    assert(t.probs().take(np as int) =~= t.probs());
                }
                let filtered = GramTable {
                    total_samples: t.total_samples,
                    probabilities,
                };
                entries.push((str_copy(src_map.entries[k].0.as_str()), filtered));
                k += 1;
            }
            let lt = LabelTables { entries };
            proof {
                assert(forall|j: int|
                    0 <= j < ne ==> (#[trigger] lt.tables()[j]) == (lt.entries@[j].0@, lt.entries@[j].1));
                assert(order_similarity_filtered(self.ngram_maps@[o as int], lt, *max_deviation));
                assert(lt.wf()) by {
                    assert(self.ngram_maps@[o as int].wf());
                    assert forall|a: int, b: int|
                        0 <= a < b < lt.tables().len() implies (#[trigger] lt.tables()[a]).0 != (
                    #[trigger] lt.tables()[b]).0 by {
                        assert(src_map.tables()[a].0 == lt.tables()[a].0);
                        assert(src_map.tables()[b].0 == lt.tables()[b].0);
                    }
                    assert forall|a: int| 0 <= a < lt.tables().len() implies (
                    #[trigger] lt.tables()[a]).1.wf() by {
                        assert(src_map.tables()[a].1.wf());
                        let probs = lt.tables()[a].1.probs();
                        let oldp = src_map.tables()[a].1.probs();
                        assert(probs == oldp.filter(
                            |e: (Seq<char>, u64)| !similar_in(
                                src_map.tables(),
                                e.0,
                                *max_deviation,
                            ),
                        ));
                        lemma_filter_sub(oldp, probs);
                    }
                }
            }
            ret_vec.push(lt);
            o += 1;
        }
        ret_vec
    }
}

/// One order's tables after similarity pruning.
pub open spec fn order_similarity_filtered(a: LabelTables, b: LabelTables, dev: u64) -> bool {
    &&& b.tables().len() == a.tables().len()
    &&& forall|i: int|
        0 <= i < a.tables().len() ==> (#[trigger] b.tables()[i]).0 == (#[trigger] a.tables()[i]).0
            && b.tables()[i].1.total_samples == a.tables()[i].1.total_samples
            && b.tables()[i].1.probs() == similarity_filtered(
            a.tables()[i].1.probs(),
            a.tables(),
            dev,
        )
}

/// A copy of every order's tables.
pub fn maps_clone(maps: &Vec<LabelTables>) -> (r: Vec<LabelTables>)
    requires
        maps_wf(maps@),
    ensures
        maps_wf(r@),
        model_view(r@) == model_view(maps@),
        r@.len() == maps@.len(),
        forall|o: int| 0 <= o < maps@.len() ==> tables_equiv(maps@[o], #[trigger] r@[o]),
{
    let mut out: Vec<LabelTables> = Vec::new();
    let n = maps.len();
    let mut i: usize = 0;
    while i < n
        invariant
            0 <= i <= n,
            n == maps@.len(),
            maps_wf(maps@),
            out@.len() == i,
            forall|j: int| 0 <= j < i ==> (#[trigger] out@[j]).wf(),
            forall|j: int| 0 <= j < i ==> (#[trigger] out@[j]).view_of() == maps@[j].view_of(),
            forall|j: int| 0 <= j < i ==> tables_equiv(maps@[j], #[trigger] out@[j]),
        decreases n - i,
    {
        let c = tables_clone(&maps[i]);
        proof {
            assert(maps@[i as int].wf());
            crate::train::lemma_equiv_view(maps@[i as int], c);
            crate::train::lemma_equiv_wf(maps@[i as int], c);
        }
        out.push(c);
        i += 1;
    }
    proof {
        assert(model_view(out@) =~= model_view(maps@));
    }
    out
}

/// The baseline accuracy a pruning pass defends: the given one, or the
/// model's own accuracy when none is given.
pub open spec fn baseline_of(o: Option<u64>, maps: Seq<LabelTables>, inputs: Seq<InputTup>) -> int {
    match o {
        Some(a) => a as int,
        None => accuracy_of(model_view(maps), inputs),
    }
}

/// Most passes an accuracy-guarded walk will attempt before giving up.
pub const MAX_PRUNE_PASSES: u64 = 1000;

fn mul_step(t: u64, m: u64) -> (r: u64) {
    proof {
        assert((t as int) * (m as int) <= u128::MAX) by (nonlinear_arith)
            requires
                t <= u64::MAX,
                m <= u64::MAX,
        ;
    }
    let wide: u128 = (t as u128) * (m as u128) / (PROB_SCALE as u128);
    if wide > u64::MAX as u128 {
        u64::MAX
    } else {
        wide as u64
    }
}

fn div_step(t: u64, m: u64) -> (r: u64) {
    if m == 0 {
        t
    } else {
        proof {
            assert((t as int) * (PROB_SCALE as int) <= u128::MAX) by (nonlinear_arith)
                requires
                    t <= u64::MAX,
                    PROB_SCALE == 1_000_000_000,
            ;
        }
        let wide: u128 = (t as u128) * (PROB_SCALE as u128) / (m as u128);
        if wide > u64::MAX as u128 {
            u64::MAX
        } else {
            wide as u64
        }
    }
}

impl NGram {
    /// Probability-threshold pruning: repeatedly removes all grams below a
    /// growing threshold, keeping each pass only while the measured accuracy
    /// stays within `max_accuracy_reduction` of the baseline.  The result is
    /// always a threshold-pruned image of the model; either nothing was
    /// committed — the model comes back unchanged at the baseline accuracy,
    /// and then pruning at the starting threshold already broke the floor —
    /// or the result respects the floor and comes back with its own
    /// measured accuracy.
    pub fn prune_probability(
        &self,
        input: &Vec<InputTup>,
        o_initial_accuracy: &Option<u64>,
        config: &PruneProbabilityConfig,
    ) -> (r: (u64, Vec<LabelTables>))
        requires
            self.wf(),
            input@.len() > 0,
        ensures
            maps_wf(r.1@),
            exists|thr: u64| #[trigger] maps_threshold_filtered(self.ngram_maps@, r.1@, thr),
            (model_view(r.1@) == model_view(self.ngram_maps@) && r.0 as int == baseline_of(
                *o_initial_accuracy,
                self.ngram_maps@,
                input@,
            ) && accuracy_of(
                view_threshold_filtered(
                    model_view(self.ngram_maps@),
                    config.starting_probability,
                ),
                input@,
            ) + config.max_accuracy_reduction < baseline_of(
                *o_initial_accuracy,
                self.ngram_maps@,
                input@,
            )) || (accuracy_of(model_view(r.1@), input@) + config.max_accuracy_reduction
                >= baseline_of(*o_initial_accuracy, self.ngram_maps@, input@) && r.0 as int
                == accuracy_of(model_view(r.1@), input@)),
    {
        let initial_accuracy: u64 = match o_initial_accuracy {
            Some(a) => *a,
            None => NGram::validate(&self.ngram_maps, input),
        };
        let ghost baseline = baseline_of(*o_initial_accuracy, self.ngram_maps@, input@);
        proof {
            assert(initial_accuracy as int == baseline);
        }
        let mut min_prob = config.starting_probability;
        let mut current_accuracy: u64 = initial_accuracy;
        let mut last_accuracy: u64;
        let mut ret_maps = maps_clone(&self.ngram_maps);
        let mut committed = false;
        let mut fuel: u64 = MAX_PRUNE_PASSES;
        proof {
            lemma_maps_tf_zero(self.ngram_maps@, ret_maps@);
        }
        while fuel > 0
            invariant
                self.wf(),
                input@.len() > 0,
                maps_wf(ret_maps@),
                baseline == baseline_of(*o_initial_accuracy, self.ngram_maps@, input@),
                initial_accuracy as int == baseline,
                exists|thr: u64| #[trigger] maps_threshold_filtered(
                    self.ngram_maps@,
                    ret_maps@,
                    thr,
                ),
                fuel == MAX_PRUNE_PASSES || committed,
                !committed ==> model_view(ret_maps@) == model_view(self.ngram_maps@)
                    && current_accuracy == initial_accuracy && min_prob
                    == config.starting_probability && maps_threshold_filtered(
                    self.ngram_maps@,
                    ret_maps@,
                    0,
                ),
                committed ==> current_accuracy as int == accuracy_of(model_view(ret_maps@), input@)
                    && current_accuracy + config.max_accuracy_reduction >= baseline,
            decreases fuel,
        {
            fuel -= 1;
            // prune everything below the current threshold
            let tmp_maps = prune_maps_below(&ret_maps, min_prob);
            proof {
                let thr0 = choose|thr: u64|
                    #[trigger] maps_threshold_filtered(self.ngram_maps@, ret_maps@, thr);
                assert(maps_threshold_filtered(ret_maps@, tmp_maps@, min_prob));
                lemma_maps_tf_compose(self.ngram_maps@, ret_maps@, tmp_maps@, thr0, min_prob);
            }
            last_accuracy = current_accuracy;
            let acc = NGram::validate(&tmp_maps, input);
            current_accuracy = acc;
            if (acc as u128) + (config.max_accuracy_reduction as u128) >= (initial_accuracy
                as u128) {
                ret_maps = tmp_maps;
                committed = true;
                min_prob = mul_step(min_prob, config.probability_multiplyer);
            } else {
                proof {
                    if !committed {
                        // the very first probe, at the starting threshold,
                        // broke the floor
                        lemma_maps_tf_compose(
                            self.ngram_maps@,
                            ret_maps@,
                            tmp_maps@,
                            0,
                            min_prob,
                        );
                        lemma_maps_tf_view(self.ngram_maps@, tmp_maps@, min_prob);
                        assert(model_view(tmp_maps@) == view_threshold_filtered(
                            model_view(self.ngram_maps@),
                            config.starting_probability,
                        ));
                    }
                }
                return (last_accuracy, ret_maps);
            }
        }
        (current_accuracy, ret_maps)
    }

    /// Similarity pruning with a two-phase threshold walk: while the
    /// accuracy floor has never been met the deviation threshold shrinks;
    /// once met, each accepted pass grows it, and the first rejection after
    /// that ends the walk.  Either the model comes back unchanged at the
    /// baseline accuracy, or it is the similarity pruning of the model at
    /// some probed deviation, respecting the floor, returned with its own
    /// measured accuracy.
    pub fn prune_similarity_loop(
        &self,
        input: &Vec<InputTup>,
        o_initial_accuracy: &Option<u64>,
        config: &PruneSimilarityConfig,
    ) -> (r: (u64, Vec<LabelTables>))
        requires
            self.wf(),
            input@.len() > 0,
        ensures
            maps_wf(r.1@),
            (model_view(r.1@) == model_view(self.ngram_maps@) && r.0 as int == baseline_of(
                *o_initial_accuracy,
                self.ngram_maps@,
                input@,
            ) && (forall|cand: Seq<LabelTables>|
                #[trigger] maps_similarity_filtered(
                    self.ngram_maps@,
                    cand,
                    config.starting_deviation,
                ) ==> accuracy_of(model_view(cand), input@) + config.max_accuracy_reduction
                    < baseline_of(*o_initial_accuracy, self.ngram_maps@, input@))) || (exists|
                dev: u64,
            | #[trigger] maps_similarity_filtered(
                self.ngram_maps@,
                r.1@,
                dev,
            ) && accuracy_of(model_view(r.1@), input@) + config.max_accuracy_reduction
                >= baseline_of(*o_initial_accuracy, self.ngram_maps@, input@) && r.0 as int
                == accuracy_of(model_view(r.1@), input@)),
    {
        let initial_accuracy: u64 = match o_initial_accuracy {
            Some(a) => *a,
            None => NGram::validate(&self.ngram_maps, input),
        };
        let ghost baseline = baseline_of(*o_initial_accuracy, self.ngram_maps@, input@);
        let mut max_deviation = config.starting_deviation;
        let mut ret_accuracy: u64 = initial_accuracy;
        let mut ret_maps = maps_clone(&self.ngram_maps);
        let mut committed = false;
        let mut found_low = false;
        let mut fuel: u64 = MAX_PRUNE_PASSES;
        while fuel > 0
            invariant
                self.wf(),
                input@.len() > 0,
                maps_wf(ret_maps@),
                baseline == baseline_of(*o_initial_accuracy, self.ngram_maps@, input@),
                initial_accuracy as int == baseline,
                fuel <= MAX_PRUNE_PASSES,
                fuel == MAX_PRUNE_PASSES ==> !committed && max_deviation
                    == config.starting_deviation,
                found_low ==> committed,
                !committed && fuel < MAX_PRUNE_PASSES ==> forall|cand: Seq<LabelTables>|
                    #[trigger] maps_similarity_filtered(
                        self.ngram_maps@,
                        cand,
                        config.starting_deviation,
                    ) ==> accuracy_of(model_view(cand), input@) + config.max_accuracy_reduction
                        < baseline,
                !committed ==> model_view(ret_maps@) == model_view(self.ngram_maps@)
                    && ret_accuracy == initial_accuracy,
                committed ==> (exists|dev: u64| #[trigger] maps_similarity_filtered(
                    self.ngram_maps@,
                    ret_maps@,
                    dev,
                )) && ret_accuracy as int == accuracy_of(model_view(ret_maps@), input@)
                    && ret_accuracy + config.max_accuracy_reduction >= baseline,
            decreases fuel,
        {
            let ghost first_pass = fuel == MAX_PRUNE_PASSES;
            fuel -= 1;
            let tmp_maps = self.prune_similarity(&max_deviation);
            let acc = NGram::validate(&tmp_maps, input);
            let meets = (acc as u128) + (config.max_accuracy_reduction as u128) >= (
            initial_accuracy as u128);
            proof {
                if first_pass && !meets {
                    // the first probe, at the starting deviation, broke the
                    // floor; every pruning at that deviation has this view
                    assert(maps_similarity_filtered(
                        self.ngram_maps@,
                        tmp_maps@,
                        config.starting_deviation,
                    ));
                    assert forall|cand: Seq<LabelTables>|
                        #[trigger] maps_similarity_filtered(
                            self.ngram_maps@,
                            cand,
                            config.starting_deviation,
                        ) implies accuracy_of(model_view(cand), input@)
                        + config.max_accuracy_reduction < baseline by {
                        lemma_similarity_filter_deterministic(
                            self.ngram_maps@,
                            cand,
                            tmp_maps@,
                            config.starting_deviation,
                        );
                    }
                }
            }
            if !meets && !found_low {
                // still searching for a workable deviation
                max_deviation = div_step(max_deviation, config.probability_multiplyer);
                continue ;
            }
            if meets && !found_low {
                found_low = true;
            }
            if meets {
                let ghost dev_now = max_deviation;
                ret_maps = tmp_maps;
                ret_accuracy = acc;
                committed = true;
                proof {
                    assert(maps_similarity_filtered(self.ngram_maps@, ret_maps@, dev_now));
                }
                max_deviation = mul_step(max_deviation, config.probability_multiplyer);
            } else {
                return (ret_accuracy, ret_maps);
            }
        }
        (ret_accuracy, ret_maps)
    }
}

/// One order's tables after threshold pruning.
pub open spec fn order_threshold_filtered(a: LabelTables, b: LabelTables, thr: u64) -> bool {
    &&& b.tables().len() == a.tables().len()
    &&& forall|i: int|
        0 <= i < a.tables().len() ==> (#[trigger] b.tables()[i]).0 == (#[trigger] a.tables()[i]).0
            && b.tables()[i].1.total_samples == a.tables()[i].1.total_samples
            && b.tables()[i].1.probs() == threshold_filtered(a.tables()[i].1.probs(), thr)
}

/// A whole model after threshold pruning: the same orders, labels and
/// totals, each probability list filtered at the threshold.
pub open spec fn maps_threshold_filtered(a: Seq<LabelTables>, b: Seq<LabelTables>, thr: u64) -> bool {
    &&& b.len() == a.len()
    &&& forall|o: int| 0 <= o < a.len() ==> order_threshold_filtered(a[o], #[trigger] b[o], thr)
}

/// The mathematical view of a threshold-pruned model.
pub open spec fn view_threshold_filtered(m: crate::model::ModelV, thr: u64) -> crate::model::ModelV {
    m.map_values(
        |ov: crate::model::OrderV|
            ov.map_values(
                |e: (Seq<char>, crate::model::TableV)| (e.0, (e.1.0, threshold_filtered(e.1.1, thr))),
            ),
    )
}

/// Equivalent tables are each other's zero-threshold pruning.
pub proof fn lemma_maps_tf_zero(a: Seq<LabelTables>, b: Seq<LabelTables>)
    requires
        b.len() == a.len(),
        forall|o: int| 0 <= o < a.len() ==> tables_equiv(a[o], #[trigger] b[o]),
    ensures
        maps_threshold_filtered(a, b, 0),
{
    assert forall|o: int| 0 <= o < a.len() implies order_threshold_filtered(
        a[o],
        #[trigger] b[o],
        0,
    ) by {
        assert forall|i: int|
            0 <= i < a[o].tables().len() implies (#[trigger] b[o].tables()[i]).0 == (
        #[trigger] a[o].tables()[i]).0 && b[o].tables()[i].1.total_samples
            == a[o].tables()[i].1.total_samples && b[o].tables()[i].1.probs()
            == threshold_filtered(a[o].tables()[i].1.probs(), 0) by {
            lemma_threshold_filtered_zero(a[o].tables()[i].1.probs());
        }
    }
}

/// Threshold prunings compose into one at the larger threshold.
pub proof fn lemma_maps_tf_compose(
    a: Seq<LabelTables>,
    b: Seq<LabelTables>,
    c: Seq<LabelTables>,
    t1: u64,
    t2: u64,
)
    requires
        maps_threshold_filtered(a, b, t1),
        maps_threshold_filtered(b, c, t2),
    ensures
        maps_threshold_filtered(a, c, if t1 >= t2 {
            t1
        } else {
            t2
        }),
{
    let tm = if t1 >= t2 {
        t1
    } else {
        t2
    };
    assert forall|o: int| 0 <= o < a.len() implies order_threshold_filtered(
        a[o],
        #[trigger] c[o],
        tm,
    ) by {
        assert(order_threshold_filtered(a[o], b[o], t1));
        assert(order_threshold_filtered(b[o], c[o], t2));
        assert forall|i: int|
            0 <= i < a[o].tables().len() implies (#[trigger] c[o].tables()[i]).0 == (
        #[trigger] a[o].tables()[i]).0 && c[o].tables()[i].1.total_samples
            == a[o].tables()[i].1.total_samples && c[o].tables()[i].1.probs()
            == threshold_filtered(a[o].tables()[i].1.probs(), tm) by {
            assert((#[trigger] b[o].tables()[i]).1.probs() == threshold_filtered(
                a[o].tables()[i].1.probs(),
                t1,
            ));
            assert(c[o].tables()[i].1.probs() == threshold_filtered(
                b[o].tables()[i].1.probs(),
                t2,
            ));
            lemma_threshold_filtered_compose(a[o].tables()[i].1.probs(), t1, t2);
        }
    }
}

/// A threshold-pruned model's view is the pruned view.
pub proof fn lemma_maps_tf_view(a: Seq<LabelTables>, b: Seq<LabelTables>, thr: u64)
    requires
        maps_threshold_filtered(a, b, thr),
    ensures
        model_view(b) == view_threshold_filtered(model_view(a), thr),
{
    assert forall|o: int| 0 <= o < b.len() implies #[trigger] model_view(b)[o]
        == view_threshold_filtered(model_view(a), thr)[o] by {
        assert(order_threshold_filtered(a[o], b[o], thr));
        assert forall|i: int|
            0 <= i < b[o].view_of().len() implies #[trigger] b[o].view_of()[i]
            == view_threshold_filtered(model_view(a), thr)[o][i] by {
            assert(b[o].view_of()[i] == (b[o].tables()[i].0, (b[o].tables()[i].1.total_samples, b[o].tables()[i].1.probs())));
            assert(a[o].view_of()[i] == (a[o].tables()[i].0, (a[o].tables()[i].1.total_samples, a[o].tables()[i].1.probs())));
            assert(model_view(a)[o] == a[o].view_of());
        }
        assert(model_view(b)[o] =~= view_threshold_filtered(model_view(a), thr)[o]);
    }
    assert(model_view(b) =~= view_threshold_filtered(model_view(a), thr));
}

/// A whole model after similarity pruning at one deviation threshold.
pub open spec fn maps_similarity_filtered(a: Seq<LabelTables>, b: Seq<LabelTables>, dev: u64) -> bool {
    &&& b.len() == a.len()
    &&& forall|o: int| 0 <= o < a.len() ==> order_similarity_filtered(a[o], #[trigger] b[o], dev)
}

/// Similarity pruning is deterministic: any two prunings of the same model
/// at the same deviation have the same mathematical view.
pub proof fn lemma_similarity_filter_deterministic(
    a: Seq<LabelTables>,
    b1: Seq<LabelTables>,
    b2: Seq<LabelTables>,
    dev: u64,
)
    requires
        maps_similarity_filtered(a, b1, dev),
        maps_similarity_filtered(a, b2, dev),
    ensures
        model_view(b1) == model_view(b2),
{
    assert forall|o: int| 0 <= o < b1.len() implies #[trigger] model_view(b1)[o] == model_view(
        b2,
    )[o] by {
        assert(order_similarity_filtered(a[o], b1[o], dev));
        assert(order_similarity_filtered(a[o], b2[o], dev));
        assert forall|i: int|
            0 <= i < b1[o].view_of().len() implies #[trigger] b1[o].view_of()[i]
            == b2[o].view_of()[i] by {
            assert((#[trigger] b1[o].tables()[i]).0 == a[o].tables()[i].0);
            assert((#[trigger] b2[o].tables()[i]).0 == a[o].tables()[i].0);
            assert(b1[o].view_of()[i] == (b1[o].tables()[i].0, (b1[o].tables()[i].1.total_samples, b1[o].tables()[i].1.probs())));
            assert(b2[o].view_of()[i] == (b2[o].tables()[i].0, (b2[o].tables()[i].1.total_samples, b2[o].tables()[i].1.probs())));
        }
        assert(model_view(b1)[o] =~= model_view(b2)[o]);
    }
    assert(model_view(b1) =~= model_view(b2));
}

/// Every order's tables with the probabilities below the threshold removed.
fn prune_maps_below(maps: &Vec<LabelTables>, thr: u64) -> (r: Vec<LabelTables>)
    requires
        maps_wf(maps@),
    ensures
        maps_wf(r@),
        r@.len() == maps@.len(),
        forall|o: int|
            0 <= o < r@.len() ==> order_threshold_filtered(maps@[o], #[trigger] r@[o], thr),
    {
    let mut ret_vec: Vec<LabelTables> = Vec::new();
    let no = maps.len();
    let mut o: usize = 0;
    while o < no
        invariant
            0 <= o <= no,
            no == maps@.len(),
            maps_wf(maps@),
            ret_vec@.len() == o,
            forall|o2: int| 0 <= o2 < o ==> (#[trigger] ret_vec@[o2]).wf(),
            forall|o2: int|
                0 <= o2 < o ==> order_threshold_filtered(maps@[o2], #[trigger] ret_vec@[o2], thr),
        decreases no - o,
    {
        let src_map = &maps[o];
        let mut entries: Vec<(String, GramTable)> = Vec::new();
        let ne = src_map.entries.len();
        let mut k: usize = 0;
        while k < ne
            invariant
                0 <= k <= ne,
                0 <= o < no,
                no == maps@.len(),
                maps_wf(maps@),
                src_map == &maps[o as int],
                ne == src_map.entries@.len(),
                entries@.len() == k,
                forall|j: int|
                    0 <= j < k ==> (#[trigger] entries@[j]).0@ == src_map.tables()[j].0
                        && entries@[j].1.total_samples == src_map.tables()[j].1.total_samples
                        && entries@[j].1.probs() == threshold_filtered(
                        src_map.tables()[j].1.probs(),
                        thr,
                    ),
            decreases ne - k,
        {
            proof {
                assert(src_map.tables()[k as int] == (src_map.entries@[k as int].0@, src_map.entries@[k as int].1));
            }
            let filtered = prune_table_below(&src_map.entries[k].1, thr);
            entries.push((str_copy(src_map.entries[k].0.as_str()), filtered));
            k += 1;
        }
        let lt = LabelTables { entries };
        proof {
            assert(forall|j: int|
                0 <= j < ne ==> (#[trigger] lt.tables()[j]) == (lt.entries@[j].0@, lt.entries@[j].1));
            assert(order_threshold_filtered(maps@[o as int], lt, thr));
            assert(lt.wf()) by {
                assert(maps@[o as int].wf());
                assert forall|a: int, b: int|
                    0 <= a < b < lt.tables().len() implies (#[trigger] lt.tables()[a]).0 != (
                #[trigger] lt.tables()[b]).0 by {
                    assert(src_map.tables()[a].0 == lt.tables()[a].0);
                    assert(src_map.tables()[b].0 == lt.tables()[b].0);
                }
                assert forall|a: int| 0 <= a < lt.tables().len() implies (
                #[trigger] lt.tables()[a]).1.wf() by {
                    assert(src_map.tables()[a].1.wf());
                    let probs = lt.tables()[a].1.probs();
                    let oldp = src_map.tables()[a].1.probs();
                    assert(probs == oldp.filter(|e: (Seq<char>, u64)| e.1 >= thr));
                    lemma_filter_sub(oldp, probs);
                }
            }
        }
        ret_vec.push(lt);
        o += 1;
    }
    ret_vec
}

/// Rebinding an existing key changes no key and no other value.
proof fn lemma_assoc_set_pointwise(s: Seq<(Seq<char>, u64)>, k: Seq<char>, v: u64)
    requires
        crate::model::assoc_distinct(s),
        assoc_find(s, k) is Some,
    ensures
        assoc_set(s, k, v).len() == s.len(),
        forall|j: int| 0 <= j < s.len() ==> (#[trigger] assoc_set(s, k, v)[j]).0 == s[j].0,
        forall|j: int|
            0 <= j < s.len() && (#[trigger] s[j]).0 != k ==> assoc_set(s, k, v)[j].1 == s[j].1,
        forall|j: int|
            0 <= j < s.len() && (#[trigger] s[j]).0 == k ==> assoc_set(s, k, v)[j].1 == v,
    decreases s.len(),
{
    let u = assoc_set(s, k, v);
    if s.len() > 0 {
        if s[0].0 == k {
            assert(u =~= seq![(k, v)] + s.drop_first());
            assert forall|j: int| 0 <= j < s.len() && (#[trigger] s[j]).0 == k implies u[j].1
                == v by {
                if j > 0 {
                    assert(s[j].0 != s[0].0);
                }
            }
        } else {
            assert(crate::model::assoc_distinct(s.drop_first())) by {
                assert(forall|i: int|
                    0 <= i < s.drop_first().len() ==> #[trigger] s.drop_first()[i] == s[i + 1]);
            }
            lemma_assoc_set_pointwise(s.drop_first(), k, v);
            assert(u =~= seq![s[0]] + assoc_set(s.drop_first(), k, v));
            assert(forall|j: int|
                1 <= j < u.len() ==> #[trigger] u[j] == assoc_set(s.drop_first(), k, v)[j - 1]);
        }
    }
}

/// Relies on `rand::Rng::gen_range`: a uniformly random index below `len`.
#[verifier::external_body]
fn random_index(len: usize) -> (r: usize)
    requires
        len > 0,
    ensures
        r < len,
{
    rand::Rng::gen_range(&mut rand::thread_rng(), 0..len)
}

/// Relies on `rand::Rng::gen`: a random coin flip; nothing is promised of
/// the outcome.
#[verifier::external_body]
fn random_flip() -> (r: bool) {
    rand::Rng::gen::<bool>(&mut rand::thread_rng())
}

/// One saturating step up, capped at the largest representable probability.
pub open spec fn step_up_of(p: u64, s: u64) -> u64 {
    if p + s > PROB_MAX {
        PROB_MAX
    } else {
        (p + s) as u64
    }
}

/// One saturating step down, floored at zero.
pub open spec fn step_down_of(p: u64, s: u64) -> u64 {
    if s > p {
        0u64
    } else {
        (p - s) as u64
    }
}

/// The probability of gram `g` after the whole sequence of draws: each draw
/// of `g` moves the running value one saturating step, up on a true sign and
/// down on a false one; draws of other words leave it alone.
pub open spec fn apply_steps(
    p: u64,
    g: Seq<char>,
    picked: Seq<Seq<char>>,
    signs: Seq<bool>,
    s: u64,
) -> u64
    decreases picked.len(),
{
    if picked.len() == 0 {
        p
    } else {
        let p2 = if picked[0] == g {
            if signs[0] {
                step_up_of(p, s)
            } else {
                step_down_of(p, s)
            }
        } else {
            p
        };
        apply_steps(p2, g, picked.drop_first(), signs.drop_first(), s)
    }
}

/// One more draw steps the value the fold has reached so far.
proof fn lemma_apply_steps_snoc(
    p: u64,
    g: Seq<char>,
    picked: Seq<Seq<char>>,
    signs: Seq<bool>,
    w: Seq<char>,
    b: bool,
    s: u64,
)
    requires
        signs.len() == picked.len(),
    ensures
        apply_steps(p, g, picked.push(w), signs.push(b), s) == {
            let q = apply_steps(p, g, picked, signs, s);
            if w == g {
                if b {
                    step_up_of(q, s)
                } else {
                    step_down_of(q, s)
                }
            } else {
                q
            }
        },
    decreases picked.len(),
{
    let pk = picked.push(w);
    let sg = signs.push(b);
    if picked.len() == 0 {
        assert(pk[0] == w && sg[0] == b);
        assert(pk.drop_first() =~= Seq::<Seq<char>>::empty());
        assert(sg.drop_first() =~= Seq::<bool>::empty());
        let p2 = if pk[0] == g {
            if sg[0] {
                step_up_of(p, s)
            } else {
                step_down_of(p, s)
            }
        } else {
            p
        };
        assert(apply_steps(p, g, pk, sg, s) == apply_steps(p2, g, pk.drop_first(), sg.drop_first(), s));
        assert(apply_steps(p2, g, pk.drop_first(), sg.drop_first(), s) == p2);
        assert(apply_steps(p, g, picked, signs, s) == p);
    } else {
        assert(pk[0] == picked[0] && sg[0] == signs[0]);
        assert(pk.drop_first() =~= picked.drop_first().push(w));
        assert(sg.drop_first() =~= signs.drop_first().push(b));
        let p2 = if picked[0] == g {
            if signs[0] {
                step_up_of(p, s)
            } else {
                step_down_of(p, s)
            }
        } else {
            p
        };
        assert(apply_steps(p, g, pk, sg, s) == apply_steps(p2, g, pk.drop_first(), sg.drop_first(), s));
        assert(apply_steps(p, g, picked, signs, s) == apply_steps(
            p2,
            g,
            picked.drop_first(),
            signs.drop_first(),
            s,
        ));
        lemma_apply_steps_snoc(p2, g, picked.drop_first(), signs.drop_first(), w, b, s);
    }
}

/// A table whose every probability is the fold of the draws over its source
/// value, for some sequence of signs.
pub open spec fn table_stepped_with(
    a: GramTable,
    b: GramTable,
    picked: Seq<Seq<char>>,
    signs: Seq<bool>,
    s: u64,
) -> bool {
    forall|j: int|
        0 <= j < a.probs().len() ==> (#[trigger] b.probs()[j]).1 == apply_steps(
            a.probs()[j].1,
            a.probs()[j].0,
            picked,
            signs,
            s,
        )
}

pub open spec fn table_stepped(a: GramTable, b: GramTable, picked: Seq<Seq<char>>, s: u64) -> bool {
    exists|signs: Seq<bool>|
        signs.len() == picked.len() && #[trigger] table_stepped_with(a, b, picked, signs, s)
}

/// Whether `w` is one of the listed words.
pub open spec fn word_drawn(words: Seq<String>, w: Seq<char>) -> bool {
    exists|v: int| 0 <= v < words.len() && (#[trigger] words[v])@ == w
}

/// Every picked word comes from the given word list.
pub open spec fn picked_from(picked: Seq<Seq<char>>, words: Seq<String>) -> bool {
    forall|d: int| 0 <= d < picked.len() ==> #[trigger] word_drawn(words, picked[d])
}

/// A perturbed model, draw by draw: the same shape everywhere, and every
/// table's probabilities the fold of the draws with per-table random signs.
pub open spec fn maps_stepped(
    a: Seq<LabelTables>,
    b: Seq<LabelTables>,
    picked: Seq<Seq<char>>,
    s: u64,
) -> bool {
    &&& perturbed_within(a, b, picked)
    &&& forall|o: int, i: int|
        0 <= o < a.len() && 0 <= i < a[o].tables().len() ==> table_stepped(
            (#[trigger] a[o].tables()[i]).1,
            (#[trigger] b[o].tables()[i]).1,
            picked,
            s,
        )
}

/// How a perturbed model relates to its source: the same labels, totals and
/// gram keys everywhere, and every probability outside the picked grams
/// unchanged.
pub open spec fn perturbed_within(a: Seq<LabelTables>, b: Seq<LabelTables>, picked: Seq<Seq<char>>) -> bool {
    &&& b.len() == a.len()
    &&& forall|o: int|
        0 <= o < a.len() ==> (#[trigger] b[o]).tables().len() == (#[trigger] a[o]).tables().len()
    &&& forall|o: int, i: int|
        0 <= o < a.len() && 0 <= i < a[o].tables().len() ==> (#[trigger] b[o].tables()[i]).0 == (
        #[trigger] a[o].tables()[i]).0 && b[o].tables()[i].1.total_samples
            == a[o].tables()[i].1.total_samples && b[o].tables()[i].1.probs().len()
            == a[o].tables()[i].1.probs().len() && (forall|j: int|
            0 <= j < a[o].tables()[i].1.probs().len() ==> (#[trigger] b[o].tables()[i].1.probs()[j]).0
                == a[o].tables()[i].1.probs()[j].0 && (!picked.contains(
                a[o].tables()[i].1.probs()[j].0,
            ) ==> b[o].tables()[i].1.probs()[j].1 == a[o].tables()[i].1.probs()[j].1))
}

impl NGram {
    /// Perturbs up to `num_params` randomly chosen words' probabilities by
    /// one step up or down (chosen by a coin flip, saturating at zero and at
    /// the probability cap) in every label and order that holds them; all
    /// other probabilities, and all keys and totals, are unchanged.
    pub fn randomize_inputs(
        gram_maps: &Vec<LabelTables>,
        words: &Vec<String>,
        config: &RandomizerConfig,
    ) -> (r: Vec<LabelTables>)
        requires
            words@.len() > 0,
            maps_wf(gram_maps@),
        ensures
            maps_wf(r@),
            exists|picked: Seq<Seq<char>>|
                picked.len() == config.num_params && picked_from(picked, words@)
                    && #[trigger] maps_stepped(gram_maps@, r@, picked, config.step_size),
    {
        // pick the words to perturb
        let mut random_words: Vec<String> = Vec::new();
        let word_length = words.len();
        let mut c: u64 = 0;
        while c < config.num_params
            invariant
                0 <= c <= config.num_params,
                word_length == words@.len(),
                word_length > 0,
                random_words@.len() == c,
                forall|d: int| 0 <= d < c ==> #[trigger] word_drawn(words@, random_words@[d]@),
            decreases config.num_params - c,
        {
            let idx = random_index(word_length);
            random_words.push(str_copy(words[idx].as_str()));
            proof {
                assert(words@[idx as int]@ == random_words@.last()@);
                assert(word_drawn(words@, random_words@.last()@));
            }
            c += 1;
        }
        let ghost picked = random_words@.map_values(|w: String| w@);
        // apply the steps
        let mut ret_val: Vec<LabelTables> = Vec::new();
        let no = gram_maps.len();
        let mut o: usize = 0;
        while o < no
            invariant
                0 <= o <= no,
                no == gram_maps@.len(),
                maps_wf(gram_maps@),
                picked == random_words@.map_values(|w: String| w@),
                picked.len() == config.num_params,
                forall|d: int| 0 <= d < c ==> #[trigger] word_drawn(words@, random_words@[d]@),
                c == config.num_params,
                ret_val@.len() == o,
                forall|o2: int| 0 <= o2 < o ==> (#[trigger] ret_val@[o2]).wf(),
                forall|o2: int, i: int|
                    0 <= o2 < o && 0 <= i < gram_maps@[o2].tables().len() ==> table_perturbed(
                        (#[trigger] gram_maps@[o2].tables()[i]).1,
                        (#[trigger] ret_val@[o2].tables()[i]).1,
                        picked,
                    ) && ret_val@[o2].tables()[i].0 == gram_maps@[o2].tables()[i].0
                        && table_stepped(
                        gram_maps@[o2].tables()[i].1,
                        ret_val@[o2].tables()[i].1,
                        picked,
                        config.step_size,
                    ),
                forall|o2: int|
                    0 <= o2 < o ==> (#[trigger] ret_val@[o2]).tables().len() == gram_maps@[o2].tables().len(),
            decreases no - o,
        {
            let src_map = &gram_maps[o];
            let mut entries: Vec<(String, GramTable)> = Vec::new();
            let ne = src_map.entries.len();
            let mut k: usize = 0;
            while k < ne
                invariant
                    0 <= k <= ne,
                    0 <= o < no,
                    no == gram_maps@.len(),
                    maps_wf(gram_maps@),
                    picked == random_words@.map_values(|w: String| w@),
                    src_map == &gram_maps[o as int],
                    ne == src_map.entries@.len(),
                    entries@.len() == k,
                    forall|j: int|
                        0 <= j < k ==> (#[trigger] entries@[j]).0@ == src_map.tables()[j].0
                            && table_perturbed(src_map.tables()[j].1, entries@[j].1, picked)
                            && table_stepped(
                            src_map.tables()[j].1,
                            entries@[j].1,
                            picked,
                            config.step_size,
                        ) && entries@[j].1.wf(),
                decreases ne - k,
            {
                proof {
                    assert(src_map.tables()[k as int] == (src_map.entries@[k as int].0@, src_map.entries@[k as int].1));
                    assert(src_map.tables()[k as int].1.wf());
                }
                let src_table = &src_map.entries[k].1;
                let mut wd_hm = crate::train::table_clone(src_table);
                let ghost mut signs: Seq<bool> = Seq::empty();
                let nw = random_words.len();
                let mut w: usize = 0;
                proof {
                    assert(picked.take(0) =~= Seq::<Seq<char>>::empty());
                }
                while w < nw
                    invariant
                        0 <= w <= nw,
                        nw == random_words@.len(),
                        picked == random_words@.map_values(|w: String| w@),
                        src_table.wf(),
                        wd_hm.wf(),
                        table_perturbed(*src_table, wd_hm, picked),
                        signs.len() == w,
                        table_stepped_with(
                            *src_table,
                            wd_hm,
                            picked.take(w as int),
                            signs,
                            config.step_size,
                        ),
                    decreases nw - w,
                {
                    let wd = &random_words[w];
                    proof {
                        assert(picked[w as int] == wd@);
                        assert(picked.contains(wd@));
                    }
                    let ghost signs0 = signs;
                    proof {
                        assert(picked.take(w + 1) =~= picked.take(w as int).push(picked[w as int]));
                    }
                    let o_current_prob = wd_hm.get_prob(wd.as_str());
                    match o_current_prob {
                        None => {
                            proof {
                                signs = signs.push(true);
                                // the drawn word is in no entry, so every
                                // probability keeps its folded value
                                assert forall|j: int|
                                    0 <= j < src_table.probs().len() implies (
                                #[trigger] wd_hm.probs()[j]).1 == apply_steps(
                                    src_table.probs()[j].1,
                                    src_table.probs()[j].0,
                                    picked.take(w + 1),
                                    signs,
                                    config.step_size,
                                ) by {
                                    assert(wd_hm.probs()[j].0 == src_table.probs()[j].0);
                                    assert(src_table.probs()[j].0 != wd@) by {
                                        if src_table.probs()[j].0 == wd@ {
                                            crate::train::lemma_assoc_find_at(
                                                wd_hm.probs(),
                                                wd@,
                                                j,
                                            );
                                        }
                                    }
                                    lemma_apply_steps_snoc(
                                        src_table.probs()[j].1,
                                        src_table.probs()[j].0,
                                        picked.take(w as int),
                                        signs0,
                                        picked[w as int],
                                        true,
                                        config.step_size,
                                    );
                                }
                            }
                        },
                        Some(current_prob) => {
                            proof {
                                crate::train::lemma_prob_of_bound(wd_hm, wd@);
                            }
                            let step_up = random_flip();
                            let new_prob: u64 = if step_up {
                                if config.step_size > PROB_MAX - current_prob {
                                    PROB_MAX
                                } else {
                                    current_prob + config.step_size
                                }
                            } else {
                                if config.step_size > current_prob {
                                    0
                                } else {
                                    current_prob - config.step_size
                                }
                            };
                            let ghost before = wd_hm;
                            wd_hm.set_prob(str_copy(wd.as_str()), new_prob);
                            proof {
                                signs = signs.push(step_up);
                                lemma_assoc_set_pointwise(before.probs(), wd@, new_prob);
                                crate::model::lemma_assoc_set(before.probs(), wd@, new_prob);
                                assert(wd_hm.probs() == assoc_set(
                                    before.probs(),
                                    wd@,
                                    new_prob,
                                ));
                                assert(wd_hm.wf()) by {
                                    assert forall|j: int|
                                        0 <= j < wd_hm.probs().len() implies (
                                    #[trigger] wd_hm.probs()[j]).1 <= PROB_MAX by {
                                        if before.probs()[j].0 != wd@ {
                                            assert(wd_hm.probs()[j].1 == before.probs()[j].1);
                                        } else {
                                            assert(wd_hm.probs()[j].1 == new_prob);
                                            assert(before.prob_of(wd@) == Some(current_prob));
                                            crate::train::lemma_prob_of_bound(before, wd@);
                                        }
                                    }
                                }
                                assert(table_perturbed(*src_table, wd_hm, picked)) by {
                                    assert forall|j: int|
                                        0 <= j < src_table.probs().len() implies (
                                    #[trigger] wd_hm.probs()[j]).0 == src_table.probs()[j].0 && (
                                    !picked.contains(src_table.probs()[j].0)
                                        ==> wd_hm.probs()[j].1 == src_table.probs()[j].1) by {
                                        assert(wd_hm.probs()[j].0 == before.probs()[j].0);
                                        if !picked.contains(src_table.probs()[j].0) {
                                            assert(before.probs()[j].0 != wd@);
                                        }
                                    }
                                }
                                // each probability now carries one more
                                // folded draw
                                assert forall|j: int|
                                    0 <= j < src_table.probs().len() implies (
                                #[trigger] wd_hm.probs()[j]).1 == apply_steps(
                                    src_table.probs()[j].1,
                                    src_table.probs()[j].0,
                                    picked.take(w + 1),
                                    signs,
                                    config.step_size,
                                ) by {
                                    assert(before.probs()[j].0 == src_table.probs()[j].0);
                                    lemma_apply_steps_snoc(
                                        src_table.probs()[j].1,
                                        src_table.probs()[j].0,
                                        picked.take(w as int),
                                        signs0,
                                        picked[w as int],
                                        step_up,
                                        config.step_size,
                                    );
                                    if src_table.probs()[j].0 == wd@ {
                                        assert(wd_hm.probs()[j].1 == new_prob);
                                        crate::totals::lemma_find_gives_value(
                                            before.probs(),
                                            wd@,
                                            j,
                                        );
                                        assert(before.prob_of(wd@) == Some(before.probs()[j].1));
                                        assert(before.probs()[j].1 == current_prob);
                                        assert(new_prob == step_up_of(
                                            current_prob,
                                            config.step_size,
                                        ) || new_prob == step_down_of(
                                            current_prob,
                                            config.step_size,
                                        ));
                                        assert(if step_up {
                                            new_prob == step_up_of(current_prob, config.step_size)
                                        } else {
                                            new_prob == step_down_of(
                                                current_prob,
                                                config.step_size,
                                            )
                                        });
                                    } else {
                                        assert(wd_hm.probs()[j].1 == before.probs()[j].1);
                                    }
                                }
                            }
                        },
                    }
                    w += 1;
                }
                proof {
                    assert(picked.take(nw as int) =~= picked);
                    assert(table_stepped_with(*src_table, wd_hm, picked, signs, config.step_size));
                    assert(table_stepped(*src_table, wd_hm, picked, config.step_size));
                }
                entries.push((str_copy(src_map.entries[k].0.as_str()), wd_hm));
                k += 1;
            }
            let lt = LabelTables { entries };
            proof {
                assert(forall|j: int|
                    0 <= j < ne ==> (#[trigger] lt.tables()[j]) == (lt.entries@[j].0@, lt.entries@[j].1));
                assert(lt.wf()) by {
                    assert(gram_maps@[o as int].wf());
                    assert forall|a: int, b: int|
                        0 <= a < b < lt.tables().len() implies (#[trigger] lt.tables()[a]).0 != (
                    #[trigger] lt.tables()[b]).0 by {
                        assert(src_map.tables()[a].0 == lt.tables()[a].0);
                        assert(src_map.tables()[b].0 == lt.tables()[b].0);
                    }
                }
            }
            ret_val.push(lt);
            o += 1;
        }
        proof {
            assert(picked.len() == config.num_params);
            assert(picked_from(picked, words@)) by {
                assert forall|d: int| 0 <= d < picked.len() implies #[trigger] word_drawn(
                    words@,
                    picked[d],
                ) by {
                    assert(picked[d] == random_words@[d]@);
                    assert(word_drawn(words@, random_words@[d]@));
                }
            }
            assert(perturbed_within(gram_maps@, ret_val@, picked));
            assert(maps_stepped(gram_maps@, ret_val@, picked, config.step_size));
        }
        ret_val
    }
}

/// Two models of the same shape: the same orders, labels, totals and gram
/// keys, with only probabilities possibly differing.
pub open spec fn maps_same_shape(a: Seq<LabelTables>, b: Seq<LabelTables>) -> bool {
    &&& b.len() == a.len()
    &&& forall|o: int|
        0 <= o < a.len() ==> (#[trigger] b[o]).tables().len() == (#[trigger] a[o]).tables().len()
    &&& forall|o: int, i: int|
        0 <= o < a.len() && 0 <= i < a[o].tables().len() ==> (#[trigger] b[o].tables()[i]).0 == (
        #[trigger] a[o].tables()[i]).0 && b[o].tables()[i].1.total_samples
            == a[o].tables()[i].1.total_samples && b[o].tables()[i].1.probs().len()
            == a[o].tables()[i].1.probs().len() && (forall|j: int|
            0 <= j < a[o].tables()[i].1.probs().len() ==> (#[trigger] b[o].tables()[i].1.probs()[j]).0
                == a[o].tables()[i].1.probs()[j].0)
}

/// A perturbed model keeps its source's shape.
pub proof fn lemma_shape_of_perturbed(a: Seq<LabelTables>, b: Seq<LabelTables>, picked: Seq<Seq<char>>)
    requires
        perturbed_within(a, b, picked),
    ensures
        maps_same_shape(a, b),
{
}

/// Equivalent table maps share a shape.
pub proof fn lemma_shape_of_equiv(a: Seq<LabelTables>, b: Seq<LabelTables>)
    requires
        b.len() == a.len(),
        forall|o: int| 0 <= o < a.len() ==> tables_equiv(a[o], #[trigger] b[o]),
    ensures
        maps_same_shape(a, b),
{
    assert forall|o: int, i: int|
        0 <= o < a.len() && 0 <= i < a[o].tables().len() implies (#[trigger] b[o].tables()[i]).0
        == (#[trigger] a[o].tables()[i]).0 && b[o].tables()[i].1.total_samples
        == a[o].tables()[i].1.total_samples && b[o].tables()[i].1.probs().len()
        == a[o].tables()[i].1.probs().len() && (forall|j: int|
        0 <= j < a[o].tables()[i].1.probs().len() ==> (#[trigger] b[o].tables()[i].1.probs()[j]).0
            == a[o].tables()[i].1.probs()[j].0) by {
        assert(tables_equiv(a[o], b[o]));
        assert(b[o].tables()[i].1.probs() == a[o].tables()[i].1.probs());
    }
}

/// Sharing a shape is transitive.
pub proof fn lemma_shape_trans(a: Seq<LabelTables>, b: Seq<LabelTables>, c: Seq<LabelTables>)
    requires
        maps_same_shape(a, b),
        maps_same_shape(b, c),
    ensures
        maps_same_shape(a, c),
{
    assert forall|o: int|
        0 <= o < a.len() implies (#[trigger] c[o]).tables().len() == (
    #[trigger] a[o]).tables().len() by {
        assert((#[trigger] b[o]).tables().len() == a[o].tables().len());
    }
    assert forall|o: int, i: int|
        0 <= o < a.len() && 0 <= i < a[o].tables().len() implies (#[trigger] c[o].tables()[i]).0
        == (#[trigger] a[o].tables()[i]).0 && c[o].tables()[i].1.total_samples
        == a[o].tables()[i].1.total_samples && c[o].tables()[i].1.probs().len()
        == a[o].tables()[i].1.probs().len() && (forall|j: int|
        0 <= j < a[o].tables()[i].1.probs().len() ==> (#[trigger] c[o].tables()[i].1.probs()[j]).0
            == a[o].tables()[i].1.probs()[j].0) by {
        assert((#[trigger] b[o].tables()[i]).0 == a[o].tables()[i].0);
        assert(c[o].tables()[i].0 == b[o].tables()[i].0);
        assert(forall|j: int|
            0 <= j < a[o].tables()[i].1.probs().len() ==> (#[trigger] b[o].tables()[i].1.probs()[j]).0
                == a[o].tables()[i].1.probs()[j].0);
        assert(forall|j: int|
            0 <= j < b[o].tables()[i].1.probs().len() ==> (#[trigger] c[o].tables()[i].1.probs()[j]).0
                == b[o].tables()[i].1.probs()[j].0);
    }
}

/// How a perturbed table relates to its source.
pub open spec fn table_perturbed(a: GramTable, b: GramTable, picked: Seq<Seq<char>>) -> bool {
    &&& b.total_samples == a.total_samples
    &&& b.probs().len() == a.probs().len()
    &&& forall|j: int|
        0 <= j < a.probs().len() ==> (#[trigger] b.probs()[j]).0 == a.probs()[j].0 && (
        !picked.contains(a.probs()[j].0) ==> b.probs()[j].1 == a.probs()[j].1)
}

/// Whether `w` occurs in the word list.
pub open spec fn listed_word(r: Seq<String>, w: Seq<char>) -> bool {
    exists|a: int| 0 <= a < r.len() && (#[trigger] r[a])@ == w
}

/// Pushing a word keeps every listed word listed.
proof fn lemma_listed_push(r: Seq<String>, x: String, w: Seq<char>)
    requires
        listed_word(r, w),
    ensures
        listed_word(r.push(x), w),
{
    let a = choose|a: int| 0 <= a < r.len() && (#[trigger] r[a])@ == w;
    assert(r.push(x)[a]@ == w);
}

impl NGram {
    /// The distinct words of the unigram tables of every label, in
    /// first-appearance order: sound, complete and without repetition.
    pub fn get_words_in_maps(bags: &Vec<LabelTables>) -> (r: Vec<String>)
        ensures
            forall|a: int, b: int|
                0 <= a < b < r@.len() ==> (#[trigger] r@[a])@ != (#[trigger] r@[b])@,
            forall|a: int|
                0 <= a < r@.len() ==> unigram_word(bags@, (#[trigger] r@[a])@),
            forall|i: int, j: int|
                bags@.len() > 0 && 0 <= i < bags@[0].tables().len() && 0 <= j
                    < bags@[0].tables()[i].1.probs().len() ==> #[trigger] listed_word(
                    r@,
                    bags@[0].tables()[i].1.probs()[j].0,
                ),
    {
        let mut out: Vec<String> = Vec::new();
        if bags.len() == 0 {
            return out;
        }
        let first = &bags[0];
        let ne = first.entries.len();
        let mut k: usize = 0;
        while k < ne
            invariant
                0 <= k <= ne,
                bags@.len() > 0,
                first == &bags[0],
                ne == first.entries@.len(),
                forall|a: int, b: int|
                    0 <= a < b < out@.len() ==> (#[trigger] out@[a])@ != (#[trigger] out@[b])@,
                forall|a: int|
                    0 <= a < out@.len() ==> unigram_word(bags@, (#[trigger] out@[a])@),
                forall|i: int, j: int|
                    0 <= i < k && 0 <= j < first.tables()[i].1.probs().len()
                        ==> #[trigger] listed_word(out@, first.tables()[i].1.probs()[j].0),
            decreases ne - k,
        {
            proof {
                assert(first.tables()[k as int] == (first.entries@[k as int].0@, first.entries@[k as int].1));
            }
            let t = &first.entries[k].1;
            let np = t.probabilities.len();
            let mut j: usize = 0;
            while j < np
                invariant
                    0 <= j <= np,
                    0 <= k < ne,
                    bags@.len() > 0,
                    first == &bags[0],
                    ne == first.entries@.len(),
                    t == &first.entries[k as int].1,
                    np == t.probabilities@.len(),
                    first.tables()[k as int].1 == *t,
                    forall|a: int, b: int|
                        0 <= a < b < out@.len() ==> (#[trigger] out@[a])@ != (#[trigger] out@[b])@,
                    forall|a: int|
                        0 <= a < out@.len() ==> unigram_word(bags@, (#[trigger] out@[a])@),
                    forall|i: int, j2: int|
                        0 <= i < k && 0 <= j2 < first.tables()[i].1.probs().len()
                            ==> #[trigger] listed_word(out@, first.tables()[i].1.probs()[j2].0),
                    forall|j2: int|
                        0 <= j2 < j ==> #[trigger] listed_word(out@, t.probs()[j2].0),
                decreases np - j,
            {
                let wd = &t.probabilities[j].0;
                proof {
                    assert(t.probs()[j as int] == (t.probabilities@[j as int].0@, t.probabilities@[j as int].1));
                }
                // skip words already collected
                let nw = out.len();
                let mut a: usize = 0;
                let mut seen = false;
                while a < nw
                    invariant
                        0 <= a <= nw,
                        nw == out@.len(),
                        !seen ==> forall|b: int| 0 <= b < a ==> (#[trigger] out@[b])@ != wd@,
                        seen ==> exists|b: int| 0 <= b < nw && (#[trigger] out@[b])@ == wd@,
                    decreases nw - a + if seen {
                        0int
                    } else {
                        1int
                    },
                {
                    if str_eq(out[a].as_str(), wd.as_str()) {
                        seen = true;
                        a = nw;
                    } else {
                        a += 1;
                    }
                }
                if !seen {
                    let ghost prev = out@;
                    let pushed = str_copy(wd.as_str());
                    let ghost pv = pushed;
                    out.push(pushed);
                    proof {
                        assert(out@ == prev.push(pv));
                        assert(out@.last()@ == wd@);
                        assert(forall|b: int| 0 <= b < prev.len() ==> #[trigger] out@[b] == prev[b]);
                        assert(unigram_word(bags@, wd@)) by {
                            assert(first.tables()[k as int].1.probs()[j as int].0 == wd@);
                        }
                        // earlier words stay listed, and the current one now is
                        assert forall|i: int, j2: int|
                            0 <= i < k && 0 <= j2 < first.tables()[i].1.probs().len()
                                implies #[trigger] listed_word(
                            out@,
                            first.tables()[i].1.probs()[j2].0,
                        ) by {
                            assert(listed_word(prev, first.tables()[i].1.probs()[j2].0));
                            lemma_listed_push(prev, pv, first.tables()[i].1.probs()[j2].0);
                        }
                        assert forall|j2: int| 0 <= j2 < j + 1 implies #[trigger] listed_word(
                            out@,
                            t.probs()[j2].0,
                        ) by {
                            if j2 < j {
                                assert(listed_word(prev, t.probs()[j2].0));
                                lemma_listed_push(prev, pv, t.probs()[j2].0);
                            } else {
                                assert(out@[prev.len() as int]@ == t.probs()[j as int].0);
                            }
                        }
                    }
                } else {
                    proof {
                        assert(listed_word(out@, t.probs()[j as int].0)) by {
                            let b = choose|b: int| 0 <= b < out@.len() && (#[trigger] out@[b])@ == wd@;
                            assert(out@[b]@ == t.probs()[j as int].0);
                        }
                    }
                }
                j += 1;
            }
            k += 1;
        }
        proof {
            assert forall|i: int, j: int|
                0 <= i < bags@[0].tables().len() && 0 <= j < bags@[0].tables()[i].1.probs().len()
                    implies #[trigger] listed_word(out@, bags@[0].tables()[i].1.probs()[j].0) by {
                assert(first.tables()[i].1.probs()[j].0 == bags@[0].tables()[i].1.probs()[j].0);
                assert(listed_word(out@, first.tables()[i].1.probs()[j].0));
            }
        }
        out
    }

    /// Randomized local search: tries rounds of randomly perturbed models
    /// and keeps each candidate only when it strictly improves on the
    /// current best accuracy.  The result is the unchanged model at the
    /// baseline accuracy, or a model whose accuracy strictly beats the
    /// baseline.
    pub fn learn_randomizer_loop(
        &self,
        input: &Vec<InputTup>,
        o_initial_accuracy: &Option<u64>,
        config: &RandomizerConfig,
    ) -> (r: (u64, Vec<LabelTables>))
        requires
            self.wf(),
            input@.len() > 0,
        ensures
            maps_wf(r.1@),
            maps_same_shape(self.ngram_maps@, r.1@),
            (model_view(r.1@) == model_view(self.ngram_maps@) && r.0 as int == baseline_of(
                *o_initial_accuracy,
                self.ngram_maps@,
                input@,
            )) || (r.0 as int == accuracy_of(model_view(r.1@), input@) && r.0 as int > baseline_of(
                *o_initial_accuracy,
                self.ngram_maps@,
                input@,
            )),
            o_initial_accuracy is None ==> r.0 as int == accuracy_of(model_view(r.1@), input@),
    {
        let initial_accuracy: u64 = match o_initial_accuracy {
            Some(a) => *a,
            None => NGram::validate(&self.ngram_maps, input),
        };
        let ghost baseline = baseline_of(*o_initial_accuracy, self.ngram_maps@, input@);
        let words = NGram::get_words_in_maps(&self.ngram_maps);
        let mut ret_maps = maps_clone(&self.ngram_maps);
        proof {
            lemma_shape_of_equiv(self.ngram_maps@, ret_maps@);
        }
        if words.len() == 0 {
            // nothing to perturb
            return (initial_accuracy, ret_maps);
        }
        let mut current_accuracy = initial_accuracy;
        let mut iter_list: Vec<u64> = Vec::new();
        let mut c: u64 = 0;
        while c < config.iterations
            invariant
                0 <= c <= config.iterations,
            decreases config.iterations - c,
        {
            iter_list.push(c);
            c += 1;
        }
        let mut i: u64 = 0;
        while i < config.iterations
            invariant
                0 <= i <= config.iterations,
                self.wf(),
                input@.len() > 0,
                words@.len() > 0,
                maps_wf(ret_maps@),
                maps_same_shape(self.ngram_maps@, ret_maps@),
                baseline == baseline_of(*o_initial_accuracy, self.ngram_maps@, input@),
                initial_accuracy as int == baseline,
                (model_view(ret_maps@) == model_view(self.ngram_maps@) && current_accuracy
                    == initial_accuracy) || (current_accuracy as int == accuracy_of(
                    model_view(ret_maps@),
                    input@,
                ) && current_accuracy > initial_accuracy),
            decreases config.iterations - i,
        {
            let cfg_copy = *config;
            let ctx = (input, &words, cfg_copy, &ret_maps);
            let f_thread = |c: &(&Vec<InputTup>, &Vec<String>, RandomizerConfig, &Vec<
                LabelTables,
            >), _chunk: &[u64]| -> (out: Vec<(u64, Vec<LabelTables>)>)
                requires
                    c.0@.len() > 0,
                    c.1@.len() > 0,
                    maps_wf(c.3@),
                ensures
                    out@.len() == 1,
                    out@[0].0 as int == accuracy_of(model_view(out@[0].1@), c.0@),
                    maps_wf(out@[0].1@),
                    maps_same_shape(c.3@, out@[0].1@),
                {
                    let new_maps = NGram::randomize_inputs(c.3, c.1, &c.2);
                    proof {
                        let picked = choose|picked: Seq<Seq<char>>|
                            picked.len() == c.2.num_params && picked_from(picked, c.1@)
                                && #[trigger] maps_stepped(c.3@, new_maps@, picked, c.2.step_size);
                        lemma_shape_of_perturbed(c.3@, new_maps@, picked);
                    }
                    let new_accuracy = NGram::validate(&new_maps, c.0);
                    let mut out: Vec<(u64, Vec<LabelTables>)> = Vec::new();
                    out.push((new_accuracy, new_maps));
                    out
                };
            let results = crate::util::multi_thread_process_list(&iter_list, &ctx, 12, f_thread);
            proof {
                let outs = choose|outs: Seq<Vec<(u64, Vec<LabelTables>)>>|
                    #[trigger] crate::util::runner_post(f_thread, &ctx, iter_list@, 12, outs, results@);
                let outs_v = outs.map_values(|v: Vec<(u64, Vec<LabelTables>)>| v@);
                let csize = crate::util::chunk_size(iter_list@.len() as int, 12);
                assert forall|j: int|
                    0 <= j < results@.len() implies (#[trigger] results@[j]).0 as int
                    == accuracy_of(model_view(results@[j].1@), input@) && maps_wf(
                    results@[j].1@,
                ) && maps_same_shape(ret_maps@, results@[j].1@) by {
                    assert(results@ == outs_v.flatten());
                    crate::util::lemma_flatten_elem(outs_v, j);
                    let (a, b) = choose|a: int, b: int|
                        0 <= a < outs_v.len() && 0 <= b < outs_v[a].len() && outs_v.flatten()[j]
                            == #[trigger] outs_v[a][b];
                    assert(crate::util::chunk_output(f_thread, &ctx, iter_list@, csize, a, outs[a]));
                    let cv = choose|cv: &[u64]|
                        cv@ == crate::util::chunk_of(iter_list@, csize, a) && #[trigger] call_ensures(
                            f_thread,
                            (&ctx, cv),
                            outs[a],
                        );
                    assert(outs[a]@.len() == 1);
                    assert(b == 0);
                    assert(results@[j] == outs[a]@[0]);
                }
            }
            let ghost round_base = ret_maps@;
            let mut remaining = results;
            while remaining.len() > 0
                invariant
                    self.wf(),
                    input@.len() > 0,
                    maps_wf(ret_maps@),
                    initial_accuracy as int == baseline,
                    maps_same_shape(self.ngram_maps@, round_base),
                    maps_same_shape(self.ngram_maps@, ret_maps@),
                    forall|j: int|
                        0 <= j < remaining@.len() ==> (#[trigger] remaining@[j]).0 as int
                            == accuracy_of(model_view(remaining@[j].1@), input@) && maps_wf(
                            remaining@[j].1@,
                        ) && maps_same_shape(round_base, remaining@[j].1@),
                    (model_view(ret_maps@) == model_view(self.ngram_maps@) && current_accuracy
                        == initial_accuracy) || (current_accuracy as int == accuracy_of(
                        model_view(ret_maps@),
                        input@,
                    ) && current_accuracy > initial_accuracy),
                decreases remaining@.len(),
            {
                let ghost prevr = remaining@;
                let (new_accuracy, new_maps) = remaining.remove(0);
                proof {
                    assert(prevr[0] == (new_accuracy, new_maps));
                    assert(forall|j: int|
                        0 <= j < remaining@.len() ==> #[trigger] remaining@[j] == prevr[j + 1]);
                }
                if new_accuracy > current_accuracy {
                    current_accuracy = new_accuracy;
                    proof {
                        lemma_shape_trans(self.ngram_maps@, round_base, new_maps@);
                    }
                    ret_maps = new_maps;
                }
            }
            i += 1;
        }
        (current_accuracy, ret_maps)
    }

    /// Runs the selected optimization strategies in the fixed order
    /// similarity, probability, randomizer, count, threading the measured
    /// accuracy of each stage into the next as its baseline.  With no
    /// strategy selected the model is left untouched.
    pub fn learn(&mut self, input: &Vec<InputTup>, o_learn_config: Option<LearnConfig>)
        requires
            old(self).wf(),
            input@.len() > 0,
        ensures
            final(self).wf(),
            final(self).max_grams == old(self).max_grams,
            selects_nothing(&o_learn_config) ==> model_view(final(self).ngram_maps@)
                == model_view(old(self).ngram_maps@),
            exists|m1: Seq<LabelTables>, m2: Seq<LabelTables>, m3: Seq<LabelTables>, a1: Option<
                u64,
            >, a2: Option<u64>, a3: Option<u64>|
                {
                    &&& #[trigger] similarity_stage(
                        resolved_selection(&o_learn_config).similarity,
                        input@,
                        resolved_similarity_config(&o_learn_config),
                        old(self).ngram_maps@,
                        None,
                        m1,
                        a1,
                    )
                    &&& #[trigger] probability_stage(
                        resolved_selection(&o_learn_config).probability,
                        input@,
                        resolved_probability_config(&o_learn_config),
                        m1,
                        a1,
                        m2,
                        a2,
                    )
                    &&& #[trigger] randomizer_stage(
                        resolved_selection(&o_learn_config).randomizer,
                        input@,
                        m2,
                        a2,
                        m3,
                        a3,
                    )
                    &&& count_stage(
                        resolved_selection(&o_learn_config).count,
                        m3,
                        final(self).ngram_maps@,
                        resolved_count_config(&o_learn_config),
                    )
                },
    {
        let ghost sel = resolved_selection(&o_learn_config);
        let ghost ccfg = resolved_count_config(&o_learn_config);
        let learn_config: LearnConfig = match o_learn_config {
            Some(mut c) => {
                if c.prune_probability.is_none() {
                    c.prune_probability = Some(PruneProbabilityConfig::default());
                }
                if c.prune_similarity.is_none() {
                    c.prune_similarity = Some(PruneSimilarityConfig::default());
                }
                if c.randomizer.is_none() {
                    c.randomizer = Some(RandomizerConfig::default());
                }
                if c.prune_count.is_none() {
                    c.prune_count = Some(PruneCountConfig::default());
                }
                c
            },
            None => LearnConfig {
                prune_selection: PruneSelectionConfig::default(),
                prune_probability: Some(PruneProbabilityConfig::default()),
                prune_similarity: Some(PruneSimilarityConfig::default()),
                prune_count: Some(PruneCountConfig::default()),
                randomizer: Some(RandomizerConfig::default()),
            },
        };
        let ghost m0 = self.ngram_maps@;
        let mut accuracy: Option<u64> = None;
        proof {
            assert(learn_config.prune_selection == sel);
        }
        let ghost scfg = resolved_similarity_config(&o_learn_config);
        let ghost pcfg = resolved_probability_config(&o_learn_config);
        if learn_config.prune_selection.similarity {
            let cfg = match &learn_config.prune_similarity {
                Some(c) => *c,
                None => PruneSimilarityConfig::default(),
            };
            let (tmp_accuracy, maps) = self.prune_similarity_loop(input, &accuracy, &cfg);
            accuracy = Some(tmp_accuracy);
            self.ngram_maps = maps;
        }
        let ghost g1 = self.ngram_maps@;
        let ghost a1 = accuracy;
        proof {
            assert(similarity_stage(sel.similarity, input@, scfg, m0, None, g1, a1));
        }
        if learn_config.prune_selection.probability {
            let cfg = match &learn_config.prune_probability {
                Some(c) => *c,
                None => PruneProbabilityConfig::default(),
            };
            let (tmp_accuracy, maps) = self.prune_probability(input, &accuracy, &cfg);
            accuracy = Some(tmp_accuracy);
            self.ngram_maps = maps;
        }
        let ghost g2 = self.ngram_maps@;
        let ghost a2 = accuracy;
        proof {
            assert(probability_stage(sel.probability, input@, pcfg, g1, a1, g2, a2));
        }
        if learn_config.prune_selection.randomizer {
            let cfg = match &learn_config.randomizer {
                Some(c) => *c,
                None => RandomizerConfig::default(),
            };
            let (tmp_accuracy, maps) = self.learn_randomizer_loop(input, &accuracy, &cfg);
            accuracy = Some(tmp_accuracy);
            self.ngram_maps = maps;
        }
        let ghost g3 = self.ngram_maps@;
        let ghost a3 = accuracy;
        proof {
            assert(randomizer_stage(sel.randomizer, input@, g2, a2, g3, a3));
        }
        if learn_config.prune_selection.count {
            let cfg = match &learn_config.prune_count {
                Some(c) => *c,
                None => PruneCountConfig::default(),
            };
            proof {
                assert(cfg == ccfg);
            }
            self.ngram_maps = self.prune_count(&cfg);
        }
        proof {
            assert(count_stage(sel.count, g3, self.ngram_maps@, ccfg));
            assert(similarity_stage(sel.similarity, input@, scfg, m0, None, g1, a1)
                && probability_stage(sel.probability, input@, pcfg, g1, a1, g2, a2)
                && randomizer_stage(sel.randomizer, input@, g2, a2, g3, a3));
        }
    }
}

/// The strategy selection a learning run resolves to.
pub open spec fn resolved_selection(o: &Option<LearnConfig>) -> PruneSelectionConfig {
    match o {
        Some(c) => c.prune_selection,
        None => PruneSelectionConfig {
            probability: false,
            similarity: false,
            count: false,
            randomizer: false,
        },
    }
}

/// The count-pruning configuration a learning run resolves to.
pub open spec fn resolved_count_config(o: &Option<LearnConfig>) -> PruneCountConfig {
    match o {
        Some(c) => match c.prune_count {
            Some(cc) => cc,
            None => PruneCountConfig { min_count: 2, adjust_amount: 10_000_000 },
        },
        None => PruneCountConfig { min_count: 2, adjust_amount: 10_000_000 },
    }
}

/// The similarity configuration a learning run resolves to.
pub open spec fn resolved_similarity_config(o: &Option<LearnConfig>) -> PruneSimilarityConfig {
    match o {
        Some(c) => match c.prune_similarity {
            Some(cc) => cc,
            None => PruneSimilarityConfig {
                starting_deviation: 10,
                max_accuracy_reduction: 100_000_000,
                probability_multiplyer: 2_000_000_000,
            },
        },
        None => PruneSimilarityConfig {
            starting_deviation: 10,
            max_accuracy_reduction: 100_000_000,
            probability_multiplyer: 2_000_000_000,
        },
    }
}

/// The probability-pruning configuration a learning run resolves to.
pub open spec fn resolved_probability_config(o: &Option<LearnConfig>) -> PruneProbabilityConfig {
    match o {
        Some(c) => match c.prune_probability {
            Some(cc) => cc,
            None => PruneProbabilityConfig {
                starting_probability: 10_000,
                max_accuracy_reduction: 100_000_000,
                probability_multiplyer: 2_000_000_000,
            },
        },
        None => PruneProbabilityConfig {
            starting_probability: 10_000,
            max_accuracy_reduction: 100_000_000,
            probability_multiplyer: 2_000_000_000,
        },
    }
}

/// What the similarity stage does to the model and the threaded accuracy:
/// skipped, it changes neither; selected, it mirrors
/// `prune_similarity_loop`'s contract against the threaded baseline and
/// threads the returned accuracy on.
pub open spec fn similarity_stage(
    sel: bool,
    inp: Seq<InputTup>,
    cfg: PruneSimilarityConfig,
    a: Seq<LabelTables>,
    acc0: Option<u64>,
    b: Seq<LabelTables>,
    acc1: Option<u64>,
) -> bool {
    if !sel {
        model_view(b) == model_view(a) && acc1 == acc0
    } else {
        acc1 is Some && {
            let base = baseline_of(acc0, a, inp);
            (model_view(b) == model_view(a) && acc1->Some_0 as int == base && (forall|
                cand: Seq<LabelTables>,
            |
                #[trigger] maps_similarity_filtered(a, cand, cfg.starting_deviation)
                    ==> accuracy_of(model_view(cand), inp) + cfg.max_accuracy_reduction < base))
                || (exists|dev: u64|
                #[trigger] maps_similarity_filtered(a, b, dev) && accuracy_of(model_view(b), inp)
                    + cfg.max_accuracy_reduction >= base && acc1->Some_0 as int == accuracy_of(
                    model_view(b),
                    inp,
                ))
        }
    }
}

/// What the probability stage does: skipped, nothing; selected, it mirrors
/// `prune_probability`'s contract — the model is a threshold-pruned image
/// of its input, unchanged only when the first probe broke the floor — and
/// threads the returned accuracy on.
pub open spec fn probability_stage(
    sel: bool,
    inp: Seq<InputTup>,
    cfg: PruneProbabilityConfig,
    a: Seq<LabelTables>,
    acc0: Option<u64>,
    b: Seq<LabelTables>,
    acc1: Option<u64>,
) -> bool {
    if !sel {
        model_view(b) == model_view(a) && acc1 == acc0
    } else {
        acc1 is Some && (exists|thr: u64| #[trigger] maps_threshold_filtered(a, b, thr)) && {
            let base = baseline_of(acc0, a, inp);
            (model_view(b) == model_view(a) && acc1->Some_0 as int == base && accuracy_of(
                view_threshold_filtered(model_view(a), cfg.starting_probability),
                inp,
            ) + cfg.max_accuracy_reduction < base) || (accuracy_of(model_view(b), inp)
                + cfg.max_accuracy_reduction >= base && acc1->Some_0 as int == accuracy_of(
                model_view(b),
                inp,
            ))
        }
    }
}

/// What the randomizer stage does: skipped, nothing; selected, it mirrors
/// `learn_randomizer_loop`'s contract — only probabilities move, and the
/// model comes back unchanged at the baseline or strictly improved — and
/// threads the returned accuracy on.
pub open spec fn randomizer_stage(
    sel: bool,
    inp: Seq<InputTup>,
    a: Seq<LabelTables>,
    acc0: Option<u64>,
    b: Seq<LabelTables>,
    acc1: Option<u64>,
) -> bool {
    if !sel {
        model_view(b) == model_view(a) && acc1 == acc0
    } else {
        acc1 is Some && maps_same_shape(a, b) && {
            let base = baseline_of(acc0, a, inp);
            (model_view(b) == model_view(a) && acc1->Some_0 as int == base) || (acc1->Some_0 as int
                == accuracy_of(model_view(b), inp) && acc1->Some_0 as int > base)
        }
    }
}

/// What the count stage does: skipped, nothing; selected, every order is
/// count-filtered under the resolved configuration.
pub open spec fn count_stage(
    sel: bool,
    a: Seq<LabelTables>,
    b: Seq<LabelTables>,
    cfg: PruneCountConfig,
) -> bool {
    if !sel {
        model_view(b) == model_view(a)
    } else {
        b.len() == a.len() && forall|o: int|
            0 <= o < b.len() ==> order_count_filtered(a[o], #[trigger] b[o], cfg)
    }
}

/// Whether a learning configuration selects no strategy at all.
pub open spec fn selects_nothing(o: &Option<LearnConfig>) -> bool {
    match o {
        None => true,
        Some(c) => !c.prune_selection.similarity && !c.prune_selection.probability
            && !c.prune_selection.randomizer && !c.prune_selection.count,
    }
}

/// A word held by some label's unigram table.
pub open spec fn unigram_word(bags: Seq<LabelTables>, w: Seq<char>) -> bool {
    bags.len() > 0 && exists|i: int, j: int|
        0 <= i < bags[0].tables().len() && 0 <= j < bags[0].tables()[i].1.probs().len() && (
        #[trigger] bags[0].tables()[i].1.probs()[j]).0 == w
}

} // verus!
