//! Training: counting gram occurrences and merging them into the per-label
//! probability tables with count-weighted re-estimation.
//!
//! For a gram with `c` new occurrences over `k` new samples, prior
//! probability `p` over `n` prior samples, the prior count is reconstructed
//! as `ceil(p * n)` and the merged probability is
//! `(c + ceil(p * n)) / (n + k)`, so training can be called incrementally
//! without storing raw counts.

use vstd::prelude::*;

use crate::grams::grams_of;
use crate::model::assoc_distinct;
use crate::model::assoc_find;
use crate::model::assoc_set;
use crate::model::lemma_assoc_find_skip;
use crate::model::GramTable;
use crate::model::LabelTables;
use crate::model::NGram;
use crate::nums::PROB_MAX;
use crate::nums::PROB_SCALE;
use crate::nums::TOTAL_MAX;
use crate::strutil::str_copy;
use crate::strutil::str_eq;
use crate::util::InputTup;

verus! {

/// Occurrences of `g` in a list of grams.
pub open spec fn count_in(gs: Seq<Seq<char>>, g: Seq<char>) -> int
    decreases gs.len(),
{
    if gs.len() == 0 {
        0int
    } else {
        count_in(gs.drop_last(), g) + if gs.last() == g {
            1int
        } else {
            0int
        }
    }
}

/// All order-`n` grams of a list of texts, in text order.
pub open spec fn all_grams(texts: Seq<Seq<char>>, n: int) -> Seq<Seq<char>>
    decreases texts.len(),
{
    if texts.len() == 0 {
        Seq::empty()
    } else {
        all_grams(texts.drop_last(), n) + grams_of(texts.last(), n)
    }
}

pub proof fn lemma_count_in_nonneg(gs: Seq<Seq<char>>, g: Seq<char>)
    ensures
        0 <= count_in(gs, g) <= gs.len(),
    decreases gs.len(),
{
    if gs.len() > 0 {
        lemma_count_in_nonneg(gs.drop_last(), g);
    }
}

pub proof fn lemma_count_in_push(gs: Seq<Seq<char>>, g: Seq<char>, x: Seq<char>)
    ensures
        count_in(gs.push(x), g) == count_in(gs, g) + if x == g {
            1int
        } else {
            0int
        },
{
    assert(gs.push(x).drop_last() =~= gs);
    assert(gs.push(x).last() == x);
}

/// The occurrence counts of a list of grams, as an association vector whose
/// keys are exactly the grams that occur.
pub open spec fn counts_ok(counts: Seq<(Seq<char>, u64)>, gs: Seq<Seq<char>>) -> bool {
    &&& assoc_distinct(counts)
    &&& forall|g: Seq<char>|
        match #[trigger] assoc_find(counts, g) {
            Some(c) => c == count_in(gs, g) && c >= 1,
            None => count_in(gs, g) == 0,
        }
}

/// Counts the order-`n` gram occurrences of all the given texts.
fn count_grams(input_data: &Vec<String>, n: usize) -> (r: Vec<(String, u64)>)
    requires
        all_grams(input_data@.map_values(|t: String| t@), n as int).len() < u64::MAX,
    ensures
        counts_ok(
            r@.map_values(|e: (String, u64)| (e.0@, e.1)),
            all_grams(input_data@.map_values(|t: String| t@), n as int),
        ),
{
    let ghost texts = input_data@.map_values(|t: String| t@);
    let mut counts: Vec<(String, u64)> = Vec::new();
    let nt = input_data.len();
    let mut t: usize = 0;
    proof {
        assert(counts@.map_values(|e: (String, u64)| (e.0@, e.1))
            =~= Seq::<(Seq<char>, u64)>::empty());
        assert(all_grams(texts.take(0), n as int) =~= Seq::<Seq<char>>::empty());
    }
    while t < nt
        invariant
            0 <= t <= nt,
            nt == input_data@.len(),
            texts == input_data@.map_values(|t: String| t@),
            all_grams(texts, n as int).len() < u64::MAX,
            counts_ok(
                counts@.map_values(|e: (String, u64)| (e.0@, e.1)),
                all_grams(texts.take(t as int), n as int),
            ),
        decreases nt - t,
    {
        let gs = NGram::create_grams(&input_data[t], n);
        let ghost gsv = gs@.map_values(|g: String| g@);
        let ghost done = all_grams(texts.take(t as int), n as int);
        proof {
            assert(texts.take(t + 1).drop_last() =~= texts.take(t as int));
            assert(texts.take(t + 1).last() == texts[t as int]);
            assert(texts[t as int] == input_data@[t as int]@);
            assert(all_grams(texts.take(t + 1), n as int) == done + gsv);
            assert((done + gsv.take(0)) =~= done);
            lemma_all_grams_prefix(texts, n as int, t as int);
        }
        let ng = gs.len();
        let mut j: usize = 0;
        while j < ng
            invariant
                0 <= j <= ng,
                0 <= t < nt,
                ng == gs@.len(),
                gsv == gs@.map_values(|g: String| g@),
                done == all_grams(texts.take(t as int), n as int),
                all_grams(texts, n as int).len() < u64::MAX,
                (done + gsv).len() <= all_grams(texts, n as int).len(),
                counts_ok(
                    counts@.map_values(|e: (String, u64)| (e.0@, e.1)),
                    done + gsv.take(j as int),
                ),
            decreases ng - j,
        {
            let ghost cv = counts@.map_values(|e: (String, u64)| (e.0@, e.1));
            let ghost seen = done + gsv.take(j as int);
            let g = &gs[j];
            let cur = counts_get(&counts, g.as_str());
            proof {
                assert(gsv[j as int] == g@);
                assert((done + gsv.take(j + 1)) =~= seen.push(g@));
                lemma_count_in_push(seen, g@, g@);
                lemma_count_in_nonneg(seen, g@);
                assert(seen.len() <= (done + gsv).len());
                assert(cur < u64::MAX);
            }
            let newc = cur + 1;
            counts_set(&mut counts, g, newc);
            proof {
                crate::model::lemma_assoc_set(cv, g@, newc);
                let cv2 = counts@.map_values(|e: (String, u64)| (e.0@, e.1));
                let seen2 = seen.push(g@);
                assert forall|g2: Seq<char>|
                    match #[trigger] assoc_find(cv2, g2) {
                        Some(c) => c == count_in(seen2, g2) && c >= 1,
                        None => count_in(seen2, g2) == 0,
                    } by {
                    lemma_count_in_push(seen, g2, g@);
                    if g2 == g@ {
                        assert(assoc_find(cv2, g2) == Some(newc));
                    } else {
                        assert(assoc_find(cv2, g2) == assoc_find(cv, g2));
                    }
                }
            }
            j += 1;
        }
        proof {
            assert(gsv.take(ng as int) =~= gsv);
        }
        t += 1;
    }
    proof {
        assert(texts.take(nt as int) =~= texts);
    }
    counts
}

/// Prefixes of the text list produce a prefix of the gram list.
proof fn lemma_all_grams_prefix(texts: Seq<Seq<char>>, n: int, t: int)
    requires
        0 <= t < texts.len(),
    ensures
        (all_grams(texts.take(t), n) + grams_of(texts[t], n)).len() <= all_grams(texts, n).len(),
    decreases texts.len() - t,
{
    assert(texts.take(t + 1).drop_last() =~= texts.take(t));
    assert(texts.take(t + 1).last() == texts[t]);
    if t + 1 == texts.len() {
        assert(texts.take(t + 1) =~= texts);
    } else {
        lemma_all_grams_len_mono(texts, n, t + 1);
    }
}

/// A longer prefix of the texts yields at least as many grams.
proof fn lemma_all_grams_len_mono(texts: Seq<Seq<char>>, n: int, t: int)
    requires
        0 <= t <= texts.len(),
    ensures
        all_grams(texts.take(t), n).len() <= all_grams(texts, n).len(),
    decreases texts.len() - t,
{
    if t == texts.len() {
        assert(texts.take(t) =~= texts);
    } else {
        lemma_all_grams_len_mono(texts, n, t + 1);
        assert(texts.take(t + 1).drop_last() =~= texts.take(t));
    }
}

/// Count stored for `g`, zero if absent.
fn counts_get(counts: &Vec<(String, u64)>, g: &str) -> (r: u64)
    ensures
        r as int == match assoc_find(counts@.map_values(|e: (String, u64)| (e.0@, e.1)), g@) {
            Some(c) => c as int,
            None => 0int,
        },
{
    let ghost cv = counts@.map_values(|e: (String, u64)| (e.0@, e.1));
    let n = counts.len();
    let mut i: usize = 0;
    while i < n
        invariant
            0 <= i <= n,
            n == counts@.len(),
            cv == counts@.map_values(|e: (String, u64)| (e.0@, e.1)),
            forall|j: int| 0 <= j < i ==> cv[j].0 != g@,
        decreases n - i,
    {
        if str_eq(counts[i].0.as_str(), g) {
            proof {
                lemma_assoc_find_skip(cv, g@, i as int);
                assert(cv.skip(i as int)[0] == cv[i as int]);
            }
            return counts[i].1;
        }
        proof {
            assert(cv[i as int].0 == counts@[i as int].0@);
        }
        i += 1;
    }
    proof {
        lemma_assoc_find_skip(cv, g@, n as int);
        assert(cv.skip(n as int) =~= Seq::<(Seq<char>, u64)>::empty());
    }
    0
}

/// Binds `g` to count `c`.
pub(crate) fn counts_set(counts: &mut Vec<(String, u64)>, g: &String, c: u64)
    ensures
        final(counts)@.map_values(|e: (String, u64)| (e.0@, e.1)) == assoc_set(
            old(counts)@.map_values(|e: (String, u64)| (e.0@, e.1)),
            g@,
            c,
        ),
{
    let ghost cv = old(counts)@.map_values(|e: (String, u64)| (e.0@, e.1));
    let n = counts.len();
    let mut i: usize = 0;
    while i < n
        invariant
            0 <= i <= n,
            n == counts@.len(),
            *counts == *old(counts),
            cv == counts@.map_values(|e: (String, u64)| (e.0@, e.1)),
            forall|j: int| 0 <= j < i ==> cv[j].0 != g@,
        decreases n - i,
    {
        if str_eq(counts[i].0.as_str(), g.as_str()) {
            counts[i] = (str_copy(g.as_str()), c);
            proof {
                crate::model::lemma_assoc_set_prefix(cv, g@, c, i as int);
                assert(counts@.map_values(|e: (String, u64)| (e.0@, e.1)) =~= assoc_set(
                    cv,
                    g@,
                    c,
                ));
            }
            return ;
        }
        proof {
            assert(cv[i as int].0 == counts@[i as int].0@);
        }
        i += 1;
    }
    counts.push((str_copy(g.as_str()), c));
    proof {
        crate::model::lemma_assoc_set_absent(cv, g@, c, n as int);
        assert(counts@.map_values(|e: (String, u64)| (e.0@, e.1)) =~= cv + seq![(g@, c)]);
        assert(counts@.map_values(|e: (String, u64)| (e.0@, e.1)) =~= assoc_set(cv, g@, c));
    }
}

/// The prior count a stored probability reconstructs: `ceil(p * n)` in fixed
/// point.
pub open spec fn recon_count(p: u64, total: u64) -> int {
    (p * total + PROB_SCALE - 1) as int / PROB_SCALE as int
}

/// The merged probability for a gram with `c` new occurrences, prior
/// probability `prior_p` over `prior_total` samples, re-estimated over
/// `new_total` samples; capped at the largest representable probability.
pub open spec fn merged_prob(prior_p: Option<u64>, prior_total: u64, c: int, new_total: int) -> u64 {
    let oc = match prior_p {
        Some(p) => recon_count(p, prior_total),
        None => 0int,
    };
    let raw = (c + oc) * PROB_SCALE / new_total;
    if raw > PROB_MAX {
        PROB_MAX
    } else {
        raw as u64
    }
}

/// Probability a possibly absent prior table stores for a gram.
pub open spec fn opt_prob(p: Option<GramTable>, g: Seq<char>) -> Option<u64> {
    match p {
        Some(t) => t.prob_of(g),
        None => None,
    }
}

/// Sample total of a possibly absent prior table.
pub open spec fn opt_total(p: Option<GramTable>) -> u64 {
    match p {
        Some(t) => t.total_samples,
        None => 0,
    }
}

/// How a trained table relates to the prior table it merged into: the totals
/// add, counted grams get the merged probability, others keep their prior
/// probability.
pub open spec fn table_trained(prior: Option<GramTable>, t: GramTable, texts: Seq<Seq<char>>, n: int) -> bool {
    &&& t.total_samples == opt_total(prior) + texts.len()
    &&& forall|g: Seq<char>|
        count_in(all_grams(texts, n), g) > 0 ==> #[trigger] t.prob_of(g) == Some(
            merged_prob(
                opt_prob(prior, g),
                opt_total(prior),
                count_in(all_grams(texts, n), g),
                t.total_samples as int,
            ),
        )
    &&& forall|g: Seq<char>|
        count_in(all_grams(texts, n), g) == 0 ==> #[trigger] t.prob_of(g) == opt_prob(prior, g)
}

/// A copy of a table, entry for entry.
pub fn table_clone(t: &GramTable) -> (r: GramTable)
    ensures
        r.total_samples == t.total_samples,
        r.probs() == t.probs(),
{
    let mut probabilities: Vec<(String, u64)> = Vec::new();
    let n = t.probabilities.len();
    let mut i: usize = 0;
    while i < n
        invariant
            0 <= i <= n,
            n == t.probabilities@.len(),
            probabilities@.map_values(|e: (String, u64)| (e.0@, e.1)) =~= t.probs().take(i as int),
        decreases n - i,
    {
        let entry = (str_copy(t.probabilities[i].0.as_str()), t.probabilities[i].1);
        let ghost prev = probabilities@.map_values(|e: (String, u64)| (e.0@, e.1));
        let ghost ev = (entry.0@, entry.1);
        probabilities.push(entry);
        proof {
            assert(t.probs()[i as int] == (t.probabilities@[i as int].0@, t.probabilities@[i as int].1));
            assert(probabilities@.map_values(|e: (String, u64)| (e.0@, e.1)) =~= prev.push(ev));
            assert(prev.push(ev) =~= t.probs().take(i + 1));
        }
        i += 1;
    }
    proof {
        assert(t.probs().take(n as int) =~= t.probs());
    }
    let r = GramTable { total_samples: t.total_samples, probabilities };
    proof {
        assert(r.probs() =~= t.probs());
    }
    r
}

impl LabelTables {
    /// The stored table for a label, by reference.
    pub fn get_ref(&self, label: &str) -> (r: Option<&GramTable>)
        ensures
            match r {
                Some(t) => self.table_of(label@) == Some(*t),
                None => self.table_of(label@) is None,
            },
    {
        let n = self.entries.len();
        let mut i: usize = 0;
        while i < n
            invariant
                0 <= i <= n,
                n == self.entries@.len(),
                forall|j: int| 0 <= j < i ==> self.tables()[j].0 != label@,
            decreases n - i,
        {
            if str_eq(self.entries[i].0.as_str(), label) {
                proof {
                    lemma_assoc_find_skip(self.tables(), label@, i as int);
                    assert(self.tables().skip(i as int)[0] == self.tables()[i as int]);
                }
                return Some(&self.entries[i].1);
            }
            proof {
                assert(self.tables()[i as int].0 == self.entries@[i as int].0@);
            }
            i += 1;
        }
        proof {
            lemma_assoc_find_skip(self.tables(), label@, n as int);
            assert(self.tables().skip(n as int) =~= Seq::<(Seq<char>, GramTable)>::empty());
        }
        None
    }

    /// Binds `label` to the given table.
    pub fn set_table(&mut self, label: &String, t: GramTable)
        ensures
            final(self).tables() == assoc_set(old(self).tables(), label@, t),
    {
        let n = self.entries.len();
        let mut i: usize = 0;
        while i < n
            invariant
                0 <= i <= n,
                n == self.entries@.len(),
                *self == *old(self),
                forall|j: int| 0 <= j < i ==> self.tables()[j].0 != label@,
            decreases n - i,
        {
            if str_eq(self.entries[i].0.as_str(), label.as_str()) {
                self.entries[i] = (str_copy(label.as_str()), t);
                proof {
                    crate::model::lemma_assoc_set_prefix(old(self).tables(), label@, t, i as int);
                    assert(self.tables() =~= assoc_set(old(self).tables(), label@, t));
                }
                return ;
            }
            proof {
                assert(self.tables()[i as int].0 == self.entries@[i as int].0@);
            }
            i += 1;
        }
        self.entries.push((str_copy(label.as_str()), t));
        proof {
            crate::model::lemma_assoc_set_absent(old(self).tables(), label@, t, n as int);
            assert(self.tables() =~= old(self).tables() + seq![(label@, t)]);
            assert(self.tables() =~= assoc_set(old(self).tables(), label@, t));
        }
    }
}

impl NGram {
    /// Trains one `(label, order)` table: counts the order-`num_grams` grams
    /// of the given texts and merges them into the stored prior table for
    /// the label, if any.
    pub fn train_gram_vector(&self, label_name: &String, input_data: &Vec<String>, num_grams: i8) -> (r:
        GramTable)
        requires
            num_grams >= 1,
            all_grams(input_data@.map_values(|t: String| t@), num_grams as int).len() < u64::MAX,
            opt_total(prior_of(self, label_name@, num_grams as int)) + input_data@.len()
                <= TOTAL_MAX,
            opt_wf(prior_of(self, label_name@, num_grams as int)),
        ensures
            table_trained(
                prior_of(self, label_name@, num_grams as int),
                r,
                input_data@.map_values(|t: String| t@),
                num_grams as int,
            ),
            r.wf(),
    {
        let ghost texts = input_data@.map_values(|t: String| t@);
        let ghost gall = all_grams(texts, num_grams as int);
        let counts = count_grams(input_data, num_grams as usize);
        let ghost cv = counts@.map_values(|e: (String, u64)| (e.0@, e.1));
        let g_index = (num_grams - 1) as usize;
        let mut wv: GramTable = if g_index < self.ngram_maps.len() {
            match self.ngram_maps[g_index].get_ref(label_name.as_str()) {
                Some(t) => table_clone(t),
                None => GramTable::new(),
            }
        } else {
            GramTable::new()
        };
        let ghost prior = prior_of(self, label_name@, num_grams as int);
        proof {
            assert(wv.total_samples == opt_total(prior));
            assert(forall|g: Seq<char>| #[trigger] wv.prob_of(g) == opt_prob(prior, g)) by {
                if prior is None {
                    assert(wv.probs() =~= Seq::<(Seq<char>, u64)>::empty());
                }
            }
            assert(assoc_distinct(wv.probs()) && forall|j: int|
                0 <= j < wv.probs().len() ==> (#[trigger] wv.probs()[j]).1 <= PROB_MAX) by {
                if prior is Some {
                    assert(prior->Some_0.wf());
                    assert(wv.probs() == prior->Some_0.probs());
                } else {
                    assert(wv.probs() =~= Seq::<(Seq<char>, u64)>::empty());
                }
            }
        }
        let prior_total = wv.total_samples;
        let input_length = input_data.len();
        let total_inputs = input_length as u64 + prior_total;
        wv.total_samples = total_inputs;
        let nc = counts.len();
        let mut i: usize = 0;
        while i < nc
            invariant
                0 <= i <= nc,
                nc == counts@.len(),
                cv == counts@.map_values(|e: (String, u64)| (e.0@, e.1)),
                counts_ok(cv, gall),
                gall == all_grams(texts, num_grams as int),
                opt_wf(prior),
                total_inputs == opt_total(prior) + texts.len(),
                total_inputs <= TOTAL_MAX,
                wv.total_samples == total_inputs,
                assoc_distinct(wv.probs()),
                forall|j: int|
                    0 <= j < wv.probs().len() ==> (#[trigger] wv.probs()[j]).1 <= PROB_MAX,
                forall|g: Seq<char>|
                    (exists|j: int| 0 <= j < i && (#[trigger] cv[j]).0 == g)
                        ==> #[trigger] wv.prob_of(g) == Some(
                        merged_prob(
                            opt_prob(prior, g),
                            opt_total(prior),
                            count_in(gall, g),
                            total_inputs as int,
                        ),
                    ),
                forall|g: Seq<char>|
                    !(exists|j: int| 0 <= j < i && (#[trigger] cv[j]).0 == g)
                        ==> #[trigger] wv.prob_of(g) == opt_prob(prior, g),
                prior_total == opt_total(prior),
            decreases nc - i,
        {
            let wd = &counts[i].0;
            let input_count = counts[i].1;
            proof {
                assert(cv[i as int] == (wd@, input_count));
            }
            let o_current_prob = wv.get_prob(wd.as_str());
            let current_prob: u64 = match o_current_prob {
                Some(p) => p,
                None => 0,
            };
            proof {
                // the key has not been processed yet, so it still holds the
                // prior probability
                assert(!(exists|j: int| 0 <= j < i && (#[trigger] cv[j]).0 == wd@)) by {
                    if exists|j: int| 0 <= j < i && (#[trigger] cv[j]).0 == wd@ {
                        let j = choose|j: int| 0 <= j < i && (#[trigger] cv[j]).0 == wd@;
                        assert(cv[j].0 == cv[i as int].0);
                    }
                }
                assert(wv.prob_of(wd@) == opt_prob(prior, wd@));
                if o_current_prob is Some {
                    lemma_prob_of_bound(prior->Some_0, wd@);
                }
                // the stored count is the occurrence count, at least one
                lemma_assoc_find_skip(cv, wd@, i as int);
                assert(cv.skip(i as int)[0] == cv[i as int]);
                assert(assoc_find(cv, wd@) == Some(input_count));
                assert(input_count == count_in(gall, wd@) && input_count >= 1);
                lemma_count_in_nonneg(gall, wd@);
                assert(texts.len() >= 1) by {
                    if texts.len() == 0 {
                        assert(gall =~= Seq::<Seq<char>>::empty());
                    }
                }
                assert(total_inputs >= 1);
            }
            proof {
                assert(current_prob <= PROB_MAX);
                assert(prior_total <= TOTAL_MAX);
                assert(current_prob * prior_total + (PROB_SCALE - 1) <= u64::MAX)
                    by (nonlinear_arith)
                    requires
                        current_prob <= PROB_MAX,
                        prior_total <= TOTAL_MAX,
                        PROB_MAX == 18_000_000_000,
                        TOTAL_MAX == 1_000_000_000,
                        PROB_SCALE == 1_000_000_000,
                ;
            }
            // reconstruct the prior count and re-estimate over the new total
            let current_count: u64 = (current_prob * prior_total + (PROB_SCALE - 1)) / PROB_SCALE;
            proof {
                assert(current_count as int == recon_count(current_prob, prior_total));
                assert(merged_prob(
                    opt_prob(prior, wd@),
                    opt_total(prior),
                    count_in(gall, wd@),
                    total_inputs as int,
                ) == {
                    let raw = (input_count + current_count) * PROB_SCALE / total_inputs as int;
                    if raw > PROB_MAX {
                        PROB_MAX
                    } else {
                        raw as u64
                    }
                });
            }
            let tc: u128 = input_count as u128 + current_count as u128;
            let raw: u128 = tc * (PROB_SCALE as u128) / (total_inputs as u128);
            let prob: u64 = if raw > PROB_MAX as u128 {
                PROB_MAX
            } else {
                proof {
                    assert(raw == (input_count + current_count) * PROB_SCALE / total_inputs as int)
                        by (nonlinear_arith)
                        requires
                            raw == (tc * PROB_SCALE) as int / total_inputs as int,
                            tc == input_count + current_count,
                            total_inputs >= 1,
                    ;
                }
                raw as u64
            };
            proof {
                assert(raw == (input_count + current_count) * PROB_SCALE / total_inputs as int)
                    by (nonlinear_arith)
                    requires
                        raw == (tc * PROB_SCALE) as int / total_inputs as int,
                        tc == input_count + current_count,
                        total_inputs >= 1,
                ;
                assert(prob == merged_prob(
                    opt_prob(prior, wd@),
                    opt_total(prior),
                    count_in(gall, wd@),
                    total_inputs as int,
                ));
            }
            let ghost old_probs = wv.probs();
            let ghost wv_before = wv;
            let wd_owned = str_copy(wd.as_str());
            wv.set_prob(wd_owned, prob);
            proof {
                crate::model::lemma_assoc_set(old_probs, wd@, prob);
                lemma_assoc_set_vals_u64(old_probs, wd@, prob);
                assert(wv.probs() == assoc_set(old_probs, wd@, prob));
                assert(wv.prob_of(wd@) == Some(prob));
                assert forall|g: Seq<char>|
                    (exists|j: int| 0 <= j < i + 1 && (#[trigger] cv[j]).0 == g)
                        implies #[trigger] wv.prob_of(g) == Some(
                    merged_prob(
                        opt_prob(prior, g),
                        opt_total(prior),
                        count_in(gall, g),
                        total_inputs as int,
                    ),
                ) by {
                    if g != wd@ {
                        let j = choose|j: int| 0 <= j < i + 1 && (#[trigger] cv[j]).0 == g;
                        assert(cv[i as int].0 == wd@);
                        assert(cv[j].0 == g && j < i);
                        assert(wv_before.prob_of(g) == Some(
                            merged_prob(
                                opt_prob(prior, g),
                                opt_total(prior),
                                count_in(gall, g),
                                total_inputs as int,
                            ),
                        ));
                        assert(assoc_find(wv.probs(), g) == assoc_find(old_probs, g));
                        assert(wv.prob_of(g) == wv_before.prob_of(g));
                    }
                }
                assert forall|g: Seq<char>|
                    !(exists|j: int| 0 <= j < i + 1 && (#[trigger] cv[j]).0 == g)
                        implies #[trigger] wv.prob_of(g) == opt_prob(prior, g) by {
                    assert(cv[i as int].0 == wd@);
                    assert(g != wd@);
                    assert(wv_before.prob_of(g) == opt_prob(prior, g));
                    assert(assoc_find(wv.probs(), g) == assoc_find(old_probs, g));
                    assert(wv.prob_of(g) == wv_before.prob_of(g));
                }
            }
            i += 1;
        }
        proof {
            assert forall|g: Seq<char>|
                count_in(gall, g) > 0 implies #[trigger] wv.prob_of(g) == Some(
                merged_prob(
                    opt_prob(prior, g),
                    opt_total(prior),
                    count_in(gall, g),
                    total_inputs as int,
                ),
            ) by {
                assert(assoc_find(cv, g) is Some) by {
                    if assoc_find(cv, g) is None {
                        assert(count_in(gall, g) == 0);
                    }
                }
                lemma_assoc_find_index(cv, g);
            }
            assert forall|g: Seq<char>|
                count_in(gall, g) == 0 implies #[trigger] wv.prob_of(g) == opt_prob(prior, g) by {
                if exists|j: int| 0 <= j < nc && (#[trigger] cv[j]).0 == g {
                    let j = choose|j: int| 0 <= j < nc && (#[trigger] cv[j]).0 == g;
                    lemma_assoc_find_at(cv, g, j);
                    assert(assoc_find(cv, g) is Some);
                    assert(count_in(gall, g) >= 1);
                }
            }
        }
        wv
    }
}

/// A found binding corresponds to some entry.
pub proof fn lemma_assoc_find_index<V>(s: Seq<(Seq<char>, V)>, k: Seq<char>)
    requires
        assoc_find(s, k) is Some,
    ensures
        exists|i: int| 0 <= i < s.len() && (#[trigger] s[i]).0 == k,
    decreases s.len(),
{
    if s.len() > 0 && s[0].0 != k {
        lemma_assoc_find_index(s.drop_first(), k);
        let i = choose|i: int| 0 <= i < s.drop_first().len() && (#[trigger] s.drop_first()[i]).0 == k;
        assert(s[i + 1].0 == k);
    }
}

/// An entry's key is always found.
pub proof fn lemma_assoc_find_at<V>(s: Seq<(Seq<char>, V)>, k: Seq<char>, j: int)
    requires
        0 <= j < s.len(),
        s[j].0 == k,
    ensures
        assoc_find(s, k) is Some,
    decreases j,
{
    if s[0].0 != k {
        assert(s.drop_first()[j - 1].0 == k);
        lemma_assoc_find_at(s.drop_first(), k, j - 1);
    }
}

/// Every probability after a rebinding is the new one or one of the old
/// ones.
pub(crate) proof fn lemma_assoc_set_vals_u64(s: Seq<(Seq<char>, u64)>, k: Seq<char>, v: u64)
    ensures
        forall|j: int|
            0 <= j < assoc_set(s, k, v).len() ==> (#[trigger] assoc_set(s, k, v)[j]).1 == v
                || exists|i: int| 0 <= i < s.len() && (#[trigger] s[i]).1 == assoc_set(s, k, v)[j].1,
    decreases s.len(),
{
    let u = assoc_set(s, k, v);
    if s.len() == 0 {
        assert(u =~= seq![(k, v)]);
    } else if s[0].0 == k {
        assert(u =~= seq![(k, v)] + s.drop_first());
        assert forall|j: int| 0 <= j < u.len() implies (#[trigger] u[j]).1 == v || exists|i: int|
            0 <= i < s.len() && (#[trigger] s[i]).1 == u[j].1 by {
            if j > 0 {
                assert(u[j] == s.drop_first()[j - 1]);
                assert(s[j].1 == u[j].1);
            }
        }
    } else {
        lemma_assoc_set_vals_u64(s.drop_first(), k, v);
        assert(u =~= seq![s[0]] + assoc_set(s.drop_first(), k, v));
        assert forall|j: int| 0 <= j < u.len() implies (#[trigger] u[j]).1 == v || exists|i: int|
            0 <= i < s.len() && (#[trigger] s[i]).1 == u[j].1 by {
            if j == 0 {
                assert(s[0].1 == u[0].1);
            } else {
                let sub = assoc_set(s.drop_first(), k, v);
                assert(u[j] == sub[j - 1]);
                if sub[j - 1].1 != v {
                    let i = choose|i: int|
                        0 <= i < s.drop_first().len() && (#[trigger] s.drop_first()[i]).1 == sub[j
                            - 1].1;
                    assert(s[i + 1].1 == u[j].1);
                }
            }
        }
    }
}

/// The stored prior table for `(label, order)`, if any.
pub open spec fn prior_of(m: &NGram, label: Seq<char>, n: int) -> Option<GramTable> {
    if 0 <= n - 1 < m.ngram_maps@.len() {
        assoc_find(m.ngram_maps@[n - 1].tables(), label)
    } else {
        None
    }
}

/// Well-formedness of a possibly absent prior table.
pub open spec fn opt_wf(p: Option<GramTable>) -> bool {
    match p {
        Some(t) => t.wf(),
        None => true,
    }
}

/// A stored probability respects the table's well-formedness bound.
pub proof fn lemma_prob_of_bound(t: GramTable, g: Seq<char>)
    requires
        t.wf(),
        t.prob_of(g) is Some,
    ensures
        t.prob_of(g)->Some_0 <= PROB_MAX,
{
    lemma_find_in_probs(t.probs(), g);
}

proof fn lemma_find_in_probs(s: Seq<(Seq<char>, u64)>, g: Seq<char>)
    requires
        assoc_find(s, g) is Some,
    ensures
        exists|i: int| 0 <= i < s.len() && (#[trigger] s[i]).1 == assoc_find(s, g)->Some_0,
    decreases s.len(),
{
    if s.len() > 0 && s[0].0 != g {
        lemma_find_in_probs(s.drop_first(), g);
        let i = choose|i: int|
            0 <= i < s.drop_first().len() && (#[trigger] s.drop_first()[i]).1 == assoc_find(
                s.drop_first(),
                g,
            )->Some_0;
        assert(s[i + 1].1 == assoc_find(s, g)->Some_0);
    }
}

/// Whether some pair carries this (nonempty) label.
pub open spec fn has_label(inputs: Seq<InputTup>, lbl: Seq<char>) -> bool {
    lbl.len() > 0 && exists|j: int| 0 <= j < inputs.len() && (#[trigger] inputs[j]).0@ == lbl
}

/// The texts of all pairs carrying this label, in input order.
pub open spec fn texts_of(inputs: Seq<InputTup>, lbl: Seq<char>) -> Seq<Seq<char>> {
    inputs.filter(|p: InputTup| p.0@ == lbl).map_values(|p: InputTup| p.1@)
}

/// View of a grouped input list: label, then its texts.
pub open spec fn groups_view(groups: Seq<(String, Vec<String>)>) -> Seq<(Seq<char>, Seq<Seq<char>>)> {
    groups.map_values(|e: (String, Vec<String>)| (e.0@, e.1@.map_values(|t: String| t@)))
}

/// How one more pair changes the label bookkeeping.
proof fn lemma_texts_step(pre: Seq<InputTup>, p: InputTup, lbl: Seq<char>)
    ensures
        texts_of(pre.push(p), lbl) == if p.0@ == lbl {
            texts_of(pre, lbl).push(p.1@)
        } else {
            texts_of(pre, lbl)
        },
        lbl.len() > 0 ==> has_label(pre.push(p), lbl) == (has_label(pre, lbl) || p.0@ == lbl),
{
    reveal(Seq::filter);
    let s2 = pre.push(p);
    assert(s2.drop_last() =~= pre);
    assert(s2.last() == p);
    let f = |q: InputTup| q.0@ == lbl;
    if p.0@ == lbl {
        assert(s2.filter(f) == pre.filter(f).push(p));
        assert(texts_of(s2, lbl) =~= texts_of(pre, lbl).push(p.1@));
    } else {
        assert(s2.filter(f) == pre.filter(f));
        assert(texts_of(s2, lbl) =~= texts_of(pre, lbl));
    }
    if lbl.len() > 0 {
        if has_label(pre, lbl) {
            let j = choose|j: int| 0 <= j < pre.len() && (#[trigger] pre[j]).0@ == lbl;
            assert(s2[j].0@ == lbl);
        }
        if p.0@ == lbl {
            assert(s2[pre.len() as int].0@ == lbl);
        }
        if has_label(s2, lbl) && !(p.0@ == lbl) {
            let j = choose|j: int| 0 <= j < s2.len() && (#[trigger] s2[j]).0@ == lbl;
            assert(j < pre.len());
            assert(pre[j].0@ == lbl);
        }
    }
}

/// Groups the pairs by their labels, dropping empty labels; labels appear in
/// first-occurrence order, each with its texts in input order.
fn group_inputs(input_data: &Vec<InputTup>) -> (r: Vec<(String, Vec<String>)>)
    ensures
        assoc_distinct(groups_view(r@)),
        forall|lbl: Seq<char>|
            lbl.len() > 0 ==> #[trigger] assoc_find(groups_view(r@), lbl) == (if has_label(
                input_data@,
                lbl,
            ) {
                Some(texts_of(input_data@, lbl))
            } else {
                None
            }),
        forall|k: int| 0 <= k < r@.len() ==> (#[trigger] groups_view(r@)[k]).0.len() > 0,
{
    let mut groups: Vec<(String, Vec<String>)> = Vec::new();
    let n = input_data.len();
    let mut i: usize = 0;
    proof {
        reveal(Seq::filter);
        assert(groups_view(groups@) =~= Seq::<(Seq<char>, Seq<Seq<char>>)>::empty());
        assert(input_data@.take(0) =~= Seq::<InputTup>::empty());
        assert forall|lbl: Seq<char>| lbl.len() > 0 implies #[trigger] texts_of(
            input_data@.take(0),
            lbl,
        ) =~= Seq::<Seq<char>>::empty() by {
            assert(input_data@.take(0).filter(|p: InputTup| p.0@ == lbl)
                =~= Seq::<InputTup>::empty());
        }
    }
    while i < n
        invariant
            0 <= i <= n,
            n == input_data@.len(),
            assoc_distinct(groups_view(groups@)),
            forall|lbl: Seq<char>|
                lbl.len() > 0 ==> #[trigger] assoc_find(groups_view(groups@), lbl) == (if has_label(
                    input_data@.take(i as int),
                    lbl,
                ) {
                    Some(texts_of(input_data@.take(i as int), lbl))
                } else {
                    None
                }),
            forall|k: int| 0 <= k < groups@.len() ==> (#[trigger] groups_view(groups@)[k]).0.len() > 0,
        decreases n - i,
    {
        let ghost gv = groups_view(groups@);
        let ghost pre = input_data@.take(i as int);
        let ghost post = input_data@.take(i + 1);
        let pair = &input_data[i];
        proof {
            assert(post =~= pre.push(input_data@[i as int]));
            assert forall|lbl: Seq<char>| lbl.len() > 0 implies (#[trigger] texts_of(post, lbl)
                == if pair.0@ == lbl {
                texts_of(pre, lbl).push(pair.1@)
            } else {
                texts_of(pre, lbl)
            }) && has_label(post, lbl) == (has_label(pre, lbl) || pair.0@ == lbl) by {
                lemma_texts_step(pre, input_data@[i as int], lbl);
            }
        }
        if pair.0.as_str().unicode_len() == 0 {
            proof {
                assert(pair.0@.len() == 0);
                assert forall|lbl: Seq<char>| lbl.len() > 0 implies #[trigger] assoc_find(
                    groups_view(groups@),
                    lbl,
                ) == (if has_label(post, lbl) {
                    Some(texts_of(post, lbl))
                } else {
                    None
                }) by {
                    assert(pair.0@ != lbl);
                }
            }
            i += 1;
            continue ;
        }
        // find the label's group
        let ng = groups.len();
        let mut k: usize = 0;
        let mut found = false;
        while k < ng && !found
            invariant
                0 <= k <= ng,
                ng == groups@.len(),
                gv == groups_view(groups@),
                !found ==> forall|j: int| 0 <= j < k ==> gv[j].0 != pair.0@,
                found ==> k < ng && gv[k as int].0 == pair.0@,
            decreases ng - k + if found {
                0int
            } else {
                1int
            },
        {
            if str_eq(groups[k].0.as_str(), pair.0.as_str()) {
                found = true;
            } else {
                proof {
                    assert(gv[k as int].0 == groups@[k as int].0@);
                }
                k += 1;
            }
        }
        if found {
            let ghost g0 = groups@;
            let (lab, mut txts) = groups.remove(k);
            let ghost txts0 = txts@;
            txts.push(str_copy(pair.1.as_str()));
            groups.insert(k, (lab, txts));
            proof {
                assert(lab == g0[k as int].0);
                assert(txts0 == g0[k as int].1@);
                assert(txts@ =~= txts0.push(txts@.last()));
                assert(txts@.last()@ == pair.1@);
                assert(groups@ =~= g0.update(k as int, (lab, txts)));
                lemma_assoc_find_skip(gv, pair.0@, k as int);
                assert(gv.skip(k as int)[0] == gv[k as int]);
                assert(assoc_find(gv, pair.0@) == Some(gv[k as int].1));
                assert(gv[k as int].1 == texts_of(pre, pair.0@));
                let gv2 = groups_view(groups@);
                let e = (pair.0@, texts_of(post, pair.0@));
                assert(gv2 =~= gv.update(k as int, e)) by {
                    assert(gv2.len() == gv.len());
                    assert(forall|j: int|
                        0 <= j < gv.len() && j != k ==> #[trigger] gv2[j] == gv[j]);
                    assert(gv2[k as int].0 == lab@);
                    assert(lab@ == gv[k as int].0);
                    assert(gv2[k as int].1 =~= txts0.map_values(|t: String| t@).push(pair.1@));
                    assert(txts0.map_values(|t: String| t@) == gv[k as int].1);
                    assert(texts_of(post, pair.0@) == texts_of(pre, pair.0@).push(pair.1@));
                }
                lemma_assoc_update(gv, k as int, e);
                assert forall|lbl: Seq<char>| lbl.len() > 0 implies #[trigger] assoc_find(
                    gv2,
                    lbl,
                ) == (if has_label(post, lbl) {
                    Some(texts_of(post, lbl))
                } else {
                    None
                }) by {
                    if lbl != pair.0@ {
                        assert(assoc_find(gv2, lbl) == assoc_find(gv, lbl));
                    }
                }
                assert forall|k2: int| 0 <= k2 < groups@.len() implies (#[trigger] groups_view(
                    groups@,
                )[k2]).0.len() > 0 by {
                    if k2 != k {
                        assert(gv2[k2] == gv[k2]);
                    }
                }
            }
        } else {
            groups.push((str_copy(pair.0.as_str()), vec![str_copy(pair.1.as_str())]));
            proof {
                lemma_assoc_find_skip(gv, pair.0@, ng as int);
                assert(gv.skip(ng as int) =~= Seq::<(Seq<char>, Seq<Seq<char>>)>::empty());
                assert(assoc_find(gv, pair.0@) is None);
                assert(!has_label(pre, pair.0@)) by {
                    if has_label(pre, pair.0@) {
                        assert(assoc_find(gv, pair.0@) == Some(texts_of(pre, pair.0@)));
                    }
                }
                assert(texts_of(pre, pair.0@) =~= Seq::<Seq<char>>::empty()) by {
                    lemma_filter_empty_of_absent(pre, pair.0@);
                }
                let gv2 = groups_view(groups@);
                let e = (pair.0@, texts_of(post, pair.0@));
                assert(gv2 =~= gv + seq![e]) by {
                    assert(gv2.len() == gv.len() + 1);
                    assert(forall|j: int| 0 <= j < gv.len() ==> #[trigger] gv2[j] == gv[j]);
                    assert(gv2[gv.len() as int].0 == pair.0@);
                    assert(gv2[gv.len() as int].1 =~= seq![pair.1@]);
                    assert(texts_of(post, pair.0@) == texts_of(pre, pair.0@).push(pair.1@));
                    assert(texts_of(pre, pair.0@).push(pair.1@) =~= seq![pair.1@]);
                }
                lemma_assoc_append(gv, e);
                assert forall|lbl: Seq<char>| lbl.len() > 0 implies #[trigger] assoc_find(
                    gv2,
                    lbl,
                ) == (if has_label(post, lbl) {
                    Some(texts_of(post, lbl))
                } else {
                    None
                }) by {
                    if lbl != pair.0@ {
                        assert(assoc_find(gv2, lbl) == assoc_find(gv, lbl));
                    }
                }
                assert(assoc_distinct(gv2)) by {
                    assert forall|a: int, b: int| 0 <= a < b < gv2.len() implies (
                    #[trigger] gv2[a]).0 != (#[trigger] gv2[b]).0 by {
                        if b == gv2.len() - 1 {
                            assert(gv2[a] == gv[a]);
                            if gv[a].0 == pair.0@ {
                                lemma_assoc_find_at(gv, pair.0@, a);
                            }
                        } else {
                            assert(gv2[a] == gv[a] && gv2[b] == gv[b]);
                        }
                    }
                }
            }
        }
        i += 1;
    }
    proof {
        assert(input_data@.take(n as int) =~= input_data@);
    }
    groups
}

/// A label carried by no pair has no texts.
proof fn lemma_filter_empty_of_absent(s: Seq<InputTup>, k: Seq<char>)
    requires
        forall|j: int| 0 <= j < s.len() ==> (#[trigger] s[j]).0@ != k,
    ensures
        texts_of(s, k) == Seq::<Seq<char>>::empty(),
    decreases s.len(),
{
    reveal(Seq::filter);
    if s.len() > 0 {
        assert(forall|j: int| 0 <= j < s.drop_last().len() ==> (#[trigger] s.drop_last()[j]).0@ != k);
        lemma_filter_empty_of_absent(s.drop_last(), k);
        assert(s.drop_last().push(s.last()) =~= s);
        lemma_texts_step(s.drop_last(), s.last(), k);
        assert(s.last().0@ != k);
    }
}

/// Updating an entry in place rebinds its key and keeps the others.
pub(crate) proof fn lemma_assoc_update<V>(s: Seq<(Seq<char>, V)>, k: int, e: (Seq<char>, V))
    requires
        0 <= k < s.len(),
        s[k].0 == e.0,
        assoc_distinct(s),
    ensures
        assoc_find(s.update(k, e), e.0) == Some(e.1),
        forall|l2: Seq<char>| l2 != e.0 ==> #[trigger] assoc_find(s.update(k, e), l2) == assoc_find(s, l2),
        assoc_distinct(s.update(k, e)),
    decreases k,
{
    let u = s.update(k, e);
    if k == 0 {
        assert(u[0] == e);
        assert(u.drop_first() =~= s.drop_first());
        assert forall|l2: Seq<char>| l2 != e.0 implies #[trigger] assoc_find(u, l2) == assoc_find(
            s,
            l2,
        ) by {
            assert(s[0].0 == e.0);
        }
    } else {
        assert(u[0] == s[0]);
        assert(u.drop_first() =~= s.drop_first().update(k - 1, e));
        assert(s.drop_first()[k - 1].0 == e.0);
        assert(assoc_distinct(s.drop_first())) by {
            assert(forall|a: int|
                0 <= a < s.drop_first().len() ==> #[trigger] s.drop_first()[a] == s[a + 1]);
        }
        lemma_assoc_update(s.drop_first(), k - 1, e);
        assert(s[0].0 != e.0);
        assert(assoc_find(u, e.0) == assoc_find(u.drop_first(), e.0));
        assert forall|l2: Seq<char>| l2 != e.0 implies #[trigger] assoc_find(u, l2) == assoc_find(
            s,
            l2,
        ) by {
            if u[0].0 == l2 {
            } else {
                assert(assoc_find(u, l2) == assoc_find(u.drop_first(), l2));
                assert(assoc_find(s, l2) == assoc_find(s.drop_first(), l2));
            }
        }
        assert forall|a: int, b: int| 0 <= a < b < u.len() implies (#[trigger] u[a]).0 != (#[trigger] u[b]).0 by {
            if a == 0 {
                if b == k {
                    assert(u[b].0 == s[k].0);
                } else {
                    assert(u[b].0 == s[b].0);
                }
                assert(u[0].0 == s[0].0);
            } else {
                assert(u.drop_first()[a - 1] == u[a] && u.drop_first()[b - 1] == u[b]);
            }
        }
    }
}

/// Appending a fresh key binds it and keeps the others.
pub(crate) proof fn lemma_assoc_append<V>(s: Seq<(Seq<char>, V)>, e: (Seq<char>, V))
    requires
        assoc_find(s, e.0) is None,
    ensures
        assoc_find(s + seq![e], e.0) == Some(e.1),
        forall|l2: Seq<char>| l2 != e.0 ==> #[trigger] assoc_find(s + seq![e], l2) == assoc_find(s, l2),
    decreases s.len(),
{
    let u = s + seq![e];
    if s.len() == 0 {
        assert(u =~= seq![e]);
        assert(u[0] == e);
        assert(u.drop_first() =~= Seq::<(Seq<char>, V)>::empty());
        assert forall|l2: Seq<char>| l2 != e.0 implies #[trigger] assoc_find(u, l2) == assoc_find(
            s,
            l2,
        ) by {
            assert(assoc_find(u, l2) == assoc_find(u.drop_first(), l2));
        }
    } else {
        assert(u[0] == s[0]);
        assert(u.drop_first() =~= s.drop_first() + seq![e]);
        lemma_assoc_append(s.drop_first(), e);
        assert forall|l2: Seq<char>| l2 != e.0 implies #[trigger] assoc_find(u, l2) == assoc_find(
            s,
            l2,
        ) by {
            if u[0].0 == l2 {
            } else {
                assert(assoc_find(u, l2) == assoc_find(u.drop_first(), l2));
                assert(assoc_find(s, l2) == assoc_find(s.drop_first(), l2));
            }
        }
    }
}

/// Two table maps that agree label for label on totals and probabilities.
pub open spec fn tables_equiv(a: LabelTables, b: LabelTables) -> bool {
    &&& a.tables().len() == b.tables().len()
    &&& forall|i: int|
        0 <= i < a.tables().len() ==> (#[trigger] a.tables()[i]).0 == (#[trigger] b.tables()[i]).0
            && a.tables()[i].1.total_samples == b.tables()[i].1.total_samples
            && a.tables()[i].1.probs() == b.tables()[i].1.probs()
}

/// A copy of a table map, label for label.
pub fn tables_clone(m: &LabelTables) -> (r: LabelTables)
    ensures
        tables_equiv(*m, r),
{
    let mut entries: Vec<(String, GramTable)> = Vec::new();
    let n = m.entries.len();
    let mut i: usize = 0;
    while i < n
        invariant
            0 <= i <= n,
            n == m.entries@.len(),
            entries@.len() == i,
            forall|j: int|
                0 <= j < i ==> (#[trigger] entries@[j]).0@ == m.tables()[j].0 && entries@[j].1.total_samples
                    == m.tables()[j].1.total_samples && entries@[j].1.probs()
                    == m.tables()[j].1.probs(),
        decreases n - i,
    {
        let entry = (str_copy(m.entries[i].0.as_str()), table_clone(&m.entries[i].1));
        entries.push(entry);
        proof {
            assert(m.tables()[i as int] == (m.entries@[i as int].0@, m.entries@[i as int].1));
        }
        i += 1;
    }
    let r = LabelTables { entries };
    proof {
        assert(forall|j: int|
            0 <= j < n ==> (#[trigger] r.tables()[j]) == (r.entries@[j].0@, r.entries@[j].1));
    }
    r
}

/// Equivalent table maps store equivalent tables under every label.
pub proof fn lemma_find_equiv(a: LabelTables, b: LabelTables, lbl: Seq<char>)
    requires
        tables_equiv(a, b),
    ensures
        assoc_find(a.tables(), lbl) is Some <==> assoc_find(b.tables(), lbl) is Some,
        assoc_find(a.tables(), lbl) is Some ==> {
            let ta = assoc_find(a.tables(), lbl)->Some_0;
            let tb = assoc_find(b.tables(), lbl)->Some_0;
            ta.total_samples == tb.total_samples && ta.probs() == tb.probs()
        },
    decreases a.tables().len(),
{
    let sa = a.tables();
    let sb = b.tables();
    lemma_find_equiv_seq(sa, sb, lbl);
}

proof fn lemma_find_equiv_seq(sa: Seq<(Seq<char>, GramTable)>, sb: Seq<(Seq<char>, GramTable)>, lbl: Seq<char>)
    requires
        sa.len() == sb.len(),
        forall|i: int|
            0 <= i < sa.len() ==> (#[trigger] sa[i]).0 == (#[trigger] sb[i]).0 && sa[i].1.total_samples
                == sb[i].1.total_samples && sa[i].1.probs() == sb[i].1.probs(),
    ensures
        assoc_find(sa, lbl) is Some <==> assoc_find(sb, lbl) is Some,
        assoc_find(sa, lbl) is Some ==> {
            let ta = assoc_find(sa, lbl)->Some_0;
            let tb = assoc_find(sb, lbl)->Some_0;
            ta.total_samples == tb.total_samples && ta.probs() == tb.probs()
        },
    decreases sa.len(),
{
    if sa.len() > 0 {
        assert(sa[0].0 == sb[0].0);
        if sa[0].0 != lbl {
            assert(forall|i: int|
                0 <= i < sa.drop_first().len() ==> (#[trigger] sa.drop_first()[i]) == sa[i + 1]
                    && (#[trigger] sb.drop_first()[i]) == sb[i + 1]);
            lemma_find_equiv_seq(sa.drop_first(), sb.drop_first(), lbl);
        }
    }
}

impl NGram {
    /// Trains every `(label, order)` table from the labelled pairs: pairs
    /// are grouped by their nonempty labels, and for each order up to
    /// `max_grams` each label's gram counts are merged into its stored
    /// table.  Labels absent from the input, and orders beyond `max_grams`,
    /// keep their tables.
    pub fn train(&mut self, input_data: &Vec<InputTup>)
        requires
            old(self).wf(),
            forall|o: int, lbl: Seq<char>|
                1 <= o <= old(self).max_grams ==> all_grams(
                    texts_of(input_data@, lbl),
                    o,
                ).len() < u64::MAX && opt_total(#[trigger] prior_of(old(self), lbl, o))
                    + texts_of(input_data@, lbl).len() <= TOTAL_MAX,
        ensures
            final(self).wf(),
            final(self).max_grams == old(self).max_grams,
            final(self).ngram_maps@.len() == if old(self).max_grams > old(self).ngram_maps@.len() {
                old(self).max_grams as int
            } else {
                old(self).ngram_maps@.len() as int
            },
            forall|o: int, lbl: Seq<char>|
                1 <= o <= final(self).max_grams && has_label(input_data@, lbl)
                    ==> (#[trigger] prior_of(final(self), lbl, o)) is Some && table_trained(
                    prior_of(old(self), lbl, o),
                    prior_of(final(self), lbl, o)->Some_0,
                    texts_of(input_data@, lbl),
                    o,
                ),
            forall|o: int, lbl: Seq<char>|
                1 <= o <= final(self).max_grams && !has_label(input_data@, lbl) ==> opt_same(
                    prior_of(old(self), lbl, o),
                    #[trigger] prior_of(final(self), lbl, o),
                ),
            forall|o: int, lbl: Seq<char>|
                final(self).max_grams < o && 1 <= o ==> opt_same(
                    prior_of(old(self), lbl, o),
                    #[trigger] prior_of(final(self), lbl, o),
                ),
    {
        let groups = group_inputs(input_data);
        let ghost gv = groups_view(groups@);
        let maxg: usize = if self.max_grams < 1 {
            0
        } else {
            self.max_grams as usize
        };
        let old_len = self.ngram_maps.len();
        let mut new_maps: Vec<LabelTables> = Vec::new();
        let mut o: usize = 1;
        while o <= maxg
            invariant
                1 <= o <= maxg + 1,
                maxg == if old(self).max_grams < 1 {
                    0int
                } else {
                    old(self).max_grams as int
                },
                *self == *old(self),
                self.wf(),
                old_len == self.ngram_maps@.len(),
                gv == groups_view(groups@),
                assoc_distinct(gv),
                forall|lbl: Seq<char>|
                    lbl.len() > 0 ==> #[trigger] assoc_find(gv, lbl) == (if has_label(
                        input_data@,
                        lbl,
                    ) {
                        Some(texts_of(input_data@, lbl))
                    } else {
                        None
                    }),
                forall|k: int| 0 <= k < groups@.len() ==> (#[trigger] gv[k]).0.len() > 0,
                forall|o2: int, lbl: Seq<char>|
                    1 <= o2 <= old(self).max_grams ==> all_grams(
                        texts_of(input_data@, lbl),
                        o2,
                    ).len() < u64::MAX && opt_total(#[trigger] prior_of(old(self), lbl, o2))
                        + texts_of(input_data@, lbl).len() <= TOTAL_MAX,
                new_maps@.len() == o - 1,
                forall|o2: int, lbl: Seq<char>|
                    1 <= o2 < o && has_label(input_data@, lbl) ==> (#[trigger] assoc_find(
                        new_maps@[o2 - 1].tables(),
                        lbl,
                    )) is Some && table_trained(
                        prior_of(old(self), lbl, o2),
                        assoc_find(new_maps@[o2 - 1].tables(), lbl)->Some_0,
                        texts_of(input_data@, lbl),
                        o2,
                    ),
                forall|o2: int, lbl: Seq<char>|
                    1 <= o2 < o && !has_label(input_data@, lbl) ==> opt_same(
                        prior_of(old(self), lbl, o2),
                        #[trigger] assoc_find(new_maps@[o2 - 1].tables(), lbl),
                    ),
                forall|o2: int| 1 <= o2 < o ==> (#[trigger] new_maps@[o2 - 1]).wf(),
            decreases maxg + 1 - o,
        {
            let mut lt: LabelTables = if o - 1 < self.ngram_maps.len() {
                tables_clone(&self.ngram_maps[o - 1])
            } else {
                LabelTables::new()
            };
            proof {
                assert(lt.wf()) by {
                    if o - 1 < self.ngram_maps@.len() {
                        lemma_equiv_wf(self.ngram_maps@[o - 1], lt);
                    }
                }
                assert forall|lbl: Seq<char>| opt_same(
                    prior_of(old(self), lbl, o as int),
                    #[trigger] assoc_find(lt.tables(), lbl),
                ) by {
                    if o - 1 < self.ngram_maps@.len() {
                        lemma_find_equiv(self.ngram_maps@[o - 1], lt, lbl);
                    } else {
                        assert(lt.tables() =~= Seq::<(Seq<char>, GramTable)>::empty());
                    }
                }
            }
            let ng = groups.len();
            let mut k: usize = 0;
            while k < ng
                invariant
                    0 <= k <= ng,
                    1 <= o <= maxg,
                    maxg == if old(self).max_grams < 1 {
                        0int
                    } else {
                        old(self).max_grams as int
                    },
                    ng == groups@.len(),
                    *self == *old(self),
                    self.wf(),
                    gv == groups_view(groups@),
                    assoc_distinct(gv),
                    forall|lbl: Seq<char>|
                        lbl.len() > 0 ==> #[trigger] assoc_find(gv, lbl) == (if has_label(
                            input_data@,
                            lbl,
                        ) {
                            Some(texts_of(input_data@, lbl))
                        } else {
                            None
                        }),
                    forall|k2: int| 0 <= k2 < groups@.len() ==> (#[trigger] gv[k2]).0.len() > 0,
                    forall|o2: int, lbl: Seq<char>|
                        1 <= o2 <= old(self).max_grams ==> all_grams(
                            texts_of(input_data@, lbl),
                            o2,
                        ).len() < u64::MAX && opt_total(#[trigger] prior_of(old(self), lbl, o2))
                            + texts_of(input_data@, lbl).len() <= TOTAL_MAX,
                    lt.wf(),
                    forall|k2: int|
                        0 <= k2 < k ==> (#[trigger] assoc_find(lt.tables(), gv[k2].0)) is Some
                            && table_trained(
                            prior_of(old(self), gv[k2].0, o as int),
                            assoc_find(lt.tables(), gv[k2].0)->Some_0,
                            texts_of(input_data@, gv[k2].0),
                            o as int,
                        ),
                    forall|lbl: Seq<char>|
                        !(exists|k2: int| 0 <= k2 < k && (#[trigger] gv[k2]).0 == lbl) ==> opt_same(
                            prior_of(old(self), lbl, o as int),
                            #[trigger] assoc_find(lt.tables(), lbl),
                        ),
                decreases ng - k,
            {
                let ghost lbl = gv[k as int].0;
                proof {
                    assert(gv[k as int] == (groups@[k as int].0@, groups@[k as int].1@.map_values(
                        |t: String| t@,
                    )));
                    assert(lbl.len() > 0);
                    lemma_assoc_find_at(gv, lbl, k as int);
                    assert(assoc_find(gv, lbl) is Some);
                    assert(has_label(input_data@, lbl));
                    assert(assoc_find(gv, lbl) == Some(texts_of(input_data@, lbl))) by {
                        lemma_find_is_entry(gv, lbl);
                    }
                    lemma_assoc_find_skip(gv, lbl, k as int);
                    assert(gv.skip(k as int)[0] == gv[k as int]);
                    assert(gv[k as int].1 == texts_of(input_data@, lbl));
                    // the label has not been trained yet at this order
                    assert(!(exists|k2: int| 0 <= k2 < k && (#[trigger] gv[k2]).0 == lbl)) by {
                        if exists|k2: int| 0 <= k2 < k && (#[trigger] gv[k2]).0 == lbl {
                            let k2 = choose|k2: int| 0 <= k2 < k && (#[trigger] gv[k2]).0 == lbl;
                            assert(gv[k2].0 == gv[k as int].0);
                        }
                    }
                    assert(opt_same(prior_of(old(self), lbl, o as int), assoc_find(lt.tables(), lbl)));
                    lemma_prior_wf(self, lbl, o as int);
                    assert(o <= old(self).max_grams);
                }
                let bag = self.train_gram_vector(&groups[k].0, &groups[k].1, o as i8);
                proof {
                    assert(groups@[k as int].1@.map_values(|t: String| t@) == texts_of(
                        input_data@,
                        lbl,
                    ));
                }
                let ghost lt_before = lt;
                lt.set_table(&groups[k].0, bag);
                proof {
                    crate::model::lemma_assoc_set(lt_before.tables(), lbl, bag);
                    assert(lt.tables() == assoc_set(lt_before.tables(), lbl, bag));
                    assert(assoc_find(lt.tables(), lbl) == Some(bag));
                    assert(table_trained(
                        prior_of(old(self), lbl, o as int),
                        bag,
                        texts_of(input_data@, lbl),
                        o as int,
                    )) by {
                        lemma_trained_of_same(
                            prior_of(old(self), lbl, o as int),
                            assoc_find(lt_before.tables(), lbl),
                            bag,
                            texts_of(input_data@, lbl),
                            o as int,
                        );
                    }
                    assert forall|k2: int|
                        0 <= k2 < k + 1 implies (#[trigger] assoc_find(lt.tables(), gv[k2].0)) is Some
                            && table_trained(
                            prior_of(old(self), gv[k2].0, o as int),
                            assoc_find(lt.tables(), gv[k2].0)->Some_0,
                            texts_of(input_data@, gv[k2].0),
                            o as int,
                        ) by {
                        if gv[k2].0 != lbl {
                            assert(k2 < k);
                            assert(assoc_find(lt.tables(), gv[k2].0) == assoc_find(
                                lt_before.tables(),
                                gv[k2].0,
                            ));
                        }
                    }
                    assert forall|lbl2: Seq<char>|
                        !(exists|k2: int| 0 <= k2 < k + 1 && (#[trigger] gv[k2]).0 == lbl2)
                            implies opt_same(
                            prior_of(old(self), lbl2, o as int),
                            #[trigger] assoc_find(lt.tables(), lbl2),
                        ) by {
                        assert(gv[k as int].0 == lbl);
                        assert(lbl2 != lbl);
                        assert(assoc_find(lt.tables(), lbl2) == assoc_find(
                            lt_before.tables(),
                            lbl2,
                        ));
                    }
                    assert(lt.wf()) by {
                        lemma_set_table_wf(lt_before, lt, lbl, bag);
                    }
                }
                k += 1;
            }
            let ghost prev_maps = new_maps@;
            new_maps.push(lt);
            proof {
                assert(new_maps@.last() == lt);
                assert(forall|o2: int| 1 <= o2 < o ==> #[trigger] new_maps@[o2 - 1] == prev_maps[o2 - 1]);
                assert forall|lbl: Seq<char>| has_label(input_data@, lbl) implies (
                #[trigger] assoc_find(new_maps@[o - 1].tables(), lbl)) is Some && table_trained(
                    prior_of(old(self), lbl, o as int),
                    assoc_find(new_maps@[o - 1].tables(), lbl)->Some_0,
                    texts_of(input_data@, lbl),
                    o as int,
                ) by {
                    assert(new_maps@[o - 1] == lt);
                    assert(lbl.len() > 0);
                    assert(assoc_find(gv, lbl) == Some(texts_of(input_data@, lbl)));
                    lemma_assoc_find_index(gv, lbl);
                    let k2 = choose|k2: int| 0 <= k2 < gv.len() && (#[trigger] gv[k2]).0 == lbl;
                    assert(assoc_find(lt.tables(), gv[k2].0) is Some);
                }
                assert forall|lbl: Seq<char>| !has_label(input_data@, lbl) implies opt_same(
                    prior_of(old(self), lbl, o as int),
                    #[trigger] assoc_find(new_maps@[o - 1].tables(), lbl),
                ) by {
                    assert(new_maps@[o - 1] == lt);
                    assert(!(exists|k2: int| 0 <= k2 < ng && (#[trigger] gv[k2]).0 == lbl)) by {
                        if exists|k2: int| 0 <= k2 < ng && (#[trigger] gv[k2]).0 == lbl {
                            let k2 = choose|k2: int|
                                0 <= k2 < ng && (#[trigger] gv[k2]).0 == lbl;
                            lemma_assoc_find_at(gv, lbl, k2);
                            assert(gv[k2].0.len() > 0);
                            assert(assoc_find(gv, lbl) is Some);
                        }
                    }
                }
            }
            o += 1;
        }
        // keep any stored orders beyond max_grams
        let mut t: usize = maxg;
        while t < old_len
            invariant
                maxg <= t,
                t as int <= if old_len >= maxg {
                    old_len as int
                } else {
                    maxg as int
                },
                old_len == self.ngram_maps@.len(),
                *self == *old(self),
                self.wf(),
                new_maps@.len() == t,
                forall|o2: int|
                    maxg < o2 <= t ==> tables_equiv(
                        old(self).ngram_maps@[o2 - 1],
                        #[trigger] new_maps@[o2 - 1],
                    ),
                forall|o2: int| maxg < o2 <= t ==> (#[trigger] new_maps@[o2 - 1]).wf(),
                new_maps@.len() >= maxg ==> forall|o2: int, lbl: Seq<char>|
                    1 <= o2 <= maxg && has_label(input_data@, lbl) ==> (#[trigger] assoc_find(
                        new_maps@[o2 - 1].tables(),
                        lbl,
                    )) is Some && table_trained(
                        prior_of(old(self), lbl, o2),
                        assoc_find(new_maps@[o2 - 1].tables(), lbl)->Some_0,
                        texts_of(input_data@, lbl),
                        o2,
                    ),
                new_maps@.len() >= maxg ==> forall|o2: int, lbl: Seq<char>|
                    1 <= o2 <= maxg && !has_label(input_data@, lbl) ==> opt_same(
                        prior_of(old(self), lbl, o2),
                        #[trigger] assoc_find(new_maps@[o2 - 1].tables(), lbl),
                    ),
                forall|o2: int| 1 <= o2 <= maxg ==> (#[trigger] new_maps@[o2 - 1]).wf(),
            decreases old_len - t,
        {
            let cloned = tables_clone(&self.ngram_maps[t]);
            proof {
                assert(self.ngram_maps@[t as int].wf());
                lemma_equiv_wf(self.ngram_maps@[t as int], cloned);
            }
            new_maps.push(cloned);
            t += 1;
        }
        self.ngram_maps = new_maps;
        proof {
            assert forall|i: int| 0 <= i < self.ngram_maps@.len() implies (
            #[trigger] self.ngram_maps@[i]).wf() by {
                if i < maxg {
                    assert(self.ngram_maps@[(i + 1) - 1].wf());
                } else {
                    assert(self.ngram_maps@[(i + 1) - 1].wf());
                }
            }
            assert forall|o2: int, lbl: Seq<char>|
                final(self).max_grams < o2 && 1 <= o2 implies opt_same(
                prior_of(old(self), lbl, o2),
                #[trigger] prior_of(final(self), lbl, o2),
            ) by {
                if o2 - 1 < self.ngram_maps@.len() {
                    assert(maxg < o2);
                    lemma_find_equiv(old(self).ngram_maps@[o2 - 1], self.ngram_maps@[o2 - 1], lbl);
                }
            }
        }
    }

    /// A model trained once from the labelled pairs, with tables for gram
    /// orders `1..=max_grams`.
    pub fn new(input_data: &Vec<InputTup>, max_grams: i8) -> (r: NGram)
        requires
            forall|o: int, lbl: Seq<char>|
                1 <= o <= max_grams ==> #[trigger] all_grams(
                    texts_of(input_data@, lbl),
                    o,
                ).len() < u64::MAX,
            forall|lbl: Seq<char>|
                max_grams >= 1 ==> #[trigger] texts_of(input_data@, lbl).len() <= TOTAL_MAX,
        ensures
            r.wf(),
            r.max_grams == max_grams,
            r.ngram_maps@.len() == if max_grams >= 1 {
                max_grams as int
            } else {
                0
            },
            forall|o: int, lbl: Seq<char>|
                1 <= o <= max_grams && has_label(input_data@, lbl) ==> (#[trigger] prior_of(
                    &r,
                    lbl,
                    o,
                )) is Some && table_trained(
                    None,
                    prior_of(&r, lbl, o)->Some_0,
                    texts_of(input_data@, lbl),
                    o,
                ),
            forall|o: int, lbl: Seq<char>|
                1 <= o <= max_grams && !has_label(input_data@, lbl) ==> (#[trigger] prior_of(
                    &r,
                    lbl,
                    o,
                )) is None,
    {
        let mut bow = NGram { ngram_maps: Vec::new(), max_grams };
        proof {
            assert(bow.ngram_maps@.len() == 0);
            assert forall|o: int, lbl: Seq<char>|
                1 <= o <= max_grams implies opt_total(#[trigger] prior_of(&bow, lbl, o))
                + texts_of(input_data@, lbl).len() <= TOTAL_MAX by {
                assert(prior_of(&bow, lbl, o) is None);
            }
        }
        bow.train(input_data);
        proof {
            assert forall|o: int, lbl: Seq<char>|
                1 <= o <= max_grams && !has_label(input_data@, lbl) implies (#[trigger] prior_of(
                &bow,
                lbl,
                o,
            )) is None by {
                assert(opt_same(None::<GramTable>, prior_of(&bow, lbl, o)));
            }
        }
        bow
    }
}

/// Splitting the text list splits its grams.
pub proof fn lemma_all_grams_concat(a: Seq<Seq<char>>, b: Seq<Seq<char>>, n: int)
    ensures
        all_grams(a + b, n) == all_grams(a, n) + all_grams(b, n),
    decreases b.len(),
{
    if b.len() == 0 {
        assert(a + b =~= a);
        assert(all_grams(b, n) =~= Seq::<Seq<char>>::empty());
        assert(all_grams(a, n) + all_grams(b, n) =~= all_grams(a, n));
    } else {
        assert((a + b).drop_last() =~= a + b.drop_last());
        assert((a + b).last() == b.last());
        lemma_all_grams_concat(a, b.drop_last(), n);
        assert(all_grams(a + b, n) == (all_grams(a, n) + all_grams(b.drop_last(), n)) + grams_of(
            b.last(),
            n,
        ));
        assert((all_grams(a, n) + all_grams(b.drop_last(), n)) + grams_of(b.last(), n) =~= all_grams(
            a,
            n,
        ) + (all_grams(b.drop_last(), n) + grams_of(b.last(), n)));
        assert(all_grams(b, n) == all_grams(b.drop_last(), n) + grams_of(b.last(), n));
    }
}

/// Occurrence counts add over concatenation.
pub proof fn lemma_count_in_concat(a: Seq<Seq<char>>, b: Seq<Seq<char>>, g: Seq<char>)
    ensures
        count_in(a + b, g) == count_in(a, g) + count_in(b, g),
    decreases b.len(),
{
    if b.len() == 0 {
        assert(a + b =~= a);
    } else {
        assert((a + b).drop_last() =~= a + b.drop_last());
        assert((a + b).last() == b.last());
        lemma_count_in_concat(a, b.drop_last(), g);
    }
}

/// Reconstructing a count from its own fixed-point frequency is exact when
/// the sample total is at most one scale unit.
proof fn lemma_recon_exact(c: int, n: u64)
    requires
        c >= 0,
        1 <= n <= PROB_SCALE,
        c * PROB_SCALE / (n as int) <= PROB_MAX,
    ensures
        recon_count((c * PROB_SCALE / (n as int)) as u64, n) == c,
{
    let s = PROB_SCALE as int;
    let q = c * s / (n as int);
    let r = c * s % (n as int);
    assert(c * s == q * n + r && 0 <= r < n) by (nonlinear_arith)
        requires
            n >= 1,
            c >= 0,
            s >= 1,
            q == c * s / (n as int),
            r == c * s % (n as int),
    ;
    assert(q >= 0) by (nonlinear_arith)
        requires
            c >= 0,
            s >= 1,
            n >= 1,
            q == c * s / (n as int),
    ;
    assert(recon_count(q as u64, n) == (q * n + s - 1) / s);
    assert((q * n + s - 1) / s == c) by (nonlinear_arith)
        requires
            q * n == c * s - r,
            0 <= r < n,
            n <= s,
            s >= 1,
            c >= 0,
    ;
}

/// Incremental merge associativity of training: training on one dataset and
/// then another gives exactly the sample total of training on both at once,
/// and, for every gram that occurs in the second dataset, exactly the same
/// probability — provided the probabilities stay below the representable cap.
pub proof fn lemma_incremental_training(
    t1: GramTable,
    t2: GramTable,
    t3: GramTable,
    a: Seq<Seq<char>>,
    b: Seq<Seq<char>>,
    n: int,
    g: Seq<char>,
)
    requires
        table_trained(None, t1, a, n),
        table_trained(Some(t1), t2, b, n),
        table_trained(None, t3, a + b, n),
        a.len() + b.len() <= TOTAL_MAX,
        count_in(all_grams(a, n), g) * PROB_SCALE <= PROB_MAX * a.len(),
        (count_in(all_grams(a, n), g) + count_in(all_grams(b, n), g)) * PROB_SCALE <= PROB_MAX * (
        a.len() + b.len()),
    ensures
        t2.total_samples == t3.total_samples,
        count_in(all_grams(b, n), g) > 0 ==> t2.prob_of(g) == t3.prob_of(g),
{
    let s = PROB_SCALE as int;
    let ca = count_in(all_grams(a, n), g);
    let cb = count_in(all_grams(b, n), g);
    let na = a.len() as int;
    let nb = b.len() as int;
    lemma_all_grams_concat(a, b, n);
    lemma_count_in_concat(all_grams(a, n), all_grams(b, n), g);
    assert(count_in(all_grams(a + b, n), g) == ca + cb);
    lemma_count_in_nonneg(all_grams(a, n), g);
    lemma_count_in_nonneg(all_grams(b, n), g);
    assert(t1.total_samples == na);
    assert(t2.total_samples == na + nb);
    assert(t3.total_samples == na + nb);
    if cb > 0 {
        // the totals are at least one on each side
        assert(all_grams(b, n).len() >= 1);
        assert(nb >= 1) by {
            if b.len() == 0 {
                assert(all_grams(b, n) =~= Seq::<Seq<char>>::empty());
            }
        }
        // the one-pass probability, uncapped
        let raw3 = (ca + cb) * s / (na + nb);
        assert(raw3 <= PROB_MAX) by (nonlinear_arith)
            requires
                raw3 == (ca + cb) * s / (na + nb),
                (ca + cb) * s <= PROB_MAX * (na + nb),
                na + nb >= 1,
                ca + cb >= 0,
                s >= 1,
                PROB_MAX >= 0,
        ;
        assert(raw3 >= 0) by (nonlinear_arith)
            requires
                raw3 == (ca + cb) * s / (na + nb),
                ca + cb >= 0,
                s >= 1,
                na + nb >= 1,
        ;
        assert(t3.prob_of(g) == Some(merged_prob(None, 0, ca + cb, na + nb)));
        assert(merged_prob(None, 0, ca + cb, na + nb) == raw3 as u64);
        // the reconstructed prior count is exactly the first dataset's count
        let oc: int = if ca > 0 {
            let raw1 = ca * s / na;
            assert(na >= 1) by {
                if a.len() == 0 {
                    assert(all_grams(a, n) =~= Seq::<Seq<char>>::empty());
                    assert(ca == 0);
                }
            }
            assert(raw1 <= PROB_MAX) by (nonlinear_arith)
                requires
                    raw1 == ca * s / na,
                    ca * s <= PROB_MAX * na,
                    na >= 1,
                    ca >= 0,
                    s >= 1,
                    PROB_MAX >= 0,
            ;
            assert(raw1 >= 0) by (nonlinear_arith)
                requires
                    raw1 == ca * s / na,
                    ca >= 0,
                    s >= 1,
                    na >= 1,
            ;
            assert(t1.prob_of(g) == Some(merged_prob(None, 0, ca, na)));
            assert(merged_prob(None, 0, ca, na) == raw1 as u64);
            lemma_recon_exact(ca, na as u64);
            assert(recon_count(raw1 as u64, na as u64) == ca);
            assert(opt_prob(Some(t1), g) == Some(raw1 as u64));
            recon_count(raw1 as u64, na as u64)
        } else {
            assert(t1.prob_of(g) == opt_prob(None::<GramTable>, g));
            assert(opt_prob(Some(t1), g) is None);
            0int
        };
        assert(oc == ca);
        assert(t2.prob_of(g) == Some(merged_prob(opt_prob(Some(t1), g), t1.total_samples, cb, na + nb)));
        assert(merged_prob(opt_prob(Some(t1), g), t1.total_samples, cb, na + nb) == {
            let raw = (cb + oc) * s / (na + nb);
            if raw > PROB_MAX {
                PROB_MAX
            } else {
                raw as u64
            }
        });
        assert((cb + oc) == (ca + cb));
    }
}

/// Sameness of optional tables, total and probabilities.
pub open spec fn opt_same(a: Option<GramTable>, b: Option<GramTable>) -> bool {
    match (a, b) {
        (Some(ta), Some(tb)) => ta.total_samples == tb.total_samples && ta.probs() == tb.probs(),
        (None, None) => true,
        _ => false,
    }
}

/// Training against a same-valued prior trains against that prior itself.
proof fn lemma_trained_of_same(
    prior: Option<GramTable>,
    cur: Option<GramTable>,
    t: GramTable,
    texts: Seq<Seq<char>>,
    n: int,
)
    requires
        opt_same(prior, cur),
        table_trained(cur, t, texts, n),
    ensures
        table_trained(prior, t, texts, n),
{
}

/// Equivalent table maps have the same mathematical view.
pub proof fn lemma_equiv_view(a: LabelTables, b: LabelTables)
    requires
        tables_equiv(a, b),
    ensures
        a.view_of() == b.view_of(),
{
    assert forall|i: int| 0 <= i < a.view_of().len() implies #[trigger] a.view_of()[i]
        == b.view_of()[i] by {
        assert(a.view_of()[i] == (a.tables()[i].0, (a.tables()[i].1.total_samples, a.tables()[i].1.probs())));
        assert(b.view_of()[i] == (b.tables()[i].0, (b.tables()[i].1.total_samples, b.tables()[i].1.probs())));
    }
    assert(a.view_of() =~= b.view_of());
}

/// Equivalent table maps are equally well-formed.
pub proof fn lemma_equiv_wf(a: LabelTables, b: LabelTables)
    requires
        a.wf(),
        tables_equiv(a, b),
    ensures
        b.wf(),
{
    assert forall|i: int, j: int|
        0 <= i < j < b.tables().len() implies (#[trigger] b.tables()[i]).0 != (
    #[trigger] b.tables()[j]).0 by {
        assert(a.tables()[i].0 == b.tables()[i].0);
        assert(a.tables()[j].0 == b.tables()[j].0);
    }
    assert forall|i: int| 0 <= i < b.tables().len() implies (#[trigger] b.tables()[i]).1.wf() by {
        assert(a.tables()[i].1.wf());
        assert(a.tables()[i].1.total_samples == b.tables()[i].1.total_samples);
        assert(a.tables()[i].1.probs() == b.tables()[i].1.probs());
    }
}

/// Rebinding one label keeps a table map well-formed when the new table is.
pub(crate) proof fn lemma_set_table_wf(before: LabelTables, after: LabelTables, lbl: Seq<char>, t: GramTable)
    requires
        before.wf(),
        t.wf(),
        after.tables() == assoc_set(before.tables(), lbl, t),
    ensures
        after.wf(),
{
    crate::model::lemma_assoc_set(before.tables(), lbl, t);
    lemma_assoc_set_tables(before.tables(), lbl, t);
}

/// Every table after a rebinding is the new one or one of the old ones.
proof fn lemma_assoc_set_tables(s: Seq<(Seq<char>, GramTable)>, k: Seq<char>, v: GramTable)
    requires
        forall|i: int| 0 <= i < s.len() ==> (#[trigger] s[i]).1.wf(),
        v.wf(),
    ensures
        forall|j: int|
            0 <= j < assoc_set(s, k, v).len() ==> (#[trigger] assoc_set(s, k, v)[j]).1.wf(),
    decreases s.len(),
{
    let u = assoc_set(s, k, v);
    if s.len() == 0 {
        assert(u =~= seq![(k, v)]);
    } else if s[0].0 == k {
        assert(u =~= seq![(k, v)] + s.drop_first());
        assert forall|j: int| 0 <= j < u.len() implies (#[trigger] u[j]).1.wf() by {
            if j > 0 {
                assert(u[j] == s.drop_first()[j - 1]);
                assert(u[j] == s[j]);
            }
        }
    } else {
        assert(forall|i: int|
            0 <= i < s.drop_first().len() ==> (#[trigger] s.drop_first()[i]) == s[i + 1]);
        lemma_assoc_set_tables(s.drop_first(), k, v);
        assert(u =~= seq![s[0]] + assoc_set(s.drop_first(), k, v));
        assert forall|j: int| 0 <= j < u.len() implies (#[trigger] u[j]).1.wf() by {
            if j > 0 {
                assert(u[j] == assoc_set(s.drop_first(), k, v)[j - 1]);
            }
        }
    }
}

/// The stored prior table for `(label, order)` is well-formed whenever the
/// model is.
pub proof fn lemma_prior_wf(m: &NGram, label: Seq<char>, n: int)
    requires
        m.wf(),
    ensures
        opt_wf(prior_of(m, label, n)),
{
    if 0 <= n - 1 < m.ngram_maps@.len() {
        let tabs = m.ngram_maps@[n - 1].tables();
        if assoc_find(tabs, label) is Some {
            lemma_find_is_entry(tabs, label);
            let i = choose|i: int|
                0 <= i < tabs.len() && (#[trigger] tabs[i]).0 == label && tabs[i].1 == assoc_find(
                    tabs,
                    label,
                )->Some_0;
        }
    }
}

/// A found binding is one of the entries, key and value together.
pub proof fn lemma_find_is_entry<V>(s: Seq<(Seq<char>, V)>, k: Seq<char>)
    requires
        assoc_find(s, k) is Some,
    ensures
        exists|i: int|
            0 <= i < s.len() && (#[trigger] s[i]).0 == k && s[i].1 == assoc_find(s, k)->Some_0,
    decreases s.len(),
{
    if s.len() > 0 && s[0].0 != k {
        lemma_find_is_entry(s.drop_first(), k);
        let i = choose|i: int|
            0 <= i < s.drop_first().len() && (#[trigger] s.drop_first()[i]).0 == k
                && s.drop_first()[i].1 == assoc_find(s.drop_first(), k)->Some_0;
        assert(s[i + 1].0 == k && s[i + 1].1 == assoc_find(s, k)->Some_0);
    }
}

} // verus!
