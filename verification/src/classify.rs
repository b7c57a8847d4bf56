//! Inference: multi-order voting over per-label gram tables.
//!
//! Orders are visited from the longest grams down to unigrams; each gram is
//! assigned to the label giving it the highest probability, the first such
//! label winning ties; each distinct first token is credited at most once
//! across all orders; the label with the most votes wins, the first label to
//! reach the maximum winning ties; with no votes the sentence is
//! inconclusive.

use vstd::prelude::*;

use crate::grams::grams_of;
use crate::model::assoc_distinct;
use crate::model::assoc_find;
use crate::model::assoc_set;
use crate::model::model_view;
use crate::model::LabelTables;
use crate::model::ModelV;
use crate::model::NGram;
use crate::model::OrderV;
use crate::nums::PROB_SCALE;
use crate::strutil::str_copy;
use crate::strutil::str_eq;
use crate::util::chunk_of;
use crate::util::chunk_output;
use crate::util::chunk_size;
use crate::util::lemma_chunk_size_covers;
use crate::util::lemma_map_chunks;
use crate::util::multi_thread_process_list;
use crate::util::runner_post;
use crate::util::InputTup;
use crate::text::lemma_space_idx;
use crate::text::space_idx;

verus! {

/// Vote tallies: labels paired with their vote counts, in first-vote order.
pub type VotesV = Seq<(Seq<char>, int)>;

/// State of one classification: first tokens already credited, and the vote
/// tallies.
pub type TallyV = (Seq<Seq<char>>, VotesV);

/// The label whose table assigns `g` the highest probability, scanning labels
/// from index `i` with the running best `(bn, bp)`; a label must beat the
/// best strictly, so the first maximal label wins and a probability of zero
/// never wins.
pub open spec fn best_from(tables: OrderV, g: Seq<char>, i: int, bn: Seq<char>, bp: u64) -> Seq<
    char,
>
    decreases tables.len() - i,
{
    if i < 0 || i >= tables.len() {
        bn
    } else {
        match assoc_find(tables[i].1.1, g) {
            Some(p) => if p > bp {
                best_from(tables, g, i + 1, tables[i].0, p)
            } else {
                best_from(tables, g, i + 1, bn, bp)
            },
            None => best_from(tables, g, i + 1, bn, bp),
        }
    }
}

/// The winning label for one gram, or the empty label if no table holds the
/// gram with positive probability.
pub open spec fn best_label(tables: OrderV, g: Seq<char>) -> Seq<char> {
    best_from(tables, g, 0, Seq::empty(), 0)
}

/// First token of a gram: its text up to the first space.
pub open spec fn first_word(g: Seq<char>) -> Seq<char> {
    g.take(space_idx(g))
}

pub open spec fn vote_count(votes: VotesV, lbl: Seq<char>) -> int {
    match assoc_find(votes, lbl) {
        Some(c) => c,
        None => 0,
    }
}

/// One gram's contribution to the tally: no vote if no table holds the gram
/// or its first token was already credited; otherwise the token is credited
/// and the winning label gains one vote.
pub open spec fn step_state(model: ModelV, oi: int, g: Seq<char>, st: TallyV) -> TallyV {
    let lbl = best_label(model[oi], g);
    if lbl.len() == 0 {
        st
    } else {
        let fw = first_word(g);
        if st.0.contains(fw) {
            st
        } else {
            (st.0.push(fw), assoc_set(st.1, lbl, vote_count(st.1, lbl) + 1))
        }
    }
}

pub open spec fn tally_grams(model: ModelV, oi: int, gs: Seq<Seq<char>>, st: TallyV) -> TallyV
    decreases gs.len(),
{
    if gs.len() == 0 {
        st
    } else {
        tally_grams(model, oi, gs.drop_first(), step_state(model, oi, gs[0], st))
    }
}

/// Tallies orders `o, o-1, ..., 1`, longest grams first.
pub open spec fn tally_down(model: ModelV, s: Seq<char>, o: int, st: TallyV) -> TallyV
    decreases o,
{
    if o <= 0 {
        st
    } else {
        tally_down(model, s, o - 1, tally_grams(model, o - 1, grams_of(s, o), st))
    }
}

pub open spec fn empty_tally() -> TallyV {
    (Seq::empty(), Seq::empty())
}

/// The full tally of a sentence against a model.
pub open spec fn sentence_tally(model: ModelV, s: Seq<char>) -> TallyV {
    tally_down(model, s, model.len() as int, empty_tally())
}

/// The label with the most votes, scanning from index `i` with the running
/// best; strictly more votes are needed, so the first maximal label wins.
pub open spec fn winner_from(votes: VotesV, i: int, bn: Seq<char>, bc: int) -> Seq<char>
    decreases votes.len() - i,
{
    if i < 0 || i >= votes.len() {
        bn
    } else if votes[i].1 > bc {
        winner_from(votes, i + 1, votes[i].0, votes[i].1)
    } else {
        winner_from(votes, i + 1, bn, bc)
    }
}

/// The label a sentence is classified as: the highest-voted label, or
/// `Inconclusive` when no gram cast a vote.
pub open spec fn classify_of(model: ModelV, s: Seq<char>) -> Seq<char> {
    let w = winner_from(sentence_tally(model, s).1, 0, Seq::empty(), 0);
    if w.len() == 0 {
        "Inconclusive"@
    } else {
        w
    }
}

/// First token of a gram.
fn first_word_of(g: &String) -> (r: String)
    ensures
        r@ == first_word(g@),
{
    let n = g.as_str().unicode_len();
    let mut j: usize = 0;
    while j < n && g.as_str().get_char(j) != ' '
        invariant
            0 <= j <= n,
            n == g@.len(),
            forall|k: int| 0 <= k < j ==> g@[k] != ' ',
        decreases n - j,
    {
        j += 1;
    }
    proof {
        lemma_space_idx(g@);
        if j < n {
            assert(g@[j as int] == ' ');
            assert(space_idx(g@) == j) by {
                if space_idx(g@) < j {
                    assert(g@[space_idx(g@)] == ' ');
                }
                if space_idx(g@) > j {
                    assert(g@[j as int] != ' ');
                }
            }
        } else {
            assert(space_idx(g@) == n) by {
                if space_idx(g@) < n {
                    assert(g@[space_idx(g@)] == ' ');
                }
            }
        }
    }
    str_copy(g.as_str().substring_char(0, j))
}

impl NGram {
    /// The label whose table assigns `gram` the highest probability; ties
    /// keep the earlier label; the empty label if no table holds the gram
    /// with positive probability.
    pub fn test_gram(bow: &LabelTables, gram: &String) -> (r: String)
        ensures
            r@ == best_label(bow.view_of(), gram@),
    {
        let ghost tv = bow.view_of();
        let mut best_name = String::new();
        let mut best_p: u64 = 0;
        let n = bow.entries.len();
        let mut i: usize = 0;
        while i < n
            invariant
                0 <= i <= n,
                n == bow.entries@.len(),
                tv == bow.view_of(),
                best_from(tv, gram@, i as int, best_name@, best_p) == best_label(tv, gram@),
            decreases n - i,
        {
            proof {
                assert(tv[i as int] == (bow.entries@[i as int].0@, bow.entries@[i as int].1.view_of()));
            }
            let m_prob = bow.entries[i].1.get_prob(gram.as_str());
            match m_prob {
                None => {},
                Some(p) => {
                    if p > best_p {
                        best_name = str_copy(bow.entries[i].0.as_str());
                        best_p = p;
                    }
                },
            }
            i += 1;
        }
        best_name
    }

    /// Classifies a sentence by multi-order voting, longest grams first; at
    /// most one vote is cast per distinct first token; the most-voted label
    /// wins, or `Inconclusive` with no votes.
    pub fn test_sentence_static(bow: &Vec<LabelTables>, sentence: &String) -> (r: String)
        ensures
            r@ == classify_of(model_view(bow@), sentence@),
    {
        let ghost model = model_view(bow@);
        let mut found_words: Vec<String> = Vec::new();
        let mut totals: Vec<(String, u64)> = Vec::new();
        let norders = bow.len();
        let mut o: usize = norders;
        proof {
            assert(found_map(found_words@) =~= empty_tally().0);
            assert(votes_map(totals@) =~= empty_tally().1);
        }
        while o > 0
            invariant
                0 <= o <= norders,
                norders == bow@.len(),
                model == model_view(bow@),
                tally_wf(found_words@, totals@),
                tally_down(model, sentence@, o as int, (found_map(found_words@), votes_map(totals@)))
                    == sentence_tally(model, sentence@),
            decreases o,
        {
            let gs = NGram::create_grams(sentence, o);
            let ng = gs.len();
            let ghost gsv = gs@.map_values(|g: String| g@);
            let mut j: usize = 0;
            proof {
                assert(gsv.skip(0) =~= gsv);
            }
            while j < ng
                invariant
                    0 <= j <= ng,
                    0 < o <= norders,
                    ng == gs@.len(),
                    norders == bow@.len(),
                    model == model_view(bow@),
                    gsv == gs@.map_values(|g: String| g@),
                    gsv == grams_of(sentence@, o as int),
                    tally_wf(found_words@, totals@),
                    tally_down(
                        model,
                        sentence@,
                        o - 1,
                        tally_grams(
                            model,
                            o - 1,
                            gsv.skip(j as int),
                            (found_map(found_words@), votes_map(totals@)),
                        ),
                    ) == sentence_tally(model, sentence@),
                decreases ng - j,
            {
                let gram = &gs[j];
                let ghost st = (found_map(found_words@), votes_map(totals@));
                proof {
                    assert(gsv.skip(j as int)[0] == gsv[j as int]);
                    assert(gsv.skip(j as int).drop_first() =~= gsv.skip(j + 1));
                    assert(gsv[j as int] == gram@);
                    assert(model[o - 1] == bow@[o - 1].view_of());
                }
                let best_type = NGram::test_gram(&bow[o - 1], gram);
                if best_type.as_str().unicode_len() == 0 {
                    proof {
                        assert(step_state(model, o - 1, gram@, st) == st);
                    }
                } else {
                    let fw = first_word_of(gram);
                    // has this first token been credited already?
                    let mut seen = false;
                    let nf = found_words.len();
                    let mut k: usize = 0;
                    while k < nf
                        invariant
                            0 <= k <= nf,
                            nf == found_words@.len(),
                            fw@ == first_word(gram@),
                            !seen ==> forall|t: int| 0 <= t < k ==> found_words@[t]@ != fw@,
                            seen ==> found_map(found_words@).contains(fw@),
                        decreases nf - k,
                    {
                        if str_eq(found_words[k].as_str(), fw.as_str()) {
                            seen = true;
                            proof {
                                assert(found_map(found_words@)[k as int] == fw@);
                            }
                            k = nf;
                        } else {
                            k += 1;
                        }
                    }
                    if seen {
                        proof {
                            assert(step_state(model, o - 1, gram@, st) == st);
                        }
                    } else {
                        proof {
                            assert(!found_map(found_words@).contains(fw@)) by {
                                if found_map(found_words@).contains(fw@) {
                                    let t = choose|t: int|
                                        0 <= t < found_map(found_words@).len() && found_map(
                                            found_words@,
                                        )[t] == fw@;
                                    assert(found_words@[t]@ == fw@);
                                }
                            }
                        }
                        let ghost old_found = found_words@;
                        let ghost old_votes = totals@;
                        found_words.push(fw);
                        let found_len = found_words.len();
                        let cur = vote_count_of(&totals, &best_type);
                        proof {
                            // the count is bounded by the sum of all counts,
                            // which equals the number of credited tokens
                            lemma_vote_le_sum(votes_map(old_votes), best_type@);
                            assert(votes_sum(votes_map(old_votes)) == old_found.len());
                            assert(found_len == old_found.len() + 1);
                            assert(cur < found_len);
                        }
                        let newc = cur + 1;
                        votes_set(&mut totals, &best_type, newc);
                        proof {
                            assert(votes_map(totals@) == assoc_set(
                                votes_map(old_votes),
                                best_type@,
                                vote_count(votes_map(old_votes), best_type@) + 1,
                            ));
                            assert(found_map(found_words@) =~= found_map(old_found).push(fw@));
                            assert(step_state(model, o - 1, gram@, st) == (found_map(
                                found_words@,
                            ), votes_map(totals@)));
                        }
                    }
                }
                j += 1;
            }
            proof {
                assert(gsv.skip(ng as int) =~= Seq::<Seq<char>>::empty());
            }
            o -= 1;
        }
        // pick the label with the most votes
        let mut best_name = String::new();
        let mut best_c: u64 = 0;
        let nv = totals.len();
        let mut t: usize = 0;
        proof {
            assert(tally_down(model, sentence@, 0, (found_map(found_words@), votes_map(totals@)))
                == (found_map(found_words@), votes_map(totals@)));
        }
        while t < nv
            invariant
                0 <= t <= nv,
                nv == totals@.len(),
                best_c >= 0,
                winner_from(votes_map(totals@), t as int, best_name@, best_c as int)
                    == winner_from(votes_map(totals@), 0, Seq::empty(), 0),
            decreases nv - t,
        {
            proof {
                assert(votes_map(totals@)[t as int] == (totals@[t as int].0@, totals@[t as int].1 as int));
            }
            if totals[t].1 > best_c {
                best_name = str_copy(totals[t].0.as_str());
                best_c = totals[t].1;
            }
            t += 1;
        }
        if best_name.as_str().unicode_len() == 0 {
            let r = str_copy("Inconclusive");
            assert(r@ == classify_of(model, sentence@));
            r
        } else {
            assert(best_name@ == classify_of(model, sentence@));
            best_name
        }
    }

    /// Classifies a sentence against this model.
    pub fn test_sentence(&self, sentence: &String) -> (r: String)
        ensures
            r@ == classify_of(model_view(self.ngram_maps@), sentence@),
    {
        NGram::test_sentence_static(&self.ngram_maps, sentence)
    }

    /// Fraction of the labelled pairs the model classifies correctly, as a
    /// fixed-point value in `[0, PROB_SCALE]`; the classification runs over
    /// the batch runner in chunks of sixteenth parts.
    pub fn validate(gram_maps: &Vec<LabelTables>, input: &Vec<InputTup>) -> (r: u64)
        requires
            input@.len() > 0,
        ensures
            r == accuracy_of(model_view(gram_maps@), input@),
            r <= PROB_SCALE,
    {
        let ghost model = model_view(gram_maps@);
        let num_inputs = input.len();
        let f_thread = |c_maps: &Vec<LabelTables>, chunk: &[InputTup]| -> (correct_vec: Vec<
            bool,
        >)
            ensures
                correct_vec@ == chunk@.map_values(
                    |p: InputTup| classify_of(model_view(c_maps@), p.1@) == p.0@,
                ),
            {
                let mut correct_vec: Vec<bool> = Vec::new();
                let cn = chunk.len();
                let mut i: usize = 0;
                while i < cn
                    invariant
                        0 <= i <= cn,
                        cn == chunk@.len(),
                        correct_vec@ =~= chunk@.take(i as int).map_values(
                            |p: InputTup| classify_of(model_view(c_maps@), p.1@) == p.0@,
                        ),
                    decreases cn - i,
                {
                    let pair = vstd::slice::slice_index_get(chunk, i);
                    let res = NGram::test_sentence_static(c_maps, &pair.1);
                    correct_vec.push(str_eq(res.as_str(), pair.0.as_str()));
                    proof {
                        assert(correct_vec@ =~= chunk@.take(i + 1).map_values(
                            |p: InputTup| classify_of(model_view(c_maps@), p.1@) == p.0@,
                        ));
                    }
                    i += 1;
                }
                proof {
                    assert(chunk@.take(cn as int) =~= chunk@);
                }
                correct_vec
            };
        let results = multi_thread_process_list(input, gram_maps, 16, f_thread);
        proof {
            let g = |p: InputTup| classify_of(model_view(gram_maps@), p.1@) == p.0@;
            let outs = choose|outs: Seq<Vec<bool>>|
                #[trigger] runner_post(f_thread, gram_maps, input@, 16, outs, results@);
            let csize = chunk_size(input@.len() as int, 16);
            let outs_v = outs.map_values(|v: Vec<bool>| v@);
            assert forall|i: int| 0 <= i < outs_v.len() implies #[trigger] outs_v[i] == chunk_of(
                input@,
                csize,
                i,
            ).map_values(g) by {
                assert(chunk_output(f_thread, gram_maps, input@, csize, i, outs[i]));
                let cv = choose|cv: &[InputTup]|
                    cv@ == chunk_of(input@, csize, i) && #[trigger] call_ensures(
                        f_thread,
                        (gram_maps, cv),
                        outs[i],
                    );
                assert(outs[i]@ == cv@.map_values(g));
            }
            lemma_chunk_size_covers(input@.len() as int, 16);
            lemma_map_chunks(input@, g, csize, outs_v);
            assert(results@ == input@.map_values(g));
        }
        let rn = results.len();
        let mut num_correct: u64 = 0;
        let mut i: usize = 0;
        while i < rn
            invariant
                0 <= i <= rn,
                rn == results@.len(),
                rn == input@.len(),
                model == model_view(gram_maps@),
                forall|j: int|
                    0 <= j < rn ==> results@[j] == (classify_of(model, input@[j].1@)
                        == input@[j].0@),
                num_correct == correct_count(model, input@.take(i as int)),
                num_correct <= i,
            decreases rn - i,
        {
            proof {
                assert(input@.take(i + 1).drop_last() =~= input@.take(i as int));
                assert(input@.take(i + 1).last() == input@[i as int]);
            }
            if results[i] {
                num_correct += 1;
            }
            i += 1;
        }
        proof {
            assert(input@.take(rn as int) =~= input@);
        }
        let wide: u128 = (num_correct as u128) * (PROB_SCALE as u128) / (num_inputs as u128);
        proof {
            assert(wide <= PROB_SCALE) by (nonlinear_arith)
                requires
                    wide == (num_correct as int) * (PROB_SCALE as int) / (num_inputs as int),
                    num_correct <= num_inputs,
                    num_inputs >= 1,
                    PROB_SCALE >= 1,
            ;
            assert(wide == accuracy_of(model, input@)) by (nonlinear_arith)
                requires
                    wide == (num_correct as int) * (PROB_SCALE as int) / (num_inputs as int),
                    accuracy_of(model, input@) == correct_count(model, input@) * PROB_SCALE
                        / input@.len() as int,
                    num_correct == correct_count(model, input@),
                    num_inputs == input@.len(),
                    num_inputs >= 1,
            ;
        }
        wide as u64
    }
}

/// Whether the model classifies one labelled pair correctly.
pub open spec fn pair_correct(model: ModelV, p: InputTup) -> bool {
    classify_of(model, p.1@) == p.0@
}

/// How many labelled pairs the model classifies correctly.
pub open spec fn correct_count(model: ModelV, inputs: Seq<InputTup>) -> int
    decreases inputs.len(),
{
    if inputs.len() == 0 {
        0int
    } else {
        correct_count(model, inputs.drop_last()) + if pair_correct(model, inputs.last()) {
            1int
        } else {
            0int
        }
    }
}

/// The fraction of pairs classified correctly, in fixed point.
pub open spec fn accuracy_of(model: ModelV, inputs: Seq<InputTup>) -> int {
    correct_count(model, inputs) * PROB_SCALE / inputs.len() as int
}

/// Views of the executable tally state.
pub open spec fn found_map(found: Seq<String>) -> Seq<Seq<char>> {
    found.map_values(|w: String| w@)
}

pub open spec fn votes_map(votes: Seq<(String, u64)>) -> VotesV {
    votes.map_values(|e: (String, u64)| (e.0@, e.1 as int))
}

/// Sum of all vote counts.
pub open spec fn votes_sum(votes: VotesV) -> int
    decreases votes.len(),
{
    if votes.len() == 0 {
        0int
    } else {
        votes[0].1 + votes_sum(votes.drop_first())
    }
}

/// The tally bookkeeping the loops above maintain: every count is at least
/// one, and the counts sum to the number of credited tokens.
pub open spec fn tally_wf(found: Seq<String>, votes: Seq<(String, u64)>) -> bool {
    &&& forall|i: int| 0 <= i < votes.len() ==> (#[trigger] votes[i]).1 >= 1
    &&& votes_sum(votes_map(votes)) == found.len()
}

/// No single label's count exceeds the sum when all counts are nonnegative.
pub proof fn lemma_vote_le_sum(votes: VotesV, lbl: Seq<char>)
    requires
        forall|i: int| 0 <= i < votes.len() ==> (#[trigger] votes[i]).1 >= 0,
    ensures
        vote_count(votes, lbl) <= votes_sum(votes),
        votes_sum(votes) >= 0,
    decreases votes.len(),
{
    if votes.len() > 0 {
        assert(forall|i: int|
            0 <= i < votes.drop_first().len() ==> (#[trigger] votes.drop_first()[i]).1 >= 0) by {
            assert(forall|i: int|
                0 <= i < votes.drop_first().len() ==> votes.drop_first()[i] == votes[i + 1]);
        }
        lemma_vote_le_sum(votes.drop_first(), lbl);
    }
}

/// Binds `lbl` to count `c` in the executable tally.
fn votes_set(votes: &mut Vec<(String, u64)>, lbl: &String, c: u64)
    ensures
        votes_map(final(votes)@) == assoc_set(votes_map(old(votes)@), lbl@, c as int),
        votes_sum(votes_map(final(votes)@)) == votes_sum(votes_map(old(votes)@)) - vote_count(
            votes_map(old(votes)@),
            lbl@,
        ) + c,
        (forall|j: int| 0 <= j < old(votes)@.len() ==> (#[trigger] old(votes)@[j]).1 >= 1) && c
            >= 1 ==> forall|j: int|
            0 <= j < final(votes)@.len() ==> (#[trigger] final(votes)@[j]).1 >= 1,
{
    let n = votes.len();
    let mut i: usize = 0;
    while i < n
        invariant
            0 <= i <= n,
            n == votes@.len(),
            *votes == *old(votes),
            forall|j: int| 0 <= j < i ==> votes_map(votes@)[j].0 != lbl@,
        decreases n - i,
    {
        if str_eq(votes[i].0.as_str(), lbl.as_str()) {
            let ghost oldc = votes@[i as int].1;
            votes[i] = (str_copy(lbl.as_str()), c);
            proof {
                crate::model::lemma_assoc_set_prefix(votes_map(old(votes)@), lbl@, c as int, i as int);
                assert(votes_map(votes@) =~= assoc_set(votes_map(old(votes)@), lbl@, c as int));
                assert(votes_map(votes@) =~= votes_map(old(votes)@).update(
                    i as int,
                    (lbl@, c as int),
                ));
                lemma_votes_sum_update(votes_map(old(votes)@), i as int, (lbl@, c as int));
                crate::model::lemma_assoc_find_skip(votes_map(old(votes)@), lbl@, i as int);
                assert(votes_map(old(votes)@).skip(i as int)[0] == votes_map(old(votes)@)[i as int]);
                assert(vote_count(votes_map(old(votes)@), lbl@) == oldc);
            }
            return ;
        }
        proof {
            assert(votes_map(votes@)[i as int].0 == votes@[i as int].0@);
        }
        i += 1;
    }
    votes.push((str_copy(lbl.as_str()), c));
    proof {
        crate::model::lemma_assoc_set_absent(votes_map(old(votes)@), lbl@, c as int, n as int);
        assert(votes_map(votes@) =~= votes_map(old(votes)@) + seq![(lbl@, c as int)]);
        assert(votes_map(votes@) =~= assoc_set(votes_map(old(votes)@), lbl@, c as int));
        lemma_votes_sum_push(votes_map(old(votes)@), (lbl@, c as int));
        crate::model::lemma_assoc_find_skip(votes_map(old(votes)@), lbl@, n as int);
        assert(votes_map(old(votes)@).skip(n as int) =~= Seq::<(Seq<char>, int)>::empty());
        assert(vote_count(votes_map(old(votes)@), lbl@) == 0);
    }
}

/// Current count for `lbl`, zero if absent.
fn vote_count_of(votes: &Vec<(String, u64)>, lbl: &String) -> (r: u64)
    ensures
        r as int == vote_count(votes_map(votes@), lbl@),
{
    let n = votes.len();
    let mut i: usize = 0;
    while i < n
        invariant
            0 <= i <= n,
            n == votes@.len(),
            forall|j: int| 0 <= j < i ==> votes_map(votes@)[j].0 != lbl@,
        decreases n - i,
    {
        if str_eq(votes[i].0.as_str(), lbl.as_str()) {
            proof {
                crate::model::lemma_assoc_find_skip(votes_map(votes@), lbl@, i as int);
                assert(votes_map(votes@).skip(i as int)[0] == votes_map(votes@)[i as int]);
            }
            return votes[i].1;
        }
        proof {
            assert(votes_map(votes@)[i as int].0 == votes@[i as int].0@);
        }
        i += 1;
    }
    proof {
        crate::model::lemma_assoc_find_skip(votes_map(votes@), lbl@, n as int);
        assert(votes_map(votes@).skip(n as int) =~= Seq::<(Seq<char>, int)>::empty());
    }
    0
}

/// Replacing the entry at `i` changes the sum by the difference of counts.
proof fn lemma_votes_sum_update(v: VotesV, i: int, e: (Seq<char>, int))
    requires
        0 <= i < v.len(),
    ensures
        votes_sum(v.update(i, e)) == votes_sum(v) - v[i].1 + e.1,
    decreases i,
{
    let u = v.update(i, e);
    if i == 0 {
        assert(u.drop_first() =~= v.drop_first());
    } else {
        assert(u.drop_first() =~= v.drop_first().update(i - 1, e));
        lemma_votes_sum_update(v.drop_first(), i - 1, e);
    }
}

/// Appending an entry adds its count to the sum.
proof fn lemma_votes_sum_push(v: VotesV, e: (Seq<char>, int))
    ensures
        votes_sum(v + seq![e]) == votes_sum(v) + e.1,
    decreases v.len(),
{
    let u = v + seq![e];
    if v.len() == 0 {
        assert(u[0] == e);
        assert(u.drop_first() =~= Seq::<(Seq<char>, int)>::empty());
        assert(votes_sum(u) == e.1 + votes_sum(u.drop_first()));
    } else {
        assert(u[0] == v[0]);
        assert(u.drop_first() =~= v.drop_first() + seq![e]);
        lemma_votes_sum_push(v.drop_first(), e);
    }
}

/// The bookkeeping that vote tallies obey: every count is at least one, the
/// counts sum to the number of credited tokens, and no token is credited
/// twice.
pub open spec fn tally_inv(st: TallyV) -> bool {
    &&& forall|i: int| 0 <= i < st.1.len() ==> (#[trigger] st.1[i]).1 >= 1
    &&& votes_sum(st.1) == st.0.len()
    &&& forall|i: int, j: int| 0 <= i < j < st.0.len() ==> st.0[i] != st.0[j]
}

/// Rebinding one key changes the sum by the difference of its counts.
proof fn lemma_votes_sum_set(votes: VotesV, lbl: Seq<char>, c: int)
    ensures
        votes_sum(assoc_set(votes, lbl, c)) == votes_sum(votes) - vote_count(votes, lbl) + c,
    decreases votes.len(),
{
    let u = assoc_set(votes, lbl, c);
    if votes.len() == 0 {
        assert(u =~= seq![(lbl, c)]);
        assert(u[0] == (lbl, c));
        assert(u.drop_first() =~= Seq::<(Seq<char>, int)>::empty());
        assert(votes_sum(u) == c + votes_sum(u.drop_first()));
    } else if votes[0].0 == lbl {
        assert(u =~= seq![(lbl, c)] + votes.drop_first());
        assert(u[0] == (lbl, c));
        assert(u.drop_first() =~= votes.drop_first());
        assert(votes_sum(u) == c + votes_sum(votes.drop_first()));
        assert(votes_sum(votes) == votes[0].1 + votes_sum(votes.drop_first()));
        assert(vote_count(votes, lbl) == votes[0].1);
    } else {
        assert(u =~= seq![votes[0]] + assoc_set(votes.drop_first(), lbl, c));
        assert(u[0] == votes[0]);
        assert(u.drop_first() =~= assoc_set(votes.drop_first(), lbl, c));
        lemma_votes_sum_set(votes.drop_first(), lbl, c);
        assert(votes_sum(u) == votes[0].1 + votes_sum(u.drop_first()));
        assert(votes_sum(votes) == votes[0].1 + votes_sum(votes.drop_first()));
        assert(vote_count(votes, lbl) == vote_count(votes.drop_first(), lbl));
    }
}

/// Every count after a rebinding is the new count or one of the old ones.
proof fn lemma_assoc_set_vals(votes: VotesV, lbl: Seq<char>, c: int)
    ensures
        forall|j: int|
            0 <= j < assoc_set(votes, lbl, c).len() ==> (#[trigger] assoc_set(votes, lbl, c)[j]).1
                == c || exists|i: int| 0 <= i < votes.len() && (#[trigger] votes[i]).1 == assoc_set(
                votes,
                lbl,
                c,
            )[j].1,
    decreases votes.len(),
{
    let u = assoc_set(votes, lbl, c);
    if votes.len() == 0 {
        assert(u =~= seq![(lbl, c)]);
    } else if votes[0].0 == lbl {
        assert(u =~= seq![(lbl, c)] + votes.drop_first());
        assert forall|j: int| 0 <= j < u.len() implies (#[trigger] u[j]).1 == c || exists|i: int|
            0 <= i < votes.len() && (#[trigger] votes[i]).1 == u[j].1 by {
            if j > 0 {
                assert(u[j] == votes.drop_first()[j - 1]);
                assert(votes[j].1 == u[j].1);
            }
        }
    } else {
        lemma_assoc_set_vals(votes.drop_first(), lbl, c);
        assert(u =~= seq![votes[0]] + assoc_set(votes.drop_first(), lbl, c));
        assert forall|j: int| 0 <= j < u.len() implies (#[trigger] u[j]).1 == c || exists|i: int|
            0 <= i < votes.len() && (#[trigger] votes[i]).1 == u[j].1 by {
            if j == 0 {
                assert(votes[0].1 == u[0].1);
            } else {
                let sub = assoc_set(votes.drop_first(), lbl, c);
                assert(u[j] == sub[j - 1]);
                if sub[j - 1].1 != c {
                    let i = choose|i: int|
                        0 <= i < votes.drop_first().len() && (#[trigger] votes.drop_first()[i]).1
                            == sub[j - 1].1;
                    assert(votes[i + 1].1 == u[j].1);
                }
            }
        }
    }
}

/// A found binding's count is one of the stored counts.
proof fn lemma_assoc_find_val(votes: VotesV, lbl: Seq<char>)
    ensures
        assoc_find(votes, lbl) is Some ==> exists|i: int|
            0 <= i < votes.len() && (#[trigger] votes[i]).1 == assoc_find(votes, lbl)->Some_0,
    decreases votes.len(),
{
    if votes.len() > 0 && votes[0].0 != lbl {
        lemma_assoc_find_val(votes.drop_first(), lbl);
        if assoc_find(votes, lbl) is Some {
            let i = choose|i: int|
                0 <= i < votes.drop_first().len() && (#[trigger] votes.drop_first()[i]).1
                    == assoc_find(votes.drop_first(), lbl)->Some_0;
            assert(votes[i + 1].1 == assoc_find(votes, lbl)->Some_0);
        }
    }
}

/// One gram's vote keeps the tally bookkeeping.
proof fn lemma_step_inv(model: ModelV, oi: int, g: Seq<char>, st: TallyV)
    requires
        tally_inv(st),
    ensures
        tally_inv(step_state(model, oi, g, st)),
{
    let lbl = best_label(model[oi], g);
    if lbl.len() != 0 {
        let fw = first_word(g);
        if !st.0.contains(fw) {
            let cnt = vote_count(st.1, lbl);
            let c = cnt + 1;
            lemma_votes_sum_set(st.1, lbl, c);
            lemma_assoc_set_vals(st.1, lbl, c);
            lemma_assoc_find_val(st.1, lbl);
            assert(cnt >= 0);
            let st2 = step_state(model, oi, g, st);
            assert(st2.0 == st.0.push(fw));
            assert(st2.1 == assoc_set(st.1, lbl, c));
            assert(votes_sum(st2.1) == votes_sum(st.1) + 1);
            assert(st2.0.len() == st.0.len() + 1);
            assert(forall|i: int| 0 <= i < st2.1.len() ==> (#[trigger] st2.1[i]).1 >= 1);
            assert(forall|i: int| 0 <= i < st.0.len() ==> st.0[i] != fw);
            assert(forall|i: int|
                0 <= i < st2.0.len() - 1 ==> #[trigger] st2.0[i] == st.0[i]);
            assert(st2.0.last() == fw);
            assert(forall|i: int, j: int| 0 <= i < j < st2.0.len() ==> st2.0[i] != st2.0[j]);
        }
    }
}

proof fn lemma_tally_grams_inv(model: ModelV, oi: int, gs: Seq<Seq<char>>, st: TallyV)
    requires
        tally_inv(st),
    ensures
        tally_inv(tally_grams(model, oi, gs, st)),
    decreases gs.len(),
{
    if gs.len() > 0 {
        lemma_step_inv(model, oi, gs[0], st);
        lemma_tally_grams_inv(model, oi, gs.drop_first(), step_state(model, oi, gs[0], st));
    }
}

proof fn lemma_tally_down_inv(model: ModelV, s: Seq<char>, o: int, st: TallyV)
    requires
        tally_inv(st),
    ensures
        tally_inv(tally_down(model, s, o, st)),
    decreases o,
{
    if o > 0 {
        lemma_tally_grams_inv(model, o - 1, grams_of(s, o), st);
        lemma_tally_down_inv(model, s, o - 1, tally_grams(model, o - 1, grams_of(s, o), st));
    }
}

/// Vote de-duplication: over all gram orders combined, classifying a sentence
/// credits each distinct first token at most once — the total number of votes
/// cast equals the number of credited tokens, and no token is credited twice.
pub proof fn lemma_vote_deduplication(model: ModelV, s: Seq<char>)
    ensures
        votes_sum(sentence_tally(model, s).1) == sentence_tally(model, s).0.len(),
        forall|i: int, j: int|
            0 <= i < j < sentence_tally(model, s).0.len() ==> sentence_tally(model, s).0[i]
                != sentence_tally(model, s).0[j],
{
    assert(tally_inv(empty_tally())) by {
        assert(empty_tally().1 =~= Seq::<(Seq<char>, int)>::empty());
    }
    lemma_tally_down_inv(model, s, model.len() as int, empty_tally());
}

/// Determinism of inference: the classified label is a function of the model
/// and the sentence alone — two classifications of the same sentence against
/// the same tables agree.
pub proof fn lemma_classify_deterministic(
    model: ModelV,
    s: Seq<char>,
    r1: Seq<char>,
    r2: Seq<char>,
)
    requires
        r1 == classify_of(model, s),
        r2 == classify_of(model, s),
    ensures
        r1 == r2,
{
}

} // verus!
