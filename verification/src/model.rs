//! The model's data types: per-label gram tables, one table map per gram
//! order, and the full multi-order model.
//!
//! Tables are association vectors with distinct keys, so iteration order —
//! which the classifier's tie-breaks depend on — is the insertion order and
//! is deterministic.

use vstd::prelude::*;

use crate::nums::PROB_MAX;
use crate::nums::TOTAL_MAX;
use crate::strutil::str_eq;

verus! {

/// Gram text paired with its probability, in table order.
pub type ProbsV = Seq<(Seq<char>, u64)>;

/// What a table holds: its sample total and its gram probabilities.
pub type TableV = (u64, ProbsV);

/// One gram order: label names paired with their tables, in table order.
pub type OrderV = Seq<(Seq<char>, TableV)>;

/// The whole model: one `OrderV` per gram order, unigrams first.
pub type ModelV = Seq<OrderV>;

/// First value bound to key `k`, scanning front to back.
pub open spec fn assoc_find<V>(s: Seq<(Seq<char>, V)>, k: Seq<char>) -> Option<V>
    decreases s.len(),
{
    if s.len() == 0 {
        None
    } else if s[0].0 == k {
        Some(s[0].1)
    } else {
        assoc_find(s.drop_first(), k)
    }
}

pub open spec fn assoc_distinct<V>(s: Seq<(Seq<char>, V)>) -> bool {
    forall|i: int, j: int| 0 <= i < j < s.len() ==> s[i].0 != s[j].0
}

/// `s` with key `k` bound to `v`: the binding is updated in place if the key
/// is present, appended otherwise.
pub open spec fn assoc_set<V>(s: Seq<(Seq<char>, V)>, k: Seq<char>, v: V) -> Seq<(Seq<char>, V)>
    decreases s.len(),
{
    if s.len() == 0 {
        seq![(k, v)]
    } else if s[0].0 == k {
        seq![(k, v)] + s.drop_first()
    } else {
        seq![s[0]] + assoc_set(s.drop_first(), k, v)
    }
}

/// If no key in the first `i` entries matches, the scan may start at `i`.
pub proof fn lemma_assoc_find_skip<V>(s: Seq<(Seq<char>, V)>, k: Seq<char>, i: int)
    requires
        0 <= i <= s.len(),
        forall|j: int| 0 <= j < i ==> s[j].0 != k,
    ensures
        assoc_find(s, k) == assoc_find(s.skip(i), k),
    decreases i,
{
    if i > 0 {
        assert(s.drop_first() =~= s.skip(1));
        lemma_assoc_find_skip(s.skip(1), k, i - 1);
        assert(s.skip(1).skip(i - 1) =~= s.skip(i));
    } else {
        assert(s.skip(0) =~= s);
    }
}

/// What `assoc_set` does to lookups, lengths and key distinctness.
pub proof fn lemma_assoc_set<V>(s: Seq<(Seq<char>, V)>, k: Seq<char>, v: V)
    ensures
        assoc_find(assoc_set(s, k, v), k) == Some(v),
        forall|k2: Seq<char>|
            k2 != k ==> assoc_find(assoc_set(s, k, v), k2) == assoc_find(s, k2),
        assoc_distinct(s) ==> assoc_distinct(assoc_set(s, k, v)),
        assoc_find(s, k) is Some ==> assoc_set(s, k, v).len() == s.len(),
        assoc_find(s, k) is None ==> assoc_set(s, k, v) == s + seq![(k, v)],
    decreases s.len(),
{
    let out = assoc_set(s, k, v);
    if s.len() == 0 {
        assert(out =~= seq![(k, v)]);
        assert(out.drop_first() =~= Seq::<(Seq<char>, V)>::empty());
        assert(out == s + seq![(k, v)]) by {
            assert(out =~= s + seq![(k, v)]);
        }
        assert forall|k2: Seq<char>| k2 != k implies assoc_find(out, k2) == assoc_find(
            s,
            k2,
        ) by {
            assert(out[0].0 == k);
            assert(assoc_find(out, k2) == assoc_find(out.drop_first(), k2));
        }
    } else if s[0].0 == k {
        assert(out =~= seq![(k, v)] + s.drop_first());
        assert(out[0] == (k, v));
        assert(out.drop_first() =~= s.drop_first());
        assert(assoc_find(out, k) == Some(v));
        assert forall|k2: Seq<char>| k2 != k implies assoc_find(out, k2) == assoc_find(
            s,
            k2,
        ) by {
            assert(out.drop_first() =~= s.drop_first());
        }
        if assoc_distinct(s) {
            assert forall|i: int, j: int| 0 <= i < j < out.len() implies out[i].0 != out[j].0 by {
                assert(out[0].0 == s[0].0);
                assert(forall|j: int| 1 <= j < out.len() ==> out[j] == s[j]);
            }
        }
    } else {
        lemma_assoc_set(s.drop_first(), k, v);
        assert(out =~= seq![s[0]] + assoc_set(s.drop_first(), k, v));
        assert(out[0] == s[0]);
        assert(out.drop_first() =~= assoc_set(s.drop_first(), k, v));
        assert forall|k2: Seq<char>| k2 != k implies assoc_find(out, k2) == assoc_find(
            s,
            k2,
        ) by {
            if out[0].0 == k2 {
            } else {
                assert(assoc_find(out, k2) == assoc_find(assoc_set(s.drop_first(), k, v), k2));
                assert(assoc_find(s, k2) == assoc_find(s.drop_first(), k2));
            }
        }
        if assoc_distinct(s) {
            assert(assoc_distinct(s.drop_first())) by {
                assert(forall|i: int|
                    0 <= i < s.drop_first().len() ==> #[trigger] s.drop_first()[i] == s[i + 1]);
            }
            let sub = assoc_set(s.drop_first(), k, v);
            assert(assoc_distinct(sub));
            // the head key differs from every key of `sub`
            assert forall|j: int| 1 <= j < out.len() implies out[0].0 != (#[trigger] out[j]).0 by {
                if assoc_find(s.drop_first(), k) is None {
                    assert(sub == s.drop_first() + seq![(k, v)]);
                    if j < out.len() - 1 {
                        assert(out[j] == s.drop_first()[j - 1]);
                        assert(out[j] == s[j]);
                    } else {
                        assert(out[j] == (k, v));
                    }
                } else {
                    assert(sub.len() == s.drop_first().len());
                    lemma_assoc_set_keys(s.drop_first(), k, v, j - 1);
                    assert(out[j] == sub[j - 1]);
                }
            }
            assert(assoc_distinct(out)) by {
                assert(forall|i: int, j: int|
                    1 <= i < j < out.len() ==> out[i].0 != out[j].0) by {
                    assert(forall|i: int|
                        1 <= i < out.len() ==> #[trigger] out[i] == sub[i - 1]);
                }
            }
        }
        if assoc_find(s, k) is None {
            assert(out =~= s + seq![(k, v)]);
        }
    }
}

/// Each key of `assoc_set(s, k, v)` is either `k` or a key of `s`.
pub proof fn lemma_assoc_set_keys<V>(s: Seq<(Seq<char>, V)>, k: Seq<char>, v: V, j: int)
    requires
        0 <= j < assoc_set(s, k, v).len(),
    ensures
        assoc_set(s, k, v)[j].0 == k || exists|i: int|
            0 <= i < s.len() && s[i].0 == #[trigger] assoc_set(s, k, v)[j].0,
    decreases s.len(),
{
    let out = assoc_set(s, k, v);
    if s.len() == 0 {
    } else if s[0].0 == k {
        assert(out =~= seq![(k, v)] + s.drop_first());
        if j > 0 {
            assert(out[j] == s.drop_first()[j - 1]);
            assert(out[j] == s[j]);
        }
    } else {
        assert(out =~= seq![s[0]] + assoc_set(s.drop_first(), k, v));
        if j > 0 {
            lemma_assoc_set_keys(s.drop_first(), k, v, j - 1);
            assert(out[j] == assoc_set(s.drop_first(), k, v)[j - 1]);
            if assoc_set(s.drop_first(), k, v)[j - 1].0 != k {
                let i = choose|i: int|
                    0 <= i < s.drop_first().len() && s.drop_first()[i].0 == assoc_set(
                        s.drop_first(),
                        k,
                        v,
                    )[j - 1].0;
                assert(s[i + 1].0 == out[j].0);
            }
        }
    }
}

/// Per-label probability table for one gram order.
pub struct GramTable {
    /// Number of samples the table was built from.
    pub total_samples: u64,
    /// Gram text paired with its observed probability, in insertion order.
    pub probabilities: Vec<(String, u64)>,
}

impl GramTable {
    pub open spec fn probs(&self) -> ProbsV {
        self.probabilities@.map_values(|e: (String, u64)| (e.0@, e.1))
    }

    pub open spec fn view_of(&self) -> TableV {
        (self.total_samples, self.probs())
    }

    pub open spec fn prob_of(&self, g: Seq<char>) -> Option<u64> {
        assoc_find(self.probs(), g)
    }

    pub open spec fn wf(&self) -> bool {
        &&& assoc_distinct(self.probs())
        &&& self.total_samples <= TOTAL_MAX
        &&& forall|i: int| 0 <= i < self.probs().len() ==> (#[trigger] self.probs()[i]).1 <= PROB_MAX
    }

    pub fn new() -> (r: GramTable)
        ensures
            r.total_samples == 0,
            r.probs() =~= Seq::<(Seq<char>, u64)>::empty(),
            r.wf(),
    {
        GramTable { total_samples: 0, probabilities: Vec::new() }
    }

    /// Probability recorded for `gram`, if any.
    pub fn get_prob(&self, gram: &str) -> (r: Option<u64>)
        ensures
            r == self.prob_of(gram@),
    {
        let n = self.probabilities.len();
        let mut i: usize = 0;
        while i < n
            invariant
                0 <= i <= n,
                n == self.probabilities@.len(),
                forall|j: int| 0 <= j < i ==> self.probs()[j].0 != gram@,
            decreases n - i,
        {
            if str_eq(self.probabilities[i].0.as_str(), gram) {
                proof {
                    lemma_assoc_find_skip(self.probs(), gram@, i as int);
                    assert(self.probs().skip(i as int)[0] == self.probs()[i as int]);
                }
                return Some(self.probabilities[i].1);
            }
            proof {
                assert(self.probs()[i as int].0 == self.probabilities@[i as int].0@);
            }
            i += 1;
        }
        proof {
            lemma_assoc_find_skip(self.probs(), gram@, n as int);
            assert(self.probs().skip(n as int) =~= Seq::<(Seq<char>, u64)>::empty());
        }
        None
    }

    /// Binds `gram` to probability `p`, updating in place or appending.
    pub fn set_prob(&mut self, gram: String, p: u64)
        ensures
            final(self).total_samples == old(self).total_samples,
            final(self).probs() == assoc_set(old(self).probs(), gram@, p),
    {
        let n = self.probabilities.len();
        let mut i: usize = 0;
        while i < n
            invariant
                0 <= i <= n,
                n == self.probabilities@.len(),
                *self == *old(self),
                forall|j: int| 0 <= j < i ==> self.probs()[j].0 != gram@,
            decreases n - i,
        {
            if str_eq(self.probabilities[i].0.as_str(), gram.as_str()) {
                self.probabilities[i] = (gram, p);
                proof {
                    lemma_assoc_set_prefix(old(self).probs(), gram@, p, i as int);
                    assert(self.probs() =~= assoc_set(old(self).probs(), gram@, p));
                }
                return ;
            }
            proof {
                assert(self.probs()[i as int].0 == self.probabilities@[i as int].0@);
            }
            i += 1;
        }
        self.probabilities.push((gram, p));
        proof {
            lemma_assoc_set_absent(old(self).probs(), gram@, p, n as int);
            assert(self.probs() =~= old(self).probs() + seq![(gram@, p)]);
            assert(self.probs() =~= assoc_set(old(self).probs(), gram@, p));
        }
    }
}

/// Setting a key found first at index `i` rewrites exactly that entry.
pub proof fn lemma_assoc_set_prefix<V>(s: Seq<(Seq<char>, V)>, k: Seq<char>, v: V, i: int)
    requires
        0 <= i < s.len(),
        s[i].0 == k,
        forall|j: int| 0 <= j < i ==> s[j].0 != k,
    ensures
        assoc_set(s, k, v) == s.update(i, (k, v)),
    decreases i,
{
    if i == 0 {
        assert(assoc_set(s, k, v) =~= s.update(0, (k, v)));
    } else {
        assert(s.drop_first()[i - 1].0 == k);
        assert(forall|j: int| 0 <= j < i - 1 ==> s.drop_first()[j] == s[j + 1]);
        lemma_assoc_set_prefix(s.drop_first(), k, v, i - 1);
        assert(assoc_set(s, k, v) =~= seq![s[0]] + s.drop_first().update(i - 1, (k, v)));
        assert(seq![s[0]] + s.drop_first().update(i - 1, (k, v)) =~= s.update(i, (k, v)));
    }
}

/// Setting an absent key appends it.
pub proof fn lemma_assoc_set_absent<V>(s: Seq<(Seq<char>, V)>, k: Seq<char>, v: V, n: int)
    requires
        n == s.len(),
        forall|j: int| 0 <= j < n ==> s[j].0 != k,
    ensures
        assoc_set(s, k, v) == s + seq![(k, v)],
    decreases n,
{
    if n == 0 {
        assert(assoc_set(s, k, v) =~= s + seq![(k, v)]);
    } else {
        assert(forall|j: int| 0 <= j < n - 1 ==> s.drop_first()[j] == s[j + 1]);
        lemma_assoc_set_absent(s.drop_first(), k, v, n - 1);
        assert(assoc_set(s, k, v) =~= seq![s[0]] + (s.drop_first() + seq![(k, v)]));
        assert(seq![s[0]] + (s.drop_first() + seq![(k, v)]) =~= s + seq![(k, v)]);
    }
}

/// All per-label tables of one gram order.
pub struct LabelTables {
    /// Label names paired with their tables, in insertion order.
    pub entries: Vec<(String, GramTable)>,
}

impl LabelTables {
    pub open spec fn tables(&self) -> Seq<(Seq<char>, GramTable)> {
        self.entries@.map_values(|e: (String, GramTable)| (e.0@, e.1))
    }

    pub open spec fn view_of(&self) -> OrderV {
        self.entries@.map_values(|e: (String, GramTable)| (e.0@, e.1.view_of()))
    }

    pub open spec fn table_of(&self, label: Seq<char>) -> Option<GramTable> {
        assoc_find(self.tables(), label)
    }

    pub open spec fn wf(&self) -> bool {
        &&& assoc_distinct(self.tables())
        &&& forall|i: int| 0 <= i < self.tables().len() ==> (#[trigger] self.tables()[i]).1.wf()
    }

    pub fn new() -> (r: LabelTables)
        ensures
            r.tables() =~= Seq::<(Seq<char>, GramTable)>::empty(),
            r.view_of() =~= Seq::<(Seq<char>, TableV)>::empty(),
            r.wf(),
    {
        LabelTables { entries: Vec::new() }
    }
}

/// A multi-order n-gram model: `ngram_maps[k]` holds the tables for grams of
/// `k + 1` words.
pub struct NGram {
    pub ngram_maps: Vec<LabelTables>,
    pub max_grams: i8,
}

/// Deep mathematical view of a sequence of per-order table maps.
pub open spec fn model_view(maps: Seq<LabelTables>) -> ModelV {
    maps.map_values(|m: LabelTables| m.view_of())
}

pub open spec fn maps_wf(maps: Seq<LabelTables>) -> bool {
    forall|i: int| 0 <= i < maps.len() ==> (#[trigger] maps[i]).wf()
}

impl NGram {
    pub open spec fn wf(&self) -> bool {
        maps_wf(self.ngram_maps@)
    }
}

} // verus!
