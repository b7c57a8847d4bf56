//! Transition-count aggregation: counting `(from, to)` pairs and keeping,
//! per `from` state, the hundred most frequent successors.

use vstd::prelude::*;

use crate::model::assoc_distinct;
use crate::model::assoc_find;
use crate::model::assoc_set;
use crate::model::lemma_assoc_find_skip;
use crate::model::lemma_assoc_set;
use crate::strutil::str_copy;
use crate::strutil::str_eq;
use crate::train::counts_set;
use crate::util::InputTup;

verus! {

/// Transition totals: for each `from` state, its successor counts.
pub struct StateTotals {
    pub entries: Vec<(String, Vec<(String, u64)>)>,
}

/// View of an inner successor-count list.
pub open spec fn inner_view(v: Seq<(String, u64)>) -> Seq<(Seq<char>, u64)> {
    v.map_values(|e: (String, u64)| (e.0@, e.1))
}

/// View of a grouped transition-count list.
pub open spec fn groups_of(r: Seq<(String, Vec<(String, u64)>)>) -> Seq<
    (Seq<char>, Seq<(Seq<char>, u64)>),
> {
    r.map_values(|e: (String, Vec<(String, u64)>)| (e.0@, inner_view(e.1@)))
}

impl StateTotals {
    pub open spec fn totals(&self) -> Seq<(Seq<char>, Seq<(Seq<char>, u64)>)> {
        groups_of(self.entries@)
    }

    pub fn new() -> (r: StateTotals)
        ensures
            r.totals() =~= Seq::<(Seq<char>, Seq<(Seq<char>, u64)>)>::empty(),
    {
        StateTotals { entries: Vec::new() }
    }
}

/// How many input pairs are exactly `(from, to)`.
pub open spec fn pair_count(inputs: Seq<InputTup>, from: Seq<char>, to: Seq<char>) -> int
    decreases inputs.len(),
{
    if inputs.len() == 0 {
        0int
    } else {
        pair_count(inputs.drop_last(), from, to) + if inputs.last().0@ == from
            && inputs.last().1@ == to {
            1int
        } else {
            0int
        }
    }
}

pub proof fn lemma_pair_count_nonneg(inputs: Seq<InputTup>, from: Seq<char>, to: Seq<char>)
    ensures
        0 <= pair_count(inputs, from, to) <= inputs.len(),
    decreases inputs.len(),
{
    if inputs.len() > 0 {
        lemma_pair_count_nonneg(inputs.drop_last(), from, to);
    }
}

/// The successor counts for `from_state` after observing one more
/// transition to `to_state`: the stored counts with that successor's count
/// raised by one, or a fresh single-entry list when the state is new.
pub fn feed_totals(totals: &StateTotals, from_state: &String, to_state: &String) -> (r: Vec<
    (String, u64),
>)
    requires
        match assoc_find(totals.totals(), from_state@) {
            Some(m) => match assoc_find(m, to_state@) {
                Some(c) => c < u64::MAX,
                None => true,
            },
            None => true,
        },
    ensures
        inner_view(r@) == match assoc_find(totals.totals(), from_state@) {
            Some(m) => assoc_set(
                m,
                to_state@,
                (match assoc_find(m, to_state@) {
                    Some(c) => c + 1,
                    None => 1,
                }) as u64,
            ),
            None => seq![(to_state@, 1u64)],
        },
{
    let n = totals.entries.len();
    let mut i: usize = 0;
    while i < n
        invariant
            0 <= i <= n,
            n == totals.entries@.len(),
            forall|j: int| 0 <= j < i ==> totals.totals()[j].0 != from_state@,
            match assoc_find(totals.totals(), from_state@) {
                Some(m) => match assoc_find(m, to_state@) {
                    Some(c) => c < u64::MAX,
                    None => true,
                },
                None => true,
            },
        decreases n - i,
    {
        if str_eq(totals.entries[i].0.as_str(), from_state.as_str()) {
            proof {
                lemma_assoc_find_skip(totals.totals(), from_state@, i as int);
                assert(totals.totals().skip(i as int)[0] == totals.totals()[i as int]);
                assert(totals.totals()[i as int] == (totals.entries@[i as int].0@, inner_view(
                    totals.entries@[i as int].1@,
                )));
            }
            let ghost m = inner_view(totals.entries@[i as int].1@);
            let mut to_map = clone_counts(&totals.entries[i].1);
            let current_total = inner_get(&to_map, to_state.as_str());
            let newc = current_total + 1;
            counts_set(&mut to_map, to_state, newc);
            proof {
                assert(inner_view(to_map@) == assoc_set(m, to_state@, newc));
            }
            return to_map;
        }
        proof {
            assert(totals.totals()[i as int].0 == totals.entries@[i as int].0@);
        }
        i += 1;
    }
    proof {
        lemma_assoc_find_skip(totals.totals(), from_state@, n as int);
        assert(totals.totals().skip(n as int)
            =~= Seq::<(Seq<char>, Seq<(Seq<char>, u64)>)>::empty());
    }
    let mut to_map: Vec<(String, u64)> = Vec::new();
    to_map.push((str_copy(to_state.as_str()), 1));
    proof {
        assert(inner_view(to_map@) =~= seq![(to_state@, 1u64)]);
    }
    to_map
}

/// A copy of a successor-count list.
fn clone_counts(v: &Vec<(String, u64)>) -> (r: Vec<(String, u64)>)
    ensures
        inner_view(r@) == inner_view(v@),
{
    let mut out: Vec<(String, u64)> = Vec::new();
    let n = v.len();
    let mut i: usize = 0;
    while i < n
        invariant
            0 <= i <= n,
            n == v@.len(),
            inner_view(out@) =~= inner_view(v@).take(i as int),
        decreases n - i,
    {
        let entry = (str_copy(v[i].0.as_str()), v[i].1);
        let ghost prev = inner_view(out@);
        let ghost ev = (entry.0@, entry.1);
        out.push(entry);
        proof {
            assert(inner_view(v@)[i as int] == (v@[i as int].0@, v@[i as int].1));
            assert(inner_view(out@) =~= prev.push(ev));
            assert(prev.push(ev) =~= inner_view(v@).take(i + 1));
        }
        i += 1;
    }
    proof {
        assert(inner_view(v@).take(n as int) =~= inner_view(v@));
    }
    out
}

/// Count stored for a successor, zero if absent.
fn inner_get(v: &Vec<(String, u64)>, to: &str) -> (r: u64)
    ensures
        r as int == match assoc_find(inner_view(v@), to@) {
            Some(c) => c as int,
            None => 0int,
        },
{
    let n = v.len();
    let mut i: usize = 0;
    while i < n
        invariant
            0 <= i <= n,
            n == v@.len(),
            forall|j: int| 0 <= j < i ==> inner_view(v@)[j].0 != to@,
        decreases n - i,
    {
        if str_eq(v[i].0.as_str(), to) {
            proof {
                lemma_assoc_find_skip(inner_view(v@), to@, i as int);
                assert(inner_view(v@).skip(i as int)[0] == inner_view(v@)[i as int]);
            }
            return v[i].1;
        }
        proof {
            assert(inner_view(v@)[i as int].0 == v@[i as int].0@);
        }
        i += 1;
    }
    proof {
        lemma_assoc_find_skip(inner_view(v@), to@, n as int);
        assert(inner_view(v@).skip(n as int) =~= Seq::<(Seq<char>, u64)>::empty());
    }
    0
}

/// Removing one entry of a distinct-key list unbinds exactly its key.
proof fn lemma_assoc_find_remove(s: Seq<(Seq<char>, u64)>, idx: int)
    requires
        assoc_distinct(s),
        0 <= idx < s.len(),
    ensures
        forall|k: Seq<char>|
            #[trigger] assoc_find(s.remove(idx), k) == if s[idx].0 == k {
                None::<u64>
            } else {
                assoc_find(s, k)
            },
    decreases idx,
{
    let u = s.remove(idx);
    if idx == 0 {
        assert(u =~= s.drop_first());
        assert forall|k: Seq<char>|
            #[trigger] assoc_find(u, k) == if s[0].0 == k {
                None::<u64>
            } else {
                assoc_find(s, k)
            } by {
            if s[0].0 == k {
                if assoc_find(u, k) is Some {
                    crate::train::lemma_assoc_find_index(u, k);
                    let w = choose|w: int| 0 <= w < u.len() && (#[trigger] u[w]).0 == k;
                    assert(s[w + 1].0 == s[0].0);
                }
            }
        }
    } else {
        assert(assoc_distinct(s.drop_first())) by {
            assert(forall|i: int|
                0 <= i < s.drop_first().len() ==> #[trigger] s.drop_first()[i] == s[i + 1]);
        }
        lemma_assoc_find_remove(s.drop_first(), idx - 1);
        assert(u[0] == s[0]);
        assert(u.drop_first() =~= s.drop_first().remove(idx - 1));
        assert(s.drop_first()[idx - 1] == s[idx]);
        assert forall|k: Seq<char>|
            #[trigger] assoc_find(u, k) == if s[idx].0 == k {
                None::<u64>
            } else {
                assoc_find(s, k)
            } by {
            if u[0].0 == k {
                assert(s[0].0 == k);
                if s[idx].0 == k {
                    assert(s[0].0 == s[idx].0);
                }
            } else {
                assert(assoc_find(u, k) == assoc_find(u.drop_first(), k));
                assert(assoc_find(s, k) == assoc_find(s.drop_first(), k));
            }
        }
    }
}

/// The grouped transition counts are exactly the pair counts.
pub open spec fn groups_count_ok(
    gv: Seq<(Seq<char>, Seq<(Seq<char>, u64)>)>,
    inputs: Seq<InputTup>,
) -> bool {
    forall|from: Seq<char>|
        match #[trigger] assoc_find(gv, from) {
            Some(m) => forall|to: Seq<char>|
                match #[trigger] assoc_find(m, to) {
                    Some(c) => c == pair_count(inputs, from, to) && c >= 1,
                    None => pair_count(inputs, from, to) == 0,
                },
            None => forall|to: Seq<char>| #[trigger] pair_count(inputs, from, to) == 0,
        }
}

/// One more pair raises exactly its own count.
proof fn lemma_pair_count_step(pre: Seq<InputTup>, p: InputTup)
    ensures
        forall|from: Seq<char>, to: Seq<char>|
            #[trigger] pair_count(pre.push(p), from, to) == pair_count(pre, from, to) + (if p.0@
                == from && p.1@ == to {
                1int
            } else {
                0int
            }),
{
    assert forall|from: Seq<char>, to: Seq<char>|
        #[trigger] pair_count(pre.push(p), from, to) == pair_count(pre, from, to) + (if p.0@
            == from && p.1@ == to {
            1int
        } else {
            0int
        }) by {
        assert(pre.push(p).drop_last() =~= pre);
        assert(pre.push(p).last() == p);
    }
}

/// Groups the transitions by their from-state, counting each successor.
fn group_pairs(input_data: &Vec<InputTup>) -> (r: Vec<(String, Vec<(String, u64)>)>)
    ensures
        assoc_distinct(
            groups_of(r@),
        ),
        groups_count_ok(
            groups_of(r@),
            input_data@,
        ),
        forall|k2: int|
            0 <= k2 < r@.len() ==> assoc_distinct(
                (#[trigger] groups_of(r@)[k2]).1,
            ),
{
    let mut groups: Vec<(String, Vec<(String, u64)>)> = Vec::new();
    let n = input_data.len();
    let mut i: usize = 0;
    proof {
        assert(groups_of(groups@)
            =~= Seq::<(Seq<char>, Seq<(Seq<char>, u64)>)>::empty());
        assert(input_data@.take(0) =~= Seq::<InputTup>::empty());
    }
    while i < n
        invariant
            0 <= i <= n,
            n == input_data@.len(),
            assoc_distinct(
                groups_of(groups@),
            ),
            groups_count_ok(
                groups_of(groups@),
                input_data@.take(i as int),
            ),
            forall|k2: int|
                0 <= k2 < groups@.len() ==> assoc_distinct(
                    (#[trigger] groups_of(groups@)[k2]).1,
                ),
        decreases n - i,
    {
        let ghost gv = groups_of(groups@);
        let ghost pre = input_data@.take(i as int);
        let ghost post = input_data@.take(i + 1);
        let pair = &input_data[i];
        proof {
            assert(post =~= pre.push(input_data@[i as int]));
            lemma_pair_count_step(pre, input_data@[i as int]);
        }
        // find or create the from-state's group
        let ng = groups.len();
        let mut k: usize = 0;
        let mut found = false;
        while k < ng && !found
            invariant
                0 <= k <= ng,
                ng == groups@.len(),
                gv == groups_of(groups@),
                !found ==> forall|j: int| 0 <= j < k ==> gv[j].0 != pair.0@,
                found ==> k < ng && gv[k as int].0 == pair.0@,
            decreases ng - k + if found {
                0int
            } else {
                1int
            },
        {
            if str_eq(groups[k].0.as_str(), pair.0.as_str()) {
                found = true;
            } else {
                proof {
                    assert(gv[k as int].0 == groups@[k as int].0@);
                }
                k += 1;
            }
        }
        if found {
            let ghost g0 = groups@;
            let (lab, mut inner) = groups.remove(k);
            let ghost inner0 = inner_view(inner@);
            proof {
                lemma_assoc_find_skip(gv, pair.0@, k as int);
                assert(gv.skip(k as int)[0] == gv[k as int]);
                assert(assoc_find(gv, pair.0@) == Some(inner0)) by {
                    assert(gv[k as int].1 == inner_view(g0[k as int].1@));
                }
            }
            let cur = inner_get(&inner, pair.1.as_str());
            proof {
                lemma_pair_count_nonneg(pre, pair.0@, pair.1@);
                assert(assoc_find(assoc_find(gv, pair.0@)->Some_0, pair.1@) == assoc_find(
                    inner0,
                    pair.1@,
                ));
                assert(match assoc_find(inner0, pair.1@) {
                    Some(c) => c == pair_count(pre, pair.0@, pair.1@) && c >= 1,
                    None => pair_count(pre, pair.0@, pair.1@) == 0,
                });
                assert(cur as int == pair_count(pre, pair.0@, pair.1@));
                assert(cur < u64::MAX);
            }
            counts_set(&mut inner, &pair.1, cur + 1);
            let ghost inner2 = inner_view(inner@);
            proof {
                lemma_assoc_set(inner0, pair.1@, (cur + 1) as u64);
            }
            groups.insert(k, (lab, inner));
            proof {
                let gv2 = groups_of(groups@);
                assert(gv2 =~= gv.update(k as int, (pair.0@, inner2)));
                crate::train::lemma_assoc_update(gv, k as int, (pair.0@, inner2));
                assert forall|from: Seq<char>|
                    match #[trigger] assoc_find(gv2, from) {
                        Some(m) => forall|to: Seq<char>|
                            match #[trigger] assoc_find(m, to) {
                                Some(c) => c == pair_count(post, from, to) && c >= 1,
                                None => pair_count(post, from, to) == 0,
                            },
                        None => forall|to: Seq<char>| #[trigger] pair_count(post, from, to) == 0,
                    } by {
                    if from == pair.0@ {
                        assert(assoc_find(gv2, from) == Some(inner2));
                        assert forall|to: Seq<char>|
                            match #[trigger] assoc_find(inner2, to) {
                                Some(c) => c == pair_count(post, from, to) && c >= 1,
                                None => pair_count(post, from, to) == 0,
                            } by {
                            if to == pair.1@ {
                                assert(assoc_find(inner2, to) == Some((cur + 1) as u64));
                            } else {
                                assert(assoc_find(inner2, to) == assoc_find(inner0, to));
                            }
                        }
                    } else {
                        assert(assoc_find(gv2, from) == assoc_find(gv, from));
                    }
                }
                assert forall|k2: int|
                    0 <= k2 < groups@.len() implies assoc_distinct((#[trigger] gv2[k2]).1) by {
                    if k2 != k {
                        assert(gv2[k2] == gv[k2]);
                    }
                }
            }
        } else {
            let mut inner: Vec<(String, u64)> = Vec::new();
            inner.push((str_copy(pair.1.as_str()), 1));
            let ghost inner2 = inner_view(inner@);
            groups.push((str_copy(pair.0.as_str()), inner));
            proof {
                lemma_assoc_find_skip(gv, pair.0@, ng as int);
                assert(gv.skip(ng as int) =~= Seq::<(Seq<char>, Seq<(Seq<char>, u64)>)>::empty());
                assert(assoc_find(gv, pair.0@) is None);
                let gv2 = groups_of(groups@);
                assert(gv2 =~= gv + seq![(pair.0@, inner2)]);
                crate::train::lemma_assoc_append(gv, (pair.0@, inner2));
                assert(inner2 =~= seq![(pair.1@, 1u64)]);
                lemma_pair_count_nonneg(pre, pair.0@, pair.1@);
                assert forall|from: Seq<char>|
                    match #[trigger] assoc_find(gv2, from) {
                        Some(m) => forall|to: Seq<char>|
                            match #[trigger] assoc_find(m, to) {
                                Some(c) => c == pair_count(post, from, to) && c >= 1,
                                None => pair_count(post, from, to) == 0,
                            },
                        None => forall|to: Seq<char>| #[trigger] pair_count(post, from, to) == 0,
                    } by {
                    if from == pair.0@ {
                        assert(assoc_find(gv2, from) == Some(inner2));
                        assert forall|to: Seq<char>|
                            match #[trigger] assoc_find(inner2, to) {
                                Some(c) => c == pair_count(post, from, to) && c >= 1,
                                None => pair_count(post, from, to) == 0,
                            } by {
                            assert(inner2[0] == (pair.1@, 1u64));
                            assert(inner2.drop_first() =~= Seq::<(Seq<char>, u64)>::empty());
                            if to == pair.1@ {
                                assert(assoc_find(inner2, to) == Some(1u64));
                                assert(pair_count(pre, from, to) == 0);
                            } else {
                                assert(assoc_find(inner2, to) == assoc_find(
                                    inner2.drop_first(),
                                    to,
                                ));
                                assert(assoc_find(inner2, to) is None);
                                lemma_counts_at_absent(gv, pre, from, to);
                            }
                        }
                    } else {
                        assert(assoc_find(gv2, from) == assoc_find(gv, from));
                    }
                }
                assert(assoc_distinct(gv2)) by {
                    assert forall|a: int, b: int| 0 <= a < b < gv2.len() implies (
                    #[trigger] gv2[a]).0 != (#[trigger] gv2[b]).0 by {
                        if b == gv2.len() - 1 {
                            assert(gv2[a] == gv[a]);
                            if gv[a].0 == pair.0@ {
                                crate::train::lemma_assoc_find_at(gv, pair.0@, a);
                            }
                        } else {
                            assert(gv2[a] == gv[a] && gv2[b] == gv[b]);
                        }
                    }
                }
                assert forall|k2: int|
                    0 <= k2 < groups@.len() implies assoc_distinct((#[trigger] gv2[k2]).1) by {
                    if k2 < gv.len() {
                        assert(gv2[k2] == gv[k2]);
                    } else {
                        assert(gv2[k2].1 == inner2);
                    }
                }
            }
        }
        i += 1;
    }
    proof {
        assert(input_data@.take(n as int) =~= input_data@);
    }
    groups
}

/// A deep copy of transition totals.
fn totals_clone(st: &StateTotals) -> (r: StateTotals)
    ensures
        r.totals() == st.totals(),
{
    let mut entries: Vec<(String, Vec<(String, u64)>)> = Vec::new();
    let n = st.entries.len();
    let mut i: usize = 0;
    while i < n
        invariant
            0 <= i <= n,
            n == st.entries@.len(),
            groups_of(entries@)
                =~= st.totals().take(i as int),
        decreases n - i,
    {
        let entry = (str_copy(st.entries[i].0.as_str()), clone_counts(&st.entries[i].1));
        let ghost prev = groups_of(entries@);
        let ghost ev = (entry.0@, inner_view(entry.1@));
        entries.push(entry);
        proof {
            assert(st.totals()[i as int] == (st.entries@[i as int].0@, inner_view(
                st.entries@[i as int].1@,
            )));
            assert(groups_of(entries@) =~= prev.push(ev));
            assert(prev.push(ev) =~= st.totals().take(i + 1));
        }
        i += 1;
    }
    proof {
        assert(st.totals().take(n as int) =~= st.totals());
    }
    let r = StateTotals { entries };
    proof {
        assert(r.totals() =~= st.totals());
    }
    r
}

/// Binds one from-state's successor list.
fn totals_set(st: &mut StateTotals, from: &String, tos: Vec<(String, u64)>)
    ensures
        final(st).totals() == assoc_set(old(st).totals(), from@, inner_view(tos@)),
{
    let n = st.entries.len();
    let mut i: usize = 0;
    while i < n
        invariant
            0 <= i <= n,
            n == st.entries@.len(),
            *st == *old(st),
            forall|j: int| 0 <= j < i ==> st.totals()[j].0 != from@,
        decreases n - i,
    {
        if str_eq(st.entries[i].0.as_str(), from.as_str()) {
            st.entries[i] = (str_copy(from.as_str()), tos);
            proof {
                crate::model::lemma_assoc_set_prefix(
                    old(st).totals(),
                    from@,
                    inner_view(st.entries@[i as int].1@),
                    i as int,
                );
                assert(st.totals() =~= assoc_set(
                    old(st).totals(),
                    from@,
                    inner_view(st.entries@[i as int].1@),
                ));
            }
            return ;
        }
        proof {
            assert(st.totals()[i as int].0 == st.entries@[i as int].0@);
        }
        i += 1;
    }
    st.entries.push((str_copy(from.as_str()), tos));
    proof {
        crate::model::lemma_assoc_set_absent(
            old(st).totals(),
            from@,
            inner_view(st.entries@.last().1@),
            n as int,
        );
        assert(st.totals() =~= old(st).totals() + seq![
            (from@, inner_view(st.entries@.last().1@)),
        ]);
        assert(st.totals() =~= assoc_set(
            old(st).totals(),
            from@,
            inner_view(st.entries@.last().1@),
        ));
    }
}

/// Appending a fresh key leaves other lookups alone.
proof fn lemma_push_find(s: Seq<(Seq<char>, u64)>, e: (Seq<char>, u64))
    requires
        assoc_find(s, e.0) is None,
    ensures
        forall|k: Seq<char>|
            #[trigger] assoc_find(s.push(e), k) == if k == e.0 {
                Some(e.1)
            } else {
                assoc_find(s, k)
            },
    decreases s.len(),
{
    let u = s.push(e);
    if s.len() == 0 {
        assert(u[0] == e);
        assert(u.drop_first() =~= Seq::<(Seq<char>, u64)>::empty());
        assert forall|k: Seq<char>|
            #[trigger] assoc_find(u, k) == (if k == e.0 {
                Some(e.1)
            } else {
                assoc_find(s, k)
            }) by {
            if k != e.0 {
                assert(assoc_find(u, k) == assoc_find(u.drop_first(), k));
            }
        }
    } else {
        assert(u[0] == s[0]);
        assert(u.drop_first() =~= s.drop_first().push(e));
        lemma_push_find(s.drop_first(), e);
        assert forall|k: Seq<char>|
            #[trigger] assoc_find(u, k) == (if k == e.0 {
                Some(e.1)
            } else {
                assoc_find(s, k)
            }) by {
            if u[0].0 == k {
                if k == e.0 {
                    assert(assoc_find(s, e.0) == Some(s[0].1));
                }
            } else {
                assert(assoc_find(u, k) == assoc_find(u.drop_first(), k));
                assert(assoc_find(s, k) == assoc_find(s.drop_first(), k));
            }
        }
    }
}

/// A distinct list's binding at an index is what lookup returns.
pub(crate) proof fn lemma_find_gives_value(s: Seq<(Seq<char>, u64)>, k: Seq<char>, idx: int)
    requires
        assoc_distinct(s),
        0 <= idx < s.len(),
        s[idx].0 == k,
    ensures
        assoc_find(s, k) == Some(s[idx].1),
    decreases idx,
{
    if idx == 0 {
    } else {
        assert(s[0].0 != k);
        assert(assoc_distinct(s.drop_first())) by {
            assert(forall|i: int|
                0 <= i < s.drop_first().len() ==> #[trigger] s.drop_first()[i] == s[i + 1]);
        }
        assert(s.drop_first()[idx - 1] == s[idx]);
        lemma_find_gives_value(s.drop_first(), k, idx - 1);
    }
}

/// A take-prefix one longer binds the new key when it was absent.
proof fn lemma_take_find_step(mv: Seq<(Seq<char>, u64)>, j: int)
    requires
        0 <= j < mv.len(),
        assoc_distinct(mv),
    ensures
        forall|to: Seq<char>|
            #[trigger] assoc_find(mv.take(j + 1), to) == if mv[j].0 == to {
                Some(mv[j].1)
            } else {
                assoc_find(mv.take(j), to)
            },
{
    assert(mv.take(j + 1) =~= mv.take(j).push(mv[j]));
    assert(assoc_find(mv.take(j), mv[j].0) is None) by {
        if assoc_find(mv.take(j), mv[j].0) is Some {
            crate::train::lemma_assoc_find_index(mv.take(j), mv[j].0);
            let w = choose|w: int|
                0 <= w < mv.take(j).len() && (#[trigger] mv.take(j)[w]).0 == mv[j].0;
            assert(mv[w].0 == mv[j].0);
        }
    }
    lemma_push_find(mv.take(j), mv[j]);
}

/// A distinct prefix stays distinct.
proof fn lemma_distinct_take(mv: Seq<(Seq<char>, u64)>, j: int)
    requires
        assoc_distinct(mv),
        0 <= j <= mv.len(),
    ensures
        assoc_distinct(mv.take(j)),
{
    assert(forall|a: int| 0 <= a < j ==> #[trigger] mv.take(j)[a] == mv[a]);
}

/// The lookup for a group key skips its distinct predecessors.
proof fn lemma_gv_find_skip(
    gv: Seq<(Seq<char>, Seq<(Seq<char>, u64)>)>,
    from: Seq<char>,
    k: int,
)
    requires
        assoc_distinct(gv),
        0 <= k < gv.len(),
        gv[k].0 == from,
    ensures
        assoc_find(gv, from) == Some(gv[k].1),
    decreases k,
{
    if k == 0 {
    } else {
        assert(gv[0].0 != from);
        assert(assoc_distinct(gv.drop_first())) by {
            assert(forall|i: int|
                0 <= i < gv.drop_first().len() ==> #[trigger] gv.drop_first()[i] == gv[i + 1]);
        }
        assert(gv.drop_first()[k - 1] == gv[k]);
        lemma_gv_find_skip(gv.drop_first(), from, k - 1);
    }
}

/// Whether some pair leaves `from` for a nonempty successor.
pub open spec fn from_has_successors(inputs: Seq<InputTup>, from: Seq<char>) -> bool {
    exists|j: int|
        0 <= j < inputs.len() && (#[trigger] inputs[j]).0@ == from && inputs[j].1@.len() > 0
}

/// What a kept successor list must be: distinct nonempty successors with
/// their exact counts, at most one hundred of them, every counted successor
/// kept unless the list is full, and no dropped successor more frequent
/// than a kept one.
pub open spec fn good_top(inputs: Seq<InputTup>, from: Seq<char>, tos: Seq<(Seq<char>, u64)>) -> bool {
    &&& assoc_distinct(tos)
    &&& tos.len() <= 100
    &&& forall|i: int|
        0 <= i < tos.len() ==> (#[trigger] tos[i]).0.len() > 0 && tos[i].1 == pair_count(
            inputs,
            from,
            tos[i].0,
        ) && tos[i].1 >= 1
    &&& forall|to2: Seq<char>|
        to2.len() > 0 && pair_count(inputs, from, to2) >= 1 && #[trigger] assoc_find(
            tos,
            to2,
        ) is None ==> tos.len() == 100
    &&& forall|i: int, to2: Seq<char>|
        0 <= i < tos.len() && to2.len() > 0 && pair_count(inputs, from, to2) >= 1 && #[trigger] assoc_find(
            tos,
            to2,
        ) is None ==> pair_count(inputs, from, to2) <= (#[trigger] tos[i]).1
}

/// Counts every `(from, to)` transition of the input and keeps, for each
/// `from` state that has nonempty successors, its at most one hundred most
/// frequent nonempty successors with their exact counts; all other `from`
/// states keep their initial successor lists.
pub fn feed_totals_multi(input_data: Vec<InputTup>, initial_data: Option<&StateTotals>) -> (r:
    StateTotals)
    ensures
        forall|from: Seq<char>|
            #[trigger] from_has_successors(input_data@, from) ==> match assoc_find(
                r.totals(),
                from,
            ) {
                Some(tos) => good_top(input_data@, from, tos),
                None => false,
            },
        forall|from: Seq<char>|
            !(#[trigger] from_has_successors(input_data@, from)) ==> assoc_find(r.totals(), from)
                == (match initial_data {
                Some(st) => assoc_find(st.totals(), from),
                None => None,
            }),
{
    // count every transition, grouped by its from-state
    let groups = group_pairs(&input_data);
    let ghost gv = groups_of(groups@);
    // start from the initial totals
    let mut totals: StateTotals = match initial_data {
        Some(st) => totals_clone(st),
        None => StateTotals::new(),
    };
    let ghost initial_v = totals.totals();
    let ng = groups.len();
    let mut k: usize = 0;
    while k < ng
        invariant
            0 <= k <= ng,
            ng == groups@.len(),
            gv == groups_of(groups@),
            assoc_distinct(gv),
            groups_count_ok(gv, input_data@),
            forall|k2: int| 0 <= k2 < gv.len() ==> assoc_distinct((#[trigger] gv[k2]).1),
            initial_v == (match initial_data {
                Some(st) => st.totals(),
                None => Seq::<(Seq<char>, Seq<(Seq<char>, u64)>)>::empty(),
            }),
            forall|from: Seq<char>|
                (exists|k2: int|
                    0 <= k2 < k && (#[trigger] gv[k2]).0 == from && from_has_successors(
                        input_data@,
                        from,
                    )) ==> match #[trigger] assoc_find(totals.totals(), from) {
                    Some(tos) => good_top(input_data@, from, tos),
                    None => false,
                },
            forall|from: Seq<char>|
                !(exists|k2: int|
                    0 <= k2 < k && (#[trigger] gv[k2]).0 == from && from_has_successors(
                        input_data@,
                        from,
                    )) ==> #[trigger] assoc_find(totals.totals(), from) == assoc_find(
                    initial_v,
                    from,
                ),
        decreases ng - k,
    {
        let ghost from = gv[k as int].0;
        proof {
            assert(gv[k as int] == (groups@[k as int].0@, inner_view(groups@[k as int].1@)));
            crate::train::lemma_assoc_find_at(gv, from, k as int);
            lemma_gv_find_skip(gv, from, k as int);
        }
        // nonempty successors only
        let m = &groups[k].1;
        let mut remaining: Vec<(String, u64)> = Vec::new();
        let nm = m.len();
        let mut j: usize = 0;
        proof {
            assert(inner_view(m@) == gv[k as int].1);
            assert(assoc_distinct(gv[k as int].1));
        }
        while j < nm
            invariant
                0 <= j <= nm,
                0 <= k < ng,
                ng == groups@.len(),
                nm == m@.len(),
                m == &groups[k as int].1,
                gv == groups_of(groups@),
                assoc_distinct(inner_view(m@)),
                inner_view(m@) == gv[k as int].1,
                assoc_distinct(inner_view(remaining@)),
                forall|t: int|
                    0 <= t < remaining@.len() ==> (#[trigger] inner_view(remaining@)[t]).0.len()
                        > 0,
                forall|to: Seq<char>|
                    #[trigger] assoc_find(inner_view(remaining@), to) == (if to.len() > 0 {
                        assoc_find(inner_view(m@).take(j as int), to)
                    } else {
                        None::<u64>
                    }),
            decreases nm - j,
        {
            let ghost mv = inner_view(m@);
            let ghost pre = mv.take(j as int);
            let ghost post = mv.take(j + 1);
            proof {
                assert(post.drop_last() =~= pre);
                assert(post.last() == mv[j as int]);
                assert(mv[j as int] == (m@[j as int].0@, m@[j as int].1));
                lemma_take_find_step(mv, j as int);
            }
            if m[j].0.as_str().unicode_len() > 0 {
                let ghost prev = inner_view(remaining@);
                let entry = (str_copy(m[j].0.as_str()), m[j].1);
                let ghost ev = (entry.0@, entry.1);
                remaining.push(entry);
                proof {
                    assert(inner_view(remaining@) =~= prev.push(ev));
                    // the key is new in the prefix, so appending binds it
                    assert(assoc_find(pre, ev.0) is None) by {
                        if assoc_find(pre, ev.0) is Some {
                            crate::train::lemma_assoc_find_index(pre, ev.0);
                            let w = choose|w: int|
                                0 <= w < pre.len() && (#[trigger] pre[w]).0 == ev.0;
                            assert(mv[w].0 == mv[j as int].0);
                        }
                    }
                    assert(assoc_find(prev, ev.0) is None) by {
                        assert(assoc_find(prev, ev.0) == (if ev.0.len() > 0 {
                            assoc_find(pre, ev.0)
                        } else {
                            None::<u64>
                        }));
                    }
                    crate::train::lemma_assoc_find_at(inner_view(remaining@), ev.0, prev.len() as int);
                    lemma_push_find(prev, ev);
                    assert(assoc_distinct(inner_view(remaining@))) by {
                        assert forall|a: int, b: int|
                            0 <= a < b < inner_view(remaining@).len() implies (
                        #[trigger] inner_view(remaining@)[a]).0 != (#[trigger] inner_view(
                            remaining@,
                        )[b]).0 by {
                            if b == inner_view(remaining@).len() - 1 {
                                if prev[a].0 == ev.0 {
                                    crate::train::lemma_assoc_find_at(prev, ev.0, a);
                                }
                            }
                        }
                    }
                }
            } else {
                proof {
                    assert(mv[j as int].0.len() == 0);
                    assert forall|to: Seq<char>|
                        #[trigger] assoc_find(inner_view(remaining@), to) == (if to.len() > 0 {
                            assoc_find(post, to)
                        } else {
                            None::<u64>
                        }) by {
                        if to.len() > 0 {
                            assert(to != mv[j as int].0);
                        }
                    }
                }
            }
            j += 1;
        }
        proof {
            assert(inner_view(m@).take(nm as int) =~= inner_view(m@));
        }
        // keep the most frequent hundred
        let ghost rem0 = inner_view(remaining@);
        let mut taken: Vec<(String, u64)> = Vec::new();
        while taken.len() < 100 && remaining.len() > 0
            invariant
                assoc_distinct(inner_view(taken@)),
                assoc_distinct(inner_view(remaining@)),
                taken@.len() <= 100,
                forall|t: int|
                    0 <= t < taken@.len() ==> (#[trigger] inner_view(taken@)[t]).0.len() > 0,
                forall|t: int|
                    0 <= t < remaining@.len() ==> (#[trigger] inner_view(remaining@)[t]).0.len()
                        > 0,
                forall|t: int, u: int|
                    0 <= t < taken@.len() && 0 <= u < remaining@.len() ==> (#[trigger] inner_view(
                        remaining@,
                    )[u]).1 <= (#[trigger] inner_view(taken@)[t]).1,
                forall|to: Seq<char>|
                    match #[trigger] assoc_find(rem0, to) {
                        Some(c) => (assoc_find(inner_view(taken@), to) == Some(c) && assoc_find(
                            inner_view(remaining@),
                            to,
                        ) is None) || (assoc_find(inner_view(remaining@), to) == Some(c)
                            && assoc_find(inner_view(taken@), to) is None),
                        None => assoc_find(inner_view(taken@), to) is None && assoc_find(
                            inner_view(remaining@),
                            to,
                        ) is None,
                    },
            decreases remaining@.len(),
        {
            // first index of a maximal count
            let nr = remaining.len();
            let mut best: usize = 0;
            let mut bi: usize = 1;
            while bi < nr
                invariant
                    0 <= best < bi <= nr || (bi <= nr && best == 0),
                    best < nr,
                    nr == remaining@.len(),
                    nr > 0,
                    forall|u: int|
                        0 <= u < bi ==> (#[trigger] remaining@[u]).1 <= remaining@[best as int].1,
                decreases nr - bi,
            {
                if remaining[bi].1 > remaining[best].1 {
                    best = bi;
                }
                bi += 1;
            }
            let ghost old_rem = inner_view(remaining@);
            let ghost old_taken = inner_view(taken@);
            let e = remaining.remove(best);
            let ghost ev = (e.0@, e.1);
            proof {
                assert(old_rem[best as int] == ev);
                lemma_assoc_find_remove(old_rem, best as int);
                assert(inner_view(remaining@) =~= old_rem.remove(best as int));
                lemma_find_gives_value(old_rem, ev.0, best as int);
                assert(assoc_find(old_rem, ev.0) == Some(ev.1));
                assert(assoc_find(old_taken, ev.0) is None) by {
                    match assoc_find(rem0, ev.0) {
                        Some(c) => {
                            if assoc_find(old_taken, ev.0) is Some {
                                assert(assoc_find(old_rem, ev.0) is None);
                            }
                        },
                        None => {
                            assert(assoc_find(old_rem, ev.0) is None);
                        },
                    }
                }
            }
            taken.push(e);
            proof {
                assert(inner_view(taken@) =~= old_taken.push(ev));
                lemma_push_find(old_taken, ev);
                assert(assoc_distinct(inner_view(taken@))) by {
                    assert forall|a: int, b: int|
                        0 <= a < b < inner_view(taken@).len() implies (#[trigger] inner_view(
                        taken@,
                    )[a]).0 != (#[trigger] inner_view(taken@)[b]).0 by {
                        if b == inner_view(taken@).len() - 1 {
                            if old_taken[a].0 == ev.0 {
                                crate::train::lemma_assoc_find_at(old_taken, ev.0, a);
                            }
                        }
                    }
                }
                assert forall|t: int, u: int|
                    0 <= t < taken@.len() && 0 <= u < remaining@.len() implies (
                #[trigger] inner_view(remaining@)[u]).1 <= (#[trigger] inner_view(taken@)[t]).1 by {
                    assert(inner_view(remaining@)[u] == old_rem.remove(best as int)[u]);
                    if u < best {
                        assert(old_rem.remove(best as int)[u] == old_rem[u]);
                    } else {
                        assert(old_rem.remove(best as int)[u] == old_rem[u + 1]);
                    }
                    if t < taken@.len() - 1 {
                        assert(inner_view(taken@)[t] == old_taken[t]);
                    } else {
                        assert(inner_view(taken@)[t] == ev);
                        assert(ev.1 == old_rem[best as int].1);
                    }
                }
            }
        }
        // bind the kept successors, if any
        let ghost taken_v = inner_view(taken@);
        let ghost remaining_v = inner_view(remaining@);
        let ghost old_totals = totals.totals();
        let took = taken.len() > 0;
        if took {
            totals_set(&mut totals, &groups[k].0, taken);
            proof {
                assert(groups@[k as int].0@ == from);
                crate::model::lemma_assoc_set(old_totals, from, taken_v);
            }
        }
        proof {
            let mv = gv[k as int].1;
            assert(assoc_find(gv, from) == Some(mv));
            // taken entries carry the exact transition counts
            assert(!took ==> !from_has_successors(input_data@, from)) by {
                if !took && from_has_successors(input_data@, from) {
                    let j = choose|j: int|
                        0 <= j < input_data@.len() && (#[trigger] input_data@[j]).0@ == from
                            && input_data@[j].1@.len() > 0;
                    lemma_pair_count_at(input_data@, j);
                    let to = input_data@[j].1@;
                    assert(pair_count(input_data@, from, to) >= 1);
                    lemma_counts_at(gv, input_data@, from, mv, to);
                    assert(assoc_find(mv, to) is Some);
                    assert(assoc_find(rem0, to) == assoc_find(mv, to));
                    assert(taken_v.len() == 0);
                    assert(assoc_find(taken_v, to) is None);
                    assert(assoc_find(remaining_v, to) is Some);
                    assert(remaining_v.len() > 0) by {
                        crate::train::lemma_assoc_find_index(remaining_v, to);
                    }
                }
            }
            assert(took ==> good_top(input_data@, from, taken_v)) by {
                if took {
                    assert forall|i: int|
                        0 <= i < taken_v.len() implies (#[trigger] taken_v[i]).0.len() > 0
                        && taken_v[i].1 == pair_count(input_data@, from, taken_v[i].0)
                        && taken_v[i].1 >= 1 by {
                        let to = taken_v[i].0;
                        lemma_find_gives_value(taken_v, to, i);
                        assert(assoc_find(taken_v, to) == Some(taken_v[i].1));
                        assert(assoc_find(rem0, to) == Some(taken_v[i].1)) by {
                            match assoc_find(rem0, to) {
                                Some(c) => {},
                                None => {
                                    assert(assoc_find(taken_v, to) is None);
                                },
                            }
                        }
                        assert(assoc_find(rem0, to) == assoc_find(mv, to));
                        lemma_counts_at(gv, input_data@, from, mv, to);
                        assert(taken_v[i].1 == pair_count(input_data@, from, to));
                    }
                    assert forall|to2: Seq<char>|
                        to2.len() > 0 && pair_count(input_data@, from, to2) >= 1
                            && #[trigger] assoc_find(taken_v, to2) is None implies taken_v.len()
                        == 100 by {
                        lemma_counts_at(gv, input_data@, from, mv, to2);
                        assert(assoc_find(mv, to2) is Some);
                        assert(assoc_find(rem0, to2) == assoc_find(mv, to2));
                        assert(assoc_find(remaining_v, to2) is Some) by {
                            match assoc_find(rem0, to2) {
                                Some(c) => {},
                                None => {},
                            }
                        }
                        assert(remaining_v.len() > 0) by {
                            crate::train::lemma_assoc_find_index(remaining_v, to2);
                        }
                    }
                    assert forall|i: int, to2: Seq<char>|
                        0 <= i < taken_v.len() && to2.len() > 0 && pair_count(
                            input_data@,
                            from,
                            to2,
                        ) >= 1 && #[trigger] assoc_find(taken_v, to2) is None implies pair_count(
                        input_data@,
                        from,
                        to2,
                    ) <= (#[trigger] taken_v[i]).1 by {
                        lemma_counts_at(gv, input_data@, from, mv, to2);
                        assert(assoc_find(mv, to2) is Some);
                        assert(assoc_find(rem0, to2) == assoc_find(mv, to2));
                        assert(assoc_find(remaining_v, to2) == assoc_find(rem0, to2)) by {
                            match assoc_find(rem0, to2) {
                                Some(c) => {},
                                None => {},
                            }
                        }
                        crate::train::lemma_assoc_find_index(remaining_v, to2);
                        let u = choose|u: int|
                            0 <= u < remaining_v.len() && (#[trigger] remaining_v[u]).0 == to2;
                        lemma_find_gives_value(remaining_v, to2, u);
                        assert(remaining_v[u].1 <= taken_v[i].1);
                    }
                }
            }
            // the invariants carry to the next group
            assert forall|f2: Seq<char>|
                (exists|k2: int|
                    0 <= k2 < k + 1 && (#[trigger] gv[k2]).0 == f2 && from_has_successors(
                        input_data@,
                        f2,
                    )) implies match #[trigger] assoc_find(totals.totals(), f2) {
                Some(tos) => good_top(input_data@, f2, tos),
                None => false,
            } by {
                if f2 == from {
                    assert(from_has_successors(input_data@, from) ==> took);
                    if took {
                        assert(assoc_find(totals.totals(), from) == Some(taken_v));
                    }
                } else {
                    let k2 = choose|k2: int|
                        0 <= k2 < k + 1 && (#[trigger] gv[k2]).0 == f2 && from_has_successors(
                            input_data@,
                            f2,
                        );
                    assert(gv[k as int].0 == from);
                    assert(k2 < k);
                    if took {
                        assert(assoc_find(totals.totals(), f2) == assoc_find(old_totals, f2));
                    }
                }
            }
            assert forall|f2: Seq<char>|
                !(exists|k2: int|
                    0 <= k2 < k + 1 && (#[trigger] gv[k2]).0 == f2 && from_has_successors(
                        input_data@,
                        f2,
                    )) implies #[trigger] assoc_find(totals.totals(), f2) == assoc_find(
                initial_v,
                f2,
            ) by {
                assert(gv[k as int].0 == from);
                if f2 == from {
                    assert(!from_has_successors(input_data@, from));
                    assert(!took) by {
                        if took {
                            assert(good_top(input_data@, from, taken_v));
                            assert(taken_v.len() > 0);
                            assert(taken_v[0].0.len() > 0 && taken_v[0].1 == pair_count(
                                input_data@,
                                from,
                                taken_v[0].0,
                            ) && taken_v[0].1 >= 1);
                            lemma_count_pos_exists(input_data@, from, taken_v[0].0);
                            assert(from_has_successors(input_data@, from));
                        }
                    }
                } else {
                    if took {
                        assert(assoc_find(totals.totals(), f2) == assoc_find(old_totals, f2));
                    }
                    assert(!(exists|k2: int|
                        0 <= k2 < k && (#[trigger] gv[k2]).0 == f2 && from_has_successors(
                            input_data@,
                            f2,
                        )));
                }
            }
        }
        k += 1;
    }
    proof {
        assert forall|from: Seq<char>|
            #[trigger] from_has_successors(input_data@, from) implies match assoc_find(
            totals.totals(),
            from,
        ) {
            Some(tos) => good_top(input_data@, from, tos),
            None => false,
        } by {
            let j = choose|j: int|
                0 <= j < input_data@.len() && (#[trigger] input_data@[j]).0@ == from
                    && input_data@[j].1@.len() > 0;
            lemma_pair_count_at(input_data@, j);
            let to = input_data@[j].1@;
            assert(pair_count(input_data@, from, to) >= 1);
            assert(assoc_find(gv, from) is Some) by {
                if assoc_find(gv, from) is None {
                    assert(pair_count(input_data@, from, to) == 0);
                }
            }
            crate::train::lemma_assoc_find_index(gv, from);
            let k2 = choose|k2: int| 0 <= k2 < gv.len() && (#[trigger] gv[k2]).0 == from;
            assert(exists|k3: int|
                0 <= k3 < ng && (#[trigger] gv[k3]).0 == from && from_has_successors(
                    input_data@,
                    from,
                ));
        }
    }
    totals
}

/// A from-state with no group has no transitions.
proof fn lemma_counts_at_absent(
    gv: Seq<(Seq<char>, Seq<(Seq<char>, u64)>)>,
    inputs: Seq<InputTup>,
    from: Seq<char>,
    to: Seq<char>,
)
    requires
        groups_count_ok(gv, inputs),
        assoc_find(gv, from) is None,
    ensures
        pair_count(inputs, from, to) == 0,
{
}

/// Instantiates the grouped counts at one (from, to) pair.
proof fn lemma_counts_at(
    gv: Seq<(Seq<char>, Seq<(Seq<char>, u64)>)>,
    inputs: Seq<InputTup>,
    from: Seq<char>,
    mv: Seq<(Seq<char>, u64)>,
    to: Seq<char>,
)
    requires
        groups_count_ok(gv, inputs),
        assoc_find(gv, from) == Some(mv),
    ensures
        match assoc_find(mv, to) {
            Some(c) => c == pair_count(inputs, from, to) && c >= 1,
            None => pair_count(inputs, from, to) == 0,
        },
{
    assert(assoc_find(assoc_find(gv, from)->Some_0, to) == assoc_find(mv, to));
}

/// A positive count means the pair occurs.
proof fn lemma_count_pos_exists(inputs: Seq<InputTup>, from: Seq<char>, to: Seq<char>)
    requires
        pair_count(inputs, from, to) >= 1,
    ensures
        exists|j: int|
            0 <= j < inputs.len() && (#[trigger] inputs[j]).0@ == from && inputs[j].1@ == to,
    decreases inputs.len(),
{
    if inputs.len() > 0 {
        if inputs.last().0@ == from && inputs.last().1@ == to {
            assert(inputs[inputs.len() - 1].0@ == from && inputs[inputs.len() - 1].1@ == to);
        } else {
            lemma_count_pos_exists(inputs.drop_last(), from, to);
            let j = choose|j: int|
                0 <= j < inputs.drop_last().len() && (#[trigger] inputs.drop_last()[j]).0@ == from
                    && inputs.drop_last()[j].1@ == to;
            assert(inputs[j].0@ == from && inputs[j].1@ == to);
        }
    }
}

/// A pair occurring in the input counts at least once.
proof fn lemma_pair_count_at(inputs: Seq<InputTup>, j: int)
    requires
        0 <= j < inputs.len(),
    ensures
        pair_count(inputs, inputs[j].0@, inputs[j].1@) >= 1,
    decreases inputs.len(),
{
    lemma_pair_count_nonneg(inputs.drop_last(), inputs[j].0@, inputs[j].1@);
    if j == inputs.len() - 1 {
        assert(inputs.last() == inputs[j]);
    } else {
        assert(inputs.drop_last()[j] == inputs[j]);
        lemma_pair_count_at(inputs.drop_last(), j);
    }
}

} // verus!
