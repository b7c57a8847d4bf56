//! The persistence codec: one line per `(label, order)` table,
//! `label,total|"gram1"prob1"gram2"prob2...`, with a sentinel line
//! `<<GRAM>>` after each order's tables.
//!
//! Loading parses the same grammar with explicit errors; saving a model and
//! loading the text back returns the model exactly.

use vstd::prelude::*;

use crate::model::assoc_find;
use crate::model::assoc_set;
use crate::model::GramTable;
use crate::model::LabelTables;
use crate::model::NGram;
use crate::model::assoc_distinct;
use crate::nums::all_digits;
use crate::nums::dec_str;
use crate::nums::dec_val;
use crate::nums::fixed_str;
use crate::nums::fixed_val_of;
use crate::nums::u64_val_of;
use crate::nums::PROB_MAX;
use crate::nums::TOTAL_MAX;
use crate::nums::parse_fixed;
use crate::nums::parse_u64;
use crate::nums::push_dec;
use crate::nums::push_fixed;
use crate::strutil::push_char;
use crate::strutil::str_copy;
use crate::strutil::str_eq;
use crate::text::newline_idx;
use crate::text::split_at_newlines;
use crate::text::split_lines;

verus! {

/// The sentinel line written after each order's tables.
pub open spec fn sentinel() -> Seq<char> {
    seq!['<', '<', 'G', 'R', 'A', 'M', '>', '>']
}

/// Index of the first occurrence of `c` in `s`, or `s.len()`.
pub open spec fn char_idx(s: Seq<char>, c: char) -> int
    decreases s.len(),
{
    if s.len() == 0 {
        0
    } else if s[0] == c {
        0
    } else {
        1 + char_idx(s.drop_first(), c)
    }
}

pub proof fn lemma_char_idx(s: Seq<char>, c: char)
    ensures
        0 <= char_idx(s, c) <= s.len(),
        char_idx(s, c) < s.len() ==> s[char_idx(s, c)] == c,
        forall|j: int| 0 <= j < char_idx(s, c) ==> s[j] != c,
    decreases s.len(),
{
    if s.len() > 0 && s[0] != c {
        lemma_char_idx(s.drop_first(), c);
        assert(forall|j: int| 1 <= j < char_idx(s, c) ==> s[j] == s.drop_first()[j - 1]);
    }
}

/// One rendered gram entry: the quoted gram, then its probability.
pub open spec fn render_entry(e: (Seq<char>, u64)) -> Seq<char> {
    seq!['"'] + e.0 + seq!['"'] + fixed_str(e.1)
}

pub open spec fn render_probs(probs: Seq<(Seq<char>, u64)>) -> Seq<char>
    decreases probs.len(),
{
    if probs.len() == 0 {
        Seq::empty()
    } else {
        render_probs(probs.drop_last()) + render_entry(probs.last())
    }
}

/// One rendered record line (with its newline).
pub open spec fn render_record(label: Seq<char>, t: GramTable) -> Seq<char> {
    label + seq![','] + dec_str(t.total_samples as nat) + seq!['|'] + render_probs(t.probs())
        + seq!['\n']
}

pub open spec fn render_tables(tables: Seq<(Seq<char>, GramTable)>) -> Seq<char>
    decreases tables.len(),
{
    if tables.len() == 0 {
        Seq::empty()
    } else {
        render_tables(tables.drop_last()) + render_record(tables.last().0, tables.last().1)
    }
}

/// The rendered text of the first `k` orders, each closed by a sentinel
/// line.
pub open spec fn render_model(maps: Seq<LabelTables>, k: int) -> Seq<char>
    decreases k,
{
    if k <= 0 {
        Seq::empty()
    } else {
        render_model(maps, k - 1) + render_tables(maps[k - 1].tables()) + sentinel() + seq!['\n']
    }
}

impl NGram {
    /// Serializes the tables of the first `max_grams` orders: one record
    /// line per label, a sentinel line after each order.
    pub fn save(&self) -> (r: String)
        requires
            0 <= self.max_grams,
            self.max_grams as int <= self.ngram_maps@.len(),
        ensures
            r@ == render_model(self.ngram_maps@, self.max_grams as int),
    {
        let mut out = String::new();
        let maxg = self.max_grams as usize;
        let mut i: usize = 0;
        proof {
            assert(out@ =~= render_model(self.ngram_maps@, 0));
        }
        while i < maxg
            invariant
                0 <= i <= maxg,
                maxg == self.max_grams as int,
                maxg <= self.ngram_maps@.len(),
                out@ == render_model(self.ngram_maps@, i as int),
            decreases maxg - i,
        {
            let m = &self.ngram_maps[i];
            let ghost base_order = out@;
            let ne = m.entries.len();
            let mut k: usize = 0;
            proof {
                assert(out@ =~= base_order + render_tables(m.tables().take(0)));
            }
            while k < ne
                invariant
                    0 <= k <= ne,
                    0 <= i < maxg,
                    maxg <= self.ngram_maps@.len(),
                    m == &self.ngram_maps[i as int],
                    ne == m.entries@.len(),
                    out@ == base_order + render_tables(m.tables().take(k as int)),
                decreases ne - k,
            {
                proof {
                    assert(m.tables()[k as int] == (m.entries@[k as int].0@, m.entries@[k as int].1));
                }
                let label = &m.entries[k].0;
                let t = &m.entries[k].1;
                let ghost base_rec = out@;
                out.append(label.as_str());
                push_char(&mut out, ',');
                push_dec(&mut out, t.total_samples);
                push_char(&mut out, '|');
                let np = t.probabilities.len();
                let mut j: usize = 0;
                let ghost base_probs = out@;
                proof {
                    assert(out@ =~= base_probs + render_probs(t.probs().take(0)));
                }
                while j < np
                    invariant
                        0 <= j <= np,
                        0 <= k < ne,
                        ne == m.entries@.len(),
                        t == &m.entries[k as int].1,
                        np == t.probabilities@.len(),
                        out@ == base_probs + render_probs(t.probs().take(j as int)),
                    decreases np - j,
                {
                    proof {
                        assert(t.probs()[j as int] == (t.probabilities@[j as int].0@, t.probabilities@[j as int].1));
                        assert(t.probs().take(j + 1).drop_last() =~= t.probs().take(j as int));
                        assert(t.probs().take(j + 1).last() == t.probs()[j as int]);
                    }
                    push_char(&mut out, '"');
                    out.append(t.probabilities[j].0.as_str());
                    push_char(&mut out, '"');
                    push_fixed(&mut out, t.probabilities[j].1);
                    proof {
                        assert(out@ =~= base_probs + render_probs(t.probs().take(j + 1)));
                    }
                    j += 1;
                }
                push_char(&mut out, '\n');
                proof {
                    assert(t.probs().take(np as int) =~= t.probs());
                    assert(m.tables().take(k + 1).drop_last() =~= m.tables().take(k as int));
                    assert(m.tables().take(k + 1).last() == m.tables()[k as int]);
                    assert(out@ =~= base_rec + render_record(label@, *t));
                    assert(out@ =~= base_order + render_tables(m.tables().take(k + 1)));
                }
                k += 1;
            }
            push_char(&mut out, '<');
            push_char(&mut out, '<');
            push_char(&mut out, 'G');
            push_char(&mut out, 'R');
            push_char(&mut out, 'A');
            push_char(&mut out, 'M');
            push_char(&mut out, '>');
            push_char(&mut out, '>');
            push_char(&mut out, '\n');
            proof {
                assert(m.tables().take(ne as int) =~= m.tables());
                assert(out@ =~= render_model(self.ngram_maps@, i + 1));
            }
            i += 1;
        }
        out
    }
}

/// What loading can report.
#[derive(Clone, Copy, PartialEq, Eq, Debug)]
pub enum LoadError {
    /// The input text was empty.
    EmptyInput,
    /// A record line, a numeric field, or the order count was malformed.
    Malformed,
}

/// The parsed gram entries of the tail of a record line: a sequence of
/// quoted grams each followed by an unquoted probability at or below the
/// probability cap; a repeated gram replaces its earlier binding.
pub open spec fn parse_pairs(t: Seq<char>, acc: Seq<(Seq<char>, u64)>) -> Option<
    Seq<(Seq<char>, u64)>,
>
    decreases t.len() via parse_pairs_dec
{
    if t.len() == 0 {
        Some(acc)
    } else if t[0] != '"' {
        None
    } else {
        let qi = char_idx(t.skip(1), '"');
        if qi == t.skip(1).len() {
            None
        } else {
            let word = t.skip(1).take(qi);
            let rest = t.skip(qi + 2);
            let pe = char_idx(rest, '"');
            let prob_str = rest.take(pe);
            match fixed_val_of(prob_str) {
                None => None,
                Some(p) => if p > PROB_MAX {
                    None
                } else {
                    parse_pairs(rest.skip(pe), assoc_set(acc, word, p))
                },
            }
        }
    }
}

#[via_fn]
proof fn parse_pairs_dec(t: Seq<char>, acc: Seq<(Seq<char>, u64)>) {
    if t.len() > 0 && t[0] == '"' {
        lemma_char_idx(t.skip(1), '"');
        let qi = char_idx(t.skip(1), '"');
        if qi < t.skip(1).len() {
            lemma_char_idx(t.skip(qi + 2), '"');
        }
    }
}

/// The parsed `(label, total, entries)` of one record line; the sample
/// total must be at or below the total cap.
pub open spec fn parse_record(line: Seq<char>) -> Option<(Seq<char>, u64, Seq<(Seq<char>, u64)>)> {
    let ci = char_idx(line, ',');
    if ci == line.len() {
        None
    } else {
        let label = line.take(ci);
        let rest = line.skip(ci + 1);
        let pi = char_idx(rest, '|');
        if pi == rest.len() {
            None
        } else {
            let total_str = rest.take(pi);
            match u64_val_of(total_str) {
                None => None,
                Some(total) => if total > TOTAL_MAX {
                    None
                } else {
                    match parse_pairs(rest.skip(pi + 1), Seq::empty()) {
                        None => None,
                        Some(pairs) => Some((label, total, pairs)),
                    }
                },
            }
        }
    }
}

/// The table maps one order's parsed records build up, records later in the
/// file replacing earlier bindings of the same label.
pub type OrderRep = Seq<(Seq<char>, (u64, Seq<(Seq<char>, u64)>))>;

/// Folds the lines of a model file: empty lines are skipped, a sentinel
/// line closes the current order, any other line must parse as a record.
/// Lines after the last sentinel are dropped, as the writer always closes
/// the final order.
pub open spec fn parse_lines(lines: Seq<Seq<char>>, cur: OrderRep, acc: Seq<OrderRep>) -> Option<
    Seq<OrderRep>,
>
    decreases lines.len(),
{
    if lines.len() == 0 {
        Some(acc)
    } else {
        let line = lines[0];
        if line.len() == 0 {
            parse_lines(lines.drop_first(), cur, acc)
        } else if line == sentinel() {
            parse_lines(lines.drop_first(), Seq::empty(), acc.push(cur))
        } else {
            match parse_record(line) {
                None => None,
                Some((label, total, pairs)) => parse_lines(
                    lines.drop_first(),
                    assoc_set(cur, label, (total, pairs)),
                    acc,
                ),
            }
        }
    }
}

/// The parsed model of a whole file.
pub open spec fn parse_model_text(s: Seq<char>) -> Option<Seq<OrderRep>> {
    parse_lines(split_at_newlines(s), Seq::empty(), Seq::empty())
}

/// Index of the first occurrence of `c` at or after `from`.
fn find_char(s: &str, from: usize, c: char) -> (r: usize)
    requires
        from <= s@.len(),
    ensures
        from <= r <= s@.len(),
        r - from == char_idx(s@.skip(from as int), c),
        r < s@.len() ==> s@[r as int] == c,
{
    let n = s.unicode_len();
    let mut j: usize = from;
    while j < n && s.get_char(j) != c
        invariant
            from <= j <= n,
            n == s@.len(),
            forall|k: int| from <= k < j ==> s@[k] != c,
        decreases n - j,
    {
        j += 1;
    }
    proof {
        let rest = s@.skip(from as int);
        lemma_char_idx(rest, c);
        assert(forall|k: int| 0 <= k < rest.len() ==> rest[k] == s@[k + from]);
        if j < n {
            assert(s@[j as int] == c);
            assert(char_idx(rest, c) == j - from) by {
                if char_idx(rest, c) < j - from {
                    assert(rest[char_idx(rest, c)] == c);
                    assert(s@[char_idx(rest, c) + from] != c);
                }
                if char_idx(rest, c) > j - from {
                    assert(rest[j - from] != c);
                }
            }
        } else {
            assert(char_idx(rest, c) == rest.len()) by {
                if char_idx(rest, c) < rest.len() {
                    assert(rest[char_idx(rest, c)] == c);
                    assert(s@[char_idx(rest, c) + from] != c);
                }
            }
        }
    }
    j
}

/// Parses one record line into its label, total and (deduplicated) gram
/// entries.
fn parse_record_line(line: &String) -> (r: Option<(String, u64, Vec<(String, u64)>)>)
    ensures
        match r {
            Some(rec) => {
                &&& parse_record(line@) == Some(
                    (rec.0@, rec.1, rec.2@.map_values(|e: (String, u64)| (e.0@, e.1))),
                )
                &&& assoc_distinct(rec.2@.map_values(|e: (String, u64)| (e.0@, e.1)))
                &&& forall|j: int|
                    0 <= j < rec.2@.len() ==> (#[trigger] rec.2@[j]).1 <= PROB_MAX
                &&& rec.1 <= TOTAL_MAX
            },
            None => parse_record(line@) is None,
        },
{
    let n = line.as_str().unicode_len();
    let ci = find_char(line.as_str(), 0, ',');
    proof {
        assert(line@.skip(0) =~= line@);
    }
    if ci == n {
        return None;
    }
    let label = str_copy(line.as_str().substring_char(0, ci));
    let ghost rest = line@.skip(ci + 1);
    let pi = find_char(line.as_str(), ci + 1, '|');
    proof {
        lemma_char_idx(rest, '|');
    }
    if pi == n {
        return None;
    }
    let total_str = line.as_str().substring_char(ci + 1, pi);
    proof {
        assert(total_str@ =~= rest.take(pi - (ci + 1)));
    }
    let total = match parse_u64(total_str) {
        None => {
            return None;
        },
        Some(t) => t,
    };
    if total > TOTAL_MAX {
        return None;
    }
    // the gram entries
    let ghost region0 = rest.skip((pi + 1) - (ci + 1));
    proof {
        assert(region0 =~= line@.skip(pi + 1));
    }
    let mut probs: Vec<(String, u64)> = Vec::new();
    let mut pos: usize = pi + 1;
    proof {
        assert(probs@.map_values(|e: (String, u64)| (e.0@, e.1))
            =~= Seq::<(Seq<char>, u64)>::empty());
    }
    while pos < n
        invariant
            pi + 1 <= pos <= n,
            n == line@.len(),
            region0 == line@.skip(pi + 1),
            parse_record(line@) == (match parse_pairs(region0, Seq::<(Seq<char>, u64)>::empty()) {
                None => None,
                Some(pairs) => Some((label@, total, pairs)),
            }),
            assoc_distinct(probs@.map_values(|e: (String, u64)| (e.0@, e.1))),
            forall|j: int| 0 <= j < probs@.len() ==> (#[trigger] probs@[j]).1 <= PROB_MAX,
            parse_pairs(
                line@.skip(pos as int),
                probs@.map_values(|e: (String, u64)| (e.0@, e.1)),
            ) == parse_pairs(region0, Seq::<(Seq<char>, u64)>::empty()),
        decreases n - pos,
    {
        let ghost region = line@.skip(pos as int);
        let ghost accv = probs@.map_values(|e: (String, u64)| (e.0@, e.1));
        if line.as_str().get_char(pos) != '"' {
            proof {
                assert(region[0] == line@[pos as int]);
            }
            return None;
        }
        proof {
            assert(region[0] == line@[pos as int]);
        }
        let qi_abs = find_char(line.as_str(), pos + 1, '"');
        proof {
            assert(region.skip(1) =~= line@.skip(pos + 1));
        }
        if qi_abs == n {
            return None;
        }
        let word = str_copy(line.as_str().substring_char(pos + 1, qi_abs));
        let pe_abs = find_char(line.as_str(), qi_abs + 1, '"');
        let prob_str = line.as_str().substring_char(qi_abs + 1, pe_abs);
        proof {
            let qi = qi_abs - (pos + 1);
            assert(word@ =~= region.skip(1).take(qi));
            let spec_rest = region.skip(qi + 2);
            assert(spec_rest =~= line@.skip(qi_abs + 1));
            assert(prob_str@ =~= spec_rest.take(pe_abs - (qi_abs + 1)));
            assert(spec_rest.skip(pe_abs - (qi_abs + 1)) =~= line@.skip(pe_abs as int));
        }
        let p = match parse_fixed(prob_str) {
            None => {
                return None;
            },
            Some(p) => p,
        };
        if p > PROB_MAX {
            return None;
        }
        let ghost accv2 = assoc_set(accv, word@, p);
        let ghost oldp = probs@;
        proof {
            assert(forall|j: int| 0 <= j < oldp.len() ==> (#[trigger] oldp[j]).1 <= PROB_MAX);
            assert(forall|j: int|
                0 <= j < oldp.len() ==> (#[trigger] accv[j]) == (oldp[j].0@, oldp[j].1));
        }
        crate::train::counts_set(&mut probs, &word, p);
        proof {
            crate::model::lemma_assoc_set(accv, word@, p);
            crate::train::lemma_assoc_set_vals_u64(accv, word@, p);
            assert(probs@.map_values(|e: (String, u64)| (e.0@, e.1)) == accv2);
            assert forall|j: int| 0 <= j < probs@.len() implies (#[trigger] probs@[j]).1
                <= PROB_MAX by {
                let pv = probs@.map_values(|e: (String, u64)| (e.0@, e.1));
                assert(pv[j].1 == probs@[j].1);
                assert(pv[j].1 == p || exists|i: int|
                    0 <= i < accv.len() && (#[trigger] accv[i]).1 == pv[j].1);
                if pv[j].1 != p {
                    let i = choose|i: int| 0 <= i < accv.len() && (#[trigger] accv[i]).1 == pv[j].1;
                    assert(accv[i].1 == oldp[i].1);
                }
            }
        }
        pos = pe_abs;
    }
    proof {
        assert(line@.skip(n as int) =~= Seq::<char>::empty());
    }
    Some((label, total, probs))
}

/// The mathematical content of a table map, in table order.
pub open spec fn order_rep_of(m: LabelTables) -> OrderRep {
    m.tables().map_values(|e: (Seq<char>, GramTable)| (e.0, (e.1.total_samples, e.1.probs())))
}

pub open spec fn model_rep_of(maps: Seq<LabelTables>) -> Seq<OrderRep> {
    maps.map_values(|m: LabelTables| order_rep_of(m))
}

/// Text free of quote characters.
pub open spec fn no_quote(g: Seq<char>) -> bool {
    forall|j: int| 0 <= j < g.len() ==> g[j] != '"'
}

/// Text free of newlines.
pub open spec fn no_newline(g: Seq<char>) -> bool {
    forall|j: int| 0 <= j < g.len() ==> g[j] != '\n'
}

/// Rebinding at the table level is rebinding at the content level.
proof fn lemma_rep_set(tables: Seq<(Seq<char>, GramTable)>, k: Seq<char>, v: GramTable)
    ensures
        rep_of_tables(assoc_set(tables, k, v)) == assoc_set(
            rep_of_tables(tables),
            k,
            (v.total_samples, v.probs()),
        ),
    decreases tables.len(),
{
    let u = assoc_set(tables, k, v);
    if tables.len() == 0 {
        assert(rep_of_tables(u) =~= assoc_set(
            rep_of_tables(tables),
            k,
            (v.total_samples, v.probs()),
        ));
    } else if tables[0].0 == k {
        assert(u =~= seq![(k, v)] + tables.drop_first());
        assert(rep_of_tables(tables)[0].0 == k);
        assert(rep_of_tables(u) =~= seq![(k, (v.total_samples, v.probs()))] + rep_of_tables(
            tables,
        ).drop_first());
        assert(assoc_set(rep_of_tables(tables), k, (v.total_samples, v.probs())) == seq![
            (k, (v.total_samples, v.probs())),
        ] + rep_of_tables(tables).drop_first());
    } else {
        lemma_rep_set(tables.drop_first(), k, v);
        assert(u =~= seq![tables[0]] + assoc_set(tables.drop_first(), k, v));
        assert(rep_of_tables(tables)[0].0 != k);
        assert(rep_of_tables(u) =~= seq![rep_of_tables(tables)[0]] + rep_of_tables(
            assoc_set(tables.drop_first(), k, v),
        ));
        assert(rep_of_tables(tables.drop_first()) =~= rep_of_tables(tables).drop_first());
        assert(assoc_set(rep_of_tables(tables), k, (v.total_samples, v.probs())) == seq![
            rep_of_tables(tables)[0],
        ] + assoc_set(rep_of_tables(tables).drop_first(), k, (v.total_samples, v.probs())));
    }
}

/// The content of a sequence of label-table pairs.
pub open spec fn rep_of_tables(tables: Seq<(Seq<char>, GramTable)>) -> OrderRep {
    tables.map_values(|e: (Seq<char>, GramTable)| (e.0, (e.1.total_samples, e.1.probs())))
}

impl NGram {
    /// Parses serialized model text back into a model: empty input and
    /// malformed records are reported as errors; the loaded tables hold
    /// exactly the parsed content, and a model with more than the largest
    /// representable number of orders is rejected.
    pub fn load(contents: &String) -> (r: Result<NGram, LoadError>)
        ensures
            (contents@.len() == 0) <==> (r == Err::<NGram, LoadError>(LoadError::EmptyInput)),
            r is Ok <==> (contents@.len() > 0 && parse_model_text(contents@) is Some
                && parse_model_text(contents@)->Some_0.len() <= 127),
            r is Ok ==> {
                let reps = parse_model_text(contents@)->Some_0;
                &&& model_rep_of(r->Ok_0.ngram_maps@) == reps
                &&& r->Ok_0.max_grams as int == reps.len()
                &&& r->Ok_0.wf()
            },
    {
        if contents.as_str().unicode_len() == 0 {
            return Err(LoadError::EmptyInput);
        }
        let lines = split_lines(contents.as_str());
        let ghost lviews = lines@.map_values(|l: String| l@);
        let mut gram_maps: Vec<LabelTables> = Vec::new();
        let mut bm = LabelTables::new();
        let nl = lines.len();
        let mut i: usize = 0;
        proof {
            assert(lviews.skip(0) =~= lviews);
            assert(order_rep_of(bm) =~= Seq::<(Seq<char>, (u64, Seq<(Seq<char>, u64)>))>::empty());
            assert(model_rep_of(gram_maps@) =~= Seq::<OrderRep>::empty());
        }
        while i < nl
            invariant
                0 <= i <= nl,
                nl == lines@.len(),
                lviews == lines@.map_values(|l: String| l@),
                lviews == split_at_newlines(contents@),
                parse_lines(lviews.skip(i as int), order_rep_of(bm), model_rep_of(gram_maps@))
                    == parse_model_text(contents@),
                bm.wf(),
                crate::model::maps_wf(gram_maps@),
            decreases nl - i,
        {
            let line = &lines[i];
            proof {
                assert(lviews.skip(i as int)[0] == lviews[i as int]);
                assert(lviews[i as int] == line@);
                assert(lviews.skip(i as int).drop_first() =~= lviews.skip(i + 1));
            }
            if line.as_str().unicode_len() == 0 {
                i += 1;
                continue ;
            }
            if str_eq(line.as_str(), "<<GRAM>>") {
                proof {
                    reveal_strlit("<<GRAM>>");
                    assert(line@ =~= sentinel());
                }
                let ghost prev_maps = gram_maps@;
                gram_maps.push(bm);
                bm = LabelTables::new();
                proof {
                    assert(model_rep_of(gram_maps@) =~= model_rep_of(prev_maps).push(
                        order_rep_of(gram_maps@.last()),
                    ));
                    assert(order_rep_of(bm)
                        =~= Seq::<(Seq<char>, (u64, Seq<(Seq<char>, u64)>))>::empty());
                }
                i += 1;
                continue ;
            }
            proof {
                reveal_strlit("<<GRAM>>");
                assert(line@ != sentinel()) by {
                    assert(("<<GRAM>>")@ =~= sentinel());
                }
            }
            match parse_record_line(line) {
                None => {
                    return Err(LoadError::Malformed);
                },
                Some((label, total, probs)) => {
                    let t = GramTable { total_samples: total, probabilities: probs };
                    let ghost bm_before = bm;
                    proof {
                        assert(t.wf());
                        assert(t.probs() == probs@.map_values(|e: (String, u64)| (e.0@, e.1)));
                    }
                    bm.set_table(&label, t);
                    proof {
                        crate::train::lemma_set_table_wf(bm_before, bm, label@, t);
                        lemma_rep_set(bm_before.tables(), label@, t);
                        assert(order_rep_of(bm_before) =~= rep_of_tables(bm_before.tables()));
                        assert(order_rep_of(bm) =~= rep_of_tables(bm.tables()));
                        assert(order_rep_of(bm) == assoc_set(
                            order_rep_of(bm_before),
                            label@,
                            (total, t.probs()),
                        ));
                    }
                },
            }
            i += 1;
        }
        proof {
            assert(lviews.skip(nl as int) =~= Seq::<Seq<char>>::empty());
            assert(parse_model_text(contents@) == Some(model_rep_of(gram_maps@)));
        }
        if gram_maps.len() > 127 {
            return Err(LoadError::Malformed);
        }
        let max_grams = gram_maps.len() as i8;
        Ok(NGram { ngram_maps: gram_maps, max_grams })
    }
}

/// A character absent from `a` is first found right after it.
proof fn lemma_char_idx_concat(a: Seq<char>, c: char, b: Seq<char>)
    requires
        forall|j: int| 0 <= j < a.len() ==> a[j] != c,
    ensures
        char_idx(a + seq![c] + b, c) == a.len(),
    decreases a.len(),
{
    let s = a + seq![c] + b;
    if a.len() == 0 {
        assert(s[0] == c);
    } else {
        assert(s[0] == a[0]);
        assert(s[0] != c);
        assert(forall|j: int| 0 <= j < a.drop_first().len() ==> #[trigger] a.drop_first()[j] == a[j + 1]);
        lemma_char_idx_concat(a.drop_first(), c, b);
        assert(s.drop_first() =~= a.drop_first() + seq![c] + b);
    }
}

/// A character absent from the whole string is never found.
proof fn lemma_char_idx_absent(a: Seq<char>, c: char)
    requires
        forall|j: int| 0 <= j < a.len() ==> a[j] != c,
    ensures
        char_idx(a, c) == a.len(),
    decreases a.len(),
{
    if a.len() > 0 {
        assert(forall|j: int| 0 <= j < a.drop_first().len() ==> #[trigger] a.drop_first()[j] == a[j + 1]);
        lemma_char_idx_absent(a.drop_first(), c);
    }
}

/// The decimal text of a fixed-point value holds only digits and dots.
proof fn lemma_fixed_str_chars(p: u64)
    ensures
        forall|j: int|
            0 <= j < fixed_str(p).len() ==> crate::nums::is_digit(#[trigger] fixed_str(p)[j])
                || fixed_str(p)[j] == '.',
{
    crate::nums::lemma_dec_str_val((p / crate::nums::PROB_SCALE) as nat);
    if p % crate::nums::PROB_SCALE != 0 {
        crate::nums::lemma_pow10_frac();
        crate::nums::lemma_dec_str_pad_val(
            (p % crate::nums::PROB_SCALE) as nat,
            crate::nums::FRAC_DIGITS as nat,
        );
        let a = dec_str((p / crate::nums::PROB_SCALE) as nat);
        let b = crate::nums::dec_str_pad(
            (p % crate::nums::PROB_SCALE) as nat,
            crate::nums::FRAC_DIGITS as nat,
        );
        assert(fixed_str(p) == a + seq!['.'] + b);
        assert forall|j: int|
            0 <= j < fixed_str(p).len() implies crate::nums::is_digit(#[trigger] fixed_str(p)[j])
            || fixed_str(p)[j] == '.' by {
            if j < a.len() {
                assert(fixed_str(p)[j] == a[j]);
            } else if j == a.len() {
            } else {
                assert(fixed_str(p)[j] == b[j - a.len() - 1]);
            }
        }
    }
}

/// The rendered gram entries hold no newline and no stray quote outside the
/// gram quotes; captured simply: rendering then parsing them gives back the
/// entries appended to the accumulator.
proof fn lemma_parse_render_probs(probs: Seq<(Seq<char>, u64)>, acc: Seq<(Seq<char>, u64)>)
    requires
        assoc_distinct(acc + probs),
        forall|i: int| 0 <= i < probs.len() ==> no_quote((#[trigger] probs[i]).0),
        forall|i: int| 0 <= i < probs.len() ==> (#[trigger] probs[i]).1 <= PROB_MAX,
    ensures
        parse_pairs(render_probs(probs), acc) == Some(acc + probs),
    decreases probs.len(),
{
    if probs.len() == 0 {
        assert(render_probs(probs) =~= Seq::<char>::empty());
        assert(acc + probs =~= acc);
    } else {
        let e = probs[0];
        let t = render_probs(probs);
        lemma_render_probs_front(probs);
        assert(t == render_entry(e) + render_probs(probs.drop_first()));
        let rest_render = render_probs(probs.drop_first());
        assert(t =~= seq!['"'] + e.0 + seq!['"'] + fixed_str(e.1) + rest_render);
        assert(t[0] == '"');
        assert(t.skip(1) =~= e.0 + seq!['"'] + (fixed_str(e.1) + rest_render));
        assert(no_quote(e.0)) by {
            assert(no_quote(probs[0].0));
        }
        lemma_char_idx_concat(e.0, '"', fixed_str(e.1) + rest_render);
        let qi = char_idx(t.skip(1), '"');
        assert(qi == e.0.len());
        lemma_char_idx(t.skip(1), '"');
        assert(qi < t.skip(1).len());
        assert(t.skip(1).take(qi) =~= e.0);
        let rest = t.skip(qi + 2);
        assert(rest =~= fixed_str(e.1) + rest_render);
        // the probability text ends at the next quote or at the end
        lemma_fixed_str_chars(e.1);
        assert(forall|j: int| 0 <= j < fixed_str(e.1).len() ==> #[trigger] fixed_str(e.1)[j] != '"');
        let pe = char_idx(rest, '"');
        if probs.drop_first().len() == 0 {
            assert(rest_render =~= Seq::<char>::empty());
            assert(rest =~= fixed_str(e.1));
            lemma_char_idx_absent(rest, '"');
            assert(pe == fixed_str(e.1).len());
        } else {
            lemma_render_probs_front(probs.drop_first());
            assert(rest_render == render_entry(probs.drop_first()[0]) + render_probs(
                probs.drop_first().drop_first(),
            ));
            assert(rest_render[0] == '"');
            assert(rest =~= fixed_str(e.1) + seq!['"'] + rest_render.drop_first());
            lemma_char_idx_concat(fixed_str(e.1), '"', rest_render.drop_first());
            assert(pe == fixed_str(e.1).len());
        }
        assert(rest.take(pe) =~= fixed_str(e.1));
        crate::nums::lemma_fixed_roundtrip(e.1);
        assert(fixed_val_of(rest.take(pe)) == Some(e.1));
        assert(rest.skip(pe) =~= rest_render);
        // the key is fresh, so the rebinding appends
        let acc2 = assoc_set(acc, e.0, e.1);
        assert(assoc_find(acc, e.0) is None) by {
            if assoc_find(acc, e.0) is Some {
                crate::train::lemma_assoc_find_index(acc, e.0);
                let w = choose|w: int| 0 <= w < acc.len() && (#[trigger] acc[w]).0 == e.0;
                assert((acc + probs)[w].0 == (acc + probs)[acc.len() as int].0);
            }
        }
        crate::model::lemma_assoc_set(acc, e.0, e.1);
        assert(acc2 == acc + seq![e]) by {
            assert(acc2 =~= acc + seq![(e.0, e.1)]);
            assert((e.0, e.1) == e);
        }
        assert(assoc_distinct(acc2 + probs.drop_first())) by {
            assert(acc2 + probs.drop_first() =~= acc + probs);
        }
        assert(forall|i: int|
            0 <= i < probs.drop_first().len() ==> no_quote((#[trigger] probs.drop_first()[i]).0))
            by {
            assert(forall|i: int|
                0 <= i < probs.drop_first().len() ==> #[trigger] probs.drop_first()[i] == probs[i
                    + 1]);
        }
        assert(forall|i: int|
            0 <= i < probs.drop_first().len() ==> (#[trigger] probs.drop_first()[i]).1
                <= PROB_MAX) by {
            assert(forall|i: int|
                0 <= i < probs.drop_first().len() ==> #[trigger] probs.drop_first()[i] == probs[i
                    + 1]);
        }
        lemma_parse_render_probs(probs.drop_first(), acc2);
        assert(acc2 + probs.drop_first() =~= acc + probs);
    }
}

/// Rendering gram entries can also be read from the front.
proof fn lemma_render_probs_front(probs: Seq<(Seq<char>, u64)>)
    requires
        probs.len() > 0,
    ensures
        render_probs(probs) == render_entry(probs[0]) + render_probs(probs.drop_first()),
    decreases probs.len(),
{
    if probs.len() == 1 {
        assert(probs.drop_last() =~= Seq::<(Seq<char>, u64)>::empty());
        assert(probs.drop_first() =~= Seq::<(Seq<char>, u64)>::empty());
        assert(render_probs(probs) == render_probs(probs.drop_last()) + render_entry(probs.last()));
        assert(render_probs(probs) =~= render_entry(probs[0]) + render_probs(probs.drop_first()));
    } else {
        lemma_render_probs_front(probs.drop_last());
        assert(probs.drop_last()[0] == probs[0]);
        assert(probs.drop_last().drop_first() =~= probs.drop_first().drop_last());
        assert(probs.drop_first().last() == probs.last());
        assert(render_probs(probs) == render_probs(probs.drop_last()) + render_entry(probs.last()));
        assert(render_probs(probs.drop_first()) == render_probs(probs.drop_first().drop_last())
            + render_entry(probs.drop_first().last()));
        assert((render_entry(probs[0]) + render_probs(probs.drop_last().drop_first()))
            + render_entry(probs.last()) =~= render_entry(probs[0]) + (render_probs(
            probs.drop_first().drop_last(),
        ) + render_entry(probs.drop_first().last())));
    }
}

/// One record line, without its newline.
pub open spec fn record_line(label: Seq<char>, t: GramTable) -> Seq<char> {
    label + seq![','] + dec_str(t.total_samples as nat) + seq!['|'] + render_probs(t.probs())
}

/// The record lines of one order's tables, in table order.
pub open spec fn table_lines(tables: Seq<(Seq<char>, GramTable)>) -> Seq<Seq<char>>
    decreases tables.len(),
{
    if tables.len() == 0 {
        Seq::empty()
    } else {
        seq![record_line(tables[0].0, tables[0].1)] + table_lines(tables.drop_first())
    }
}

/// Splitting at the first newline of a newline-free head.
proof fn lemma_split_line(a: Seq<char>, b: Seq<char>)
    requires
        no_newline(a),
    ensures
        split_at_newlines(a + seq!['\n'] + b) == seq![a] + split_at_newlines(b),
{
    let s = a + seq!['\n'] + b;
    lemma_newline_idx_concat(a, b);
    assert(newline_idx(s) == a.len());
    assert(s.take(a.len() as int) =~= a);
    assert(s.skip(a.len() as int + 1) =~= b);
    assert(split_at_newlines(s) == seq![a] + split_at_newlines(b));
}

proof fn lemma_newline_idx_concat(a: Seq<char>, b: Seq<char>)
    requires
        no_newline(a),
    ensures
        newline_idx(a + seq!['\n'] + b) == a.len(),
    decreases a.len(),
{
    let s = a + seq!['\n'] + b;
    if a.len() == 0 {
        assert(s[0] == '\n');
    } else {
        assert(s[0] == a[0]);
        assert(s[0] != '\n');
        assert(no_newline(a.drop_first())) by {
            assert(forall|j: int|
                0 <= j < a.drop_first().len() ==> #[trigger] a.drop_first()[j] == a[j + 1]);
        }
        lemma_newline_idx_concat(a.drop_first(), b);
        assert(s.drop_first() =~= a.drop_first() + seq!['\n'] + b);
    }
}

/// The rendered entries hold no newline.
proof fn lemma_render_probs_no_newline(probs: Seq<(Seq<char>, u64)>)
    requires
        forall|i: int| 0 <= i < probs.len() ==> no_newline((#[trigger] probs[i]).0),
    ensures
        no_newline(render_probs(probs)),
    decreases probs.len(),
{
    if probs.len() > 0 {
        assert(forall|i: int|
            0 <= i < probs.drop_last().len() ==> #[trigger] probs.drop_last()[i] == probs[i]);
        lemma_render_probs_no_newline(probs.drop_last());
        let e = probs.last();
        lemma_fixed_str_chars(e.1);
        assert(no_newline(render_entry(e))) by {
            assert(no_newline(e.0));
            assert(forall|j: int|
                0 <= j < render_entry(e).len() ==> #[trigger] render_entry(e)[j] != '\n') by {
                assert forall|j: int|
                    0 <= j < render_entry(e).len() implies #[trigger] render_entry(e)[j]
                    != '\n' by {
                    if j == 0 {
                    } else if j <= e.0.len() {
                        assert(render_entry(e)[j] == e.0[j - 1]);
                    } else if j == e.0.len() + 1 {
                    } else {
                        assert(render_entry(e)[j] == fixed_str(e.1)[j - e.0.len() - 2]);
                    }
                }
            }
        }
        assert(no_newline(render_probs(probs))) by {
            assert(render_probs(probs) == render_probs(probs.drop_last()) + render_entry(e));
            assert forall|j: int|
                0 <= j < render_probs(probs).len() implies #[trigger] render_probs(probs)[j]
                != '\n' by {
                if j < render_probs(probs.drop_last()).len() {
                    assert(render_probs(probs)[j] == render_probs(probs.drop_last())[j]);
                } else {
                    assert(render_probs(probs)[j] == render_entry(e)[j - render_probs(
                        probs.drop_last(),
                    ).len()]);
                }
            }
        }
    }
}

/// A record line holds no newline.
proof fn lemma_record_line_no_newline(label: Seq<char>, t: GramTable)
    requires
        no_newline(label),
        forall|i: int| 0 <= i < t.probs().len() ==> no_newline((#[trigger] t.probs()[i]).0),
    ensures
        no_newline(record_line(label, t)),
{
    crate::nums::lemma_dec_str_val(t.total_samples as nat);
    lemma_render_probs_no_newline(t.probs());
    let dstr = dec_str(t.total_samples as nat);
    let pstr = render_probs(t.probs());
    let line = record_line(label, t);
    assert forall|j: int| 0 <= j < line.len() implies #[trigger] line[j] != '\n' by {
        if j < label.len() {
            assert(line[j] == label[j]);
        } else if j == label.len() {
        } else if j <= label.len() + dstr.len() {
            assert(line[j] == dstr[j - label.len() - 1]);
            assert(crate::nums::is_digit(dstr[j - label.len() - 1]));
        } else if j == label.len() + dstr.len() + 1 {
        } else {
            assert(line[j] == pstr[j - label.len() - dstr.len() - 2]);
        }
    }
}

/// Rendered tables can also be read from the front.
proof fn lemma_render_tables_front(tables: Seq<(Seq<char>, GramTable)>)
    requires
        tables.len() > 0,
    ensures
        render_tables(tables) == render_record(tables[0].0, tables[0].1) + render_tables(
            tables.drop_first(),
        ),
    decreases tables.len(),
{
    if tables.len() == 1 {
        assert(tables.drop_last() =~= Seq::<(Seq<char>, GramTable)>::empty());
        assert(tables.drop_first() =~= Seq::<(Seq<char>, GramTable)>::empty());
        assert(render_tables(tables) =~= render_record(tables[0].0, tables[0].1) + render_tables(
            tables.drop_first(),
        ));
    } else {
        lemma_render_tables_front(tables.drop_last());
        assert(tables.drop_last()[0] == tables[0]);
        assert(tables.drop_last().drop_first() =~= tables.drop_first().drop_last());
        assert(tables.drop_first().last() == tables.last());
        assert(render_tables(tables) == render_tables(tables.drop_last()) + render_record(
            tables.last().0,
            tables.last().1,
        ));
        assert(render_tables(tables.drop_first()) == render_tables(
            tables.drop_first().drop_last(),
        ) + render_record(tables.drop_first().last().0, tables.drop_first().last().1));
        assert((render_record(tables[0].0, tables[0].1) + render_tables(
            tables.drop_last().drop_first(),
        )) + render_record(tables.last().0, tables.last().1) =~= render_record(
            tables[0].0,
            tables[0].1,
        ) + (render_tables(tables.drop_first().drop_last()) + render_record(
            tables.drop_first().last().0,
            tables.drop_first().last().1,
        )));
    }
}

/// The textual conditions under which a model's text loads back exactly:
/// labels without commas or newlines, grams without quotes or newlines, and
/// tables within the representable bounds.
pub open spec fn codec_wf(maps: Seq<LabelTables>, k: int) -> bool {
    forall|o: int|
        0 <= o < k && o < maps.len() ==> {
            let tabs = (#[trigger] maps[o]).tables();
            &&& assoc_distinct(tabs)
            &&& forall|i: int|
                0 <= i < tabs.len() ==> {
                    let (label, t) = #[trigger] tabs[i];
                    &&& no_newline(label)
                    &&& forall|j: int| 0 <= j < label.len() ==> label[j] != ','
                    &&& t.total_samples <= TOTAL_MAX
                    &&& assoc_distinct(t.probs())
                    &&& forall|p: int|
                        0 <= p < t.probs().len() ==> no_quote((#[trigger] t.probs()[p]).0)
                            && no_newline(t.probs()[p].0) && t.probs()[p].1 <= PROB_MAX
                }
        }
}

/// A rendered record line parses back to its content.
proof fn lemma_parse_render_record(label: Seq<char>, t: GramTable)
    requires
        no_newline(label),
        forall|j: int| 0 <= j < label.len() ==> label[j] != ',',
        t.total_samples <= TOTAL_MAX,
        assoc_distinct(t.probs()),
        forall|p: int|
            0 <= p < t.probs().len() ==> no_quote((#[trigger] t.probs()[p]).0) && t.probs()[p].1
                <= PROB_MAX,
    ensures
        parse_record(record_line(label, t)) == Some((label, t.total_samples, t.probs())),
{
    let line = record_line(label, t);
    let dstr = dec_str(t.total_samples as nat);
    let pstr = render_probs(t.probs());
    crate::nums::lemma_dec_str_val(t.total_samples as nat);
    assert(line =~= label + seq![','] + (dstr + seq!['|'] + pstr));
    lemma_char_idx_concat(label, ',', dstr + seq!['|'] + pstr);
    let ci = char_idx(line, ',');
    assert(ci == label.len());
    lemma_char_idx(line, ',');
    assert(ci < line.len());
    assert(line.take(ci) =~= label);
    let rest = line.skip(ci + 1);
    assert(rest =~= dstr + seq!['|'] + pstr);
    assert(forall|j: int| 0 <= j < dstr.len() ==> dstr[j] != '|') by {
        assert(forall|j: int| 0 <= j < dstr.len() ==> crate::nums::is_digit(#[trigger] dstr[j]));
    }
    lemma_char_idx_concat(dstr, '|', pstr);
    let pi = char_idx(rest, '|');
    assert(pi == dstr.len());
    lemma_char_idx(rest, '|');
    assert(pi < rest.len());
    assert(rest.take(pi) =~= dstr);
    assert(u64_val_of(dstr) == Some(t.total_samples)) by {
        crate::nums::lemma_dec_val_nonneg(dstr);
    }
    assert(rest.skip(pi + 1) =~= pstr);
    assert(Seq::<(Seq<char>, u64)>::empty() + t.probs() =~= t.probs());
    lemma_parse_render_probs(t.probs(), Seq::empty());
    assert(parse_pairs(pstr, Seq::empty()) == Some(t.probs()));
}

/// The sentinel holds no comma and no newline.
proof fn lemma_sentinel_chars()
    ensures
        forall|j: int| 0 <= j < sentinel().len() ==> sentinel()[j] != ',',
        no_newline(sentinel()),
        sentinel().len() == 8,
{
    let s = sentinel();
    assert(s.len() == 8);
    assert(s[0] == '<' && s[1] == '<' && s[2] == 'G' && s[3] == 'R' && s[4] == 'A' && s[5] == 'M'
        && s[6] == '>' && s[7] == '>');
    assert forall|j: int| 0 <= j < s.len() implies s[j] != ',' && s[j] != '\n' by {
        if j == 0 || j == 1 {
            assert(s[j] == '<');
        } else if j == 2 {
        } else if j == 3 {
        } else if j == 4 {
        } else if j == 5 {
        } else {
            assert(s[j] == '>');
        }
    }
}

/// Parsing the record lines of one order folds its tables into the current
/// order, binding each fresh label in table order.
proof fn lemma_parse_records(
    tables: Seq<(Seq<char>, GramTable)>,
    rest: Seq<Seq<char>>,
    cur: OrderRep,
    acc: Seq<OrderRep>,
)
    requires
        assoc_distinct(cur + rep_of_tables(tables)),
        forall|i: int|
            0 <= i < tables.len() ==> {
                let (label, t) = #[trigger] tables[i];
                &&& no_newline(label)
                &&& forall|j: int| 0 <= j < label.len() ==> label[j] != ','
                &&& t.total_samples <= TOTAL_MAX
                &&& assoc_distinct(t.probs())
                &&& forall|p: int|
                    0 <= p < t.probs().len() ==> no_quote((#[trigger] t.probs()[p]).0)
                        && t.probs()[p].1 <= PROB_MAX
            },
    ensures
        parse_lines(table_lines(tables) + rest, cur, acc) == parse_lines(
            rest,
            cur + rep_of_tables(tables),
            acc,
        ),
    decreases tables.len(),
{
    if tables.len() == 0 {
        assert(table_lines(tables) + rest =~= rest);
        assert(cur + rep_of_tables(tables) =~= cur);
    } else {
        let (label, t) = tables[0];
        let line = record_line(label, t);
        let all = table_lines(tables) + rest;
        assert(all[0] == line);
        assert(all.drop_first() =~= table_lines(tables.drop_first()) + rest);
        lemma_parse_render_record(label, t);
        // a record line is neither empty nor the sentinel
        assert(line.len() > 0);
        assert(line != sentinel()) by {
            lemma_sentinel_chars();
            assert(line[label.len() as int] == ',');
            if line == sentinel() {
                assert(sentinel()[label.len() as int] == ',');
            }
        }
        let cur2 = assoc_set(cur, label, (t.total_samples, t.probs()));
        assert(assoc_find(cur, label) is None) by {
            if assoc_find(cur, label) is Some {
                crate::train::lemma_assoc_find_index(cur, label);
                let w = choose|w: int| 0 <= w < cur.len() && (#[trigger] cur[w]).0 == label;
                assert((cur + rep_of_tables(tables))[w].0 == (cur + rep_of_tables(
                    tables,
                ))[cur.len() as int].0);
            }
        }
        crate::model::lemma_assoc_set(cur, label, (t.total_samples, t.probs()));
        assert(cur2 == cur + seq![(label, (t.total_samples, t.probs()))]);
        assert(rep_of_tables(tables)[0] == (label, (t.total_samples, t.probs())));
        assert(cur2 + rep_of_tables(tables.drop_first()) =~= cur + rep_of_tables(tables)) by {
            assert(rep_of_tables(tables.drop_first()) =~= rep_of_tables(tables).drop_first());
        }
        assert(assoc_distinct(cur2 + rep_of_tables(tables.drop_first())));
        assert(forall|i: int|
            0 <= i < tables.drop_first().len() ==> #[trigger] tables.drop_first()[i] == tables[i
                + 1]);
        lemma_parse_records(tables.drop_first(), rest, cur2, acc);
        assert(parse_lines(all, cur, acc) == parse_lines(all.drop_first(), cur2, acc));
    }
}

/// The text of orders `i..k`, read from the front.
pub open spec fn render_model_from(maps: Seq<LabelTables>, i: int, k: int) -> Seq<char>
    decreases k - i,
{
    if i >= k {
        Seq::empty()
    } else {
        render_tables(maps[i].tables()) + sentinel() + seq!['\n'] + render_model_from(
            maps,
            i + 1,
            k,
        )
    }
}

/// The two readings of the rendered model agree.
proof fn lemma_render_model_from(maps: Seq<LabelTables>, k: int)
    ensures
        render_model(maps, k) == render_model_from(maps, 0, k),
    decreases k,
{
    if k <= 0 {
    } else {
        lemma_render_model_from(maps, k - 1);
        lemma_render_model_snoc(maps, 0, k);
    }
}

proof fn lemma_render_model_snoc(maps: Seq<LabelTables>, i: int, k: int)
    requires
        i < k,
        k >= 1,
    ensures
        render_model_from(maps, i, k) == render_model_from(maps, i, k - 1) + (render_tables(
            maps[k - 1].tables(),
        ) + sentinel() + seq!['\n']),
    decreases k - i,
{
    if i >= k - 1 {
        assert(render_model_from(maps, i, k - 1) =~= Seq::<char>::empty());
        if i == k - 1 {
            assert(render_model_from(maps, i, k) == render_tables(maps[i].tables()) + sentinel()
                + seq!['\n'] + render_model_from(maps, i + 1, k));
            assert(render_model_from(maps, i + 1, k) =~= Seq::<char>::empty());
            assert(render_model_from(maps, i, k) =~= render_model_from(maps, i, k - 1) + (
            render_tables(maps[k - 1].tables()) + sentinel() + seq!['\n']));
        }
    } else {
        lemma_render_model_snoc(maps, i + 1, k);
        assert(render_model_from(maps, i, k) =~= render_model_from(maps, i, k - 1) + (
        render_tables(maps[k - 1].tables()) + sentinel() + seq!['\n']));
    }
}

/// The split lines of rendered tables followed by more text.
proof fn lemma_split_render_tables(tables: Seq<(Seq<char>, GramTable)>, tail: Seq<char>)
    requires
        forall|i: int|
            0 <= i < tables.len() ==> no_newline((#[trigger] tables[i]).0) && forall|p: int|
                0 <= p < tables[i].1.probs().len() ==> no_newline(
                    (#[trigger] tables[i].1.probs()[p]).0,
                ),
    ensures
        split_at_newlines(render_tables(tables) + tail) == table_lines(tables)
            + split_at_newlines(tail),
    decreases tables.len(),
{
    if tables.len() == 0 {
        assert(render_tables(tables) + tail =~= tail);
        assert(table_lines(tables) + split_at_newlines(tail) =~= split_at_newlines(tail));
    } else {
        let (label, t) = tables[0];
        lemma_render_tables_front(tables);
        lemma_record_line_no_newline(label, t);
        assert(render_tables(tables) + tail =~= record_line(label, t) + seq!['\n'] + (
        render_tables(tables.drop_first()) + tail));
        lemma_split_line(record_line(label, t), render_tables(tables.drop_first()) + tail);
        assert(forall|i: int|
            0 <= i < tables.drop_first().len() ==> #[trigger] tables.drop_first()[i] == tables[i
                + 1]);
        lemma_split_render_tables(tables.drop_first(), tail);
        assert(table_lines(tables) + split_at_newlines(tail) =~= seq![record_line(label, t)] + (
        table_lines(tables.drop_first()) + split_at_newlines(tail)));
    }
}

/// Parsing the rendered text of orders `i..k` appends their contents.
proof fn lemma_parse_model_from(maps: Seq<LabelTables>, i: int, k: int, acc: Seq<OrderRep>)
    requires
        0 <= i <= k,
        k <= maps.len(),
        codec_wf(maps, k),
    ensures
        parse_lines(split_at_newlines(render_model_from(maps, i, k)), Seq::empty(), acc) == Some(
            acc + model_rep_of(maps.subrange(i, k)),
        ),
    decreases k - i,
{
    if i >= k {
        assert(render_model_from(maps, i, k) =~= Seq::<char>::empty());
        assert(split_at_newlines(Seq::<char>::empty()) =~= seq![Seq::<char>::empty()]);
        assert(maps.subrange(i, k) =~= Seq::<LabelTables>::empty());
        assert(model_rep_of(maps.subrange(i, k)) =~= Seq::<OrderRep>::empty());
        assert(acc + model_rep_of(maps.subrange(i, k)) =~= acc);
        let lines = split_at_newlines(Seq::<char>::empty());
        assert(lines[0].len() == 0);
        assert(lines.drop_first() =~= Seq::<Seq<char>>::empty());
        assert(parse_lines(lines, Seq::empty(), acc) == parse_lines(
            lines.drop_first(),
            Seq::empty(),
            acc,
        ));
        assert(parse_lines(Seq::<Seq<char>>::empty(), Seq::empty(), acc) == Some(acc));
    } else {
        let tabs = maps[i].tables();
        let rest_text = render_model_from(maps, i + 1, k);
        assert(render_model_from(maps, i, k) =~= render_tables(tabs) + (sentinel() + seq!['\n']
            + rest_text));
        lemma_sentinel_chars();
        lemma_split_render_tables(tabs, sentinel() + seq!['\n'] + rest_text);
        lemma_split_line(sentinel(), rest_text);
        assert(sentinel() + seq!['\n'] + rest_text =~= sentinel() + seq!['\n'] + rest_text);
        let lines = split_at_newlines(render_model_from(maps, i, k));
        assert(lines =~= table_lines(tabs) + (seq![sentinel()] + split_at_newlines(rest_text)));
        // fold the records, then close the order at the sentinel
        assert(Seq::<(Seq<char>, (u64, Seq<(Seq<char>, u64)>))>::empty() + rep_of_tables(tabs)
            =~= rep_of_tables(tabs));
        lemma_parse_records(
            tabs,
            seq![sentinel()] + split_at_newlines(rest_text),
            Seq::empty(),
            acc,
        );
        let mid = seq![sentinel()] + split_at_newlines(rest_text);
        assert(mid[0] == sentinel());
        assert(mid[0].len() > 0);
        assert(mid.drop_first() =~= split_at_newlines(rest_text));
        assert(parse_lines(mid, rep_of_tables(tabs), acc) == parse_lines(
            split_at_newlines(rest_text),
            Seq::empty(),
            acc.push(rep_of_tables(tabs)),
        ));
        lemma_parse_model_from(maps, i + 1, k, acc.push(rep_of_tables(tabs)));
        assert(order_rep_of(maps[i]) == rep_of_tables(tabs));
        assert(acc.push(rep_of_tables(tabs)) + model_rep_of(maps.subrange(i + 1, k)) =~= acc
            + model_rep_of(maps.subrange(i, k))) by {
            assert(maps.subrange(i, k)[0] == maps[i]);
            assert(model_rep_of(maps.subrange(i, k))[0] == order_rep_of(maps[i]));
            assert(forall|j: int|
                0 <= j < maps.subrange(i + 1, k).len() ==> #[trigger] maps.subrange(i + 1, k)[j]
                    == maps.subrange(i, k)[j + 1]);
        }
    }
}

/// Round trip: the serialized text of a model's first `k` orders parses
/// back to exactly those orders' labels, sample totals and probabilities,
/// in order.  Together with the contracts of `save` and `load`, loading a
/// saved model returns the model.
pub proof fn lemma_save_load_round_trip(maps: Seq<LabelTables>, k: int)
    requires
        1 <= k <= maps.len(),
        codec_wf(maps, k),
    ensures
        parse_model_text(render_model(maps, k)) == Some(model_rep_of(maps.take(k))),
{
    lemma_render_model_from(maps, k);
    lemma_parse_model_from(maps, 0, k, Seq::empty());
    assert(maps.subrange(0, k) =~= maps.take(k));
    assert(Seq::<OrderRep>::empty() + model_rep_of(maps.take(k)) =~= model_rep_of(maps.take(k)));
}

} // verus!
