use ngram_classifier::model::{GramTable, LabelTables, NGram};

const SCALE: u64 = 1_000_000_000;

fn table(total: u64, entries: &[(&str, u64)]) -> GramTable {
    GramTable {
        total_samples: total,
        probabilities: entries.iter().map(|(g, p)| (g.to_string(), *p)).collect(),
    }
}

fn one_order(entries: Vec<(&str, GramTable)>) -> LabelTables {
    LabelTables { entries: entries.into_iter().map(|(l, t)| (l.to_string(), t)).collect() }
}

fn pos_neg_model() -> NGram {
    let pos = table(10, &[("good", 800_000_000)]);
    let neg = table(10, &[("bad", 900_000_000)]);
    NGram { ngram_maps: vec![one_order(vec![("pos", pos), ("neg", neg)])], max_grams: 1 }
}

#[test]
fn classify_example_scenario() {
    let m = pos_neg_model();
    let r = m.test_sentence(&"this is good".to_string());
    assert_eq!(r, "pos");
}

#[test]
fn classify_negative_side() {
    let m = pos_neg_model();
    assert_eq!(m.test_sentence(&"bad".to_string()), "neg");
}

#[test]
fn classify_empty_result_is_inconclusive() {
    let m = pos_neg_model();
    let r = m.test_sentence(&"nothing matches here".to_string());
    assert_eq!(r, "Inconclusive");
}

#[test]
fn classify_empty_sentence_is_inconclusive() {
    let m = pos_neg_model();
    assert_eq!(m.test_sentence(&String::new()), "Inconclusive");
}

#[test]
fn classify_is_deterministic() {
    let m = pos_neg_model();
    let s = "good bad good".to_string();
    let a = m.test_sentence(&s);
    let b = m.test_sentence(&s);
    assert_eq!(a, b);
}

#[test]
fn test_gram_first_maximal_wins_ties() {
    // two labels give the gram the same probability; the earlier label wins
    let a = table(10, &[("tie", 500_000_000)]);
    let b = table(10, &[("tie", 500_000_000)]);
    let order = one_order(vec![("first", a), ("second", b)]);
    let r = NGram::test_gram(&order, &"tie".to_string());
    assert_eq!(r, "first");
}

#[test]
fn test_gram_zero_probability_never_wins() {
    let a = table(10, &[("z", 0)]);
    let order = one_order(vec![("only", a)]);
    assert_eq!(NGram::test_gram(&order, &"z".to_string()), "");
}

#[test]
fn vote_deduplication_across_orders() {
    // a 2-gram and a 1-gram share the first token "good"; only the longer
    // gram's vote counts, so label "two" wins even though "one" also matches
    let two = one_order(vec![("two", table(10, &[("good morning", 900_000_000)]))]);
    let one = one_order(vec![("one", table(10, &[("good", 900_000_000)]))]);
    let m = NGram { ngram_maps: vec![one, two], max_grams: 2 };
    assert_eq!(m.test_sentence(&"good morning".to_string()), "two");
}

#[test]
fn validate_counts_exact_matches() {
    let m = pos_neg_model();
    let data = vec![
        ("pos".to_string(), "good".to_string()),
        ("neg".to_string(), "bad".to_string()),
        ("pos".to_string(), "bad".to_string()),
        ("neg".to_string(), "unknown words".to_string()),
    ];
    // two of four classified correctly
    let acc = NGram::validate(&m.ngram_maps, &data);
    assert_eq!(acc, SCALE / 2);
}

#[test]
fn validate_all_correct() {
    let m = pos_neg_model();
    let data = vec![
        ("pos".to_string(), "good".to_string()),
        ("neg".to_string(), "bad".to_string()),
    ];
    assert_eq!(NGram::validate(&m.ngram_maps, &data), SCALE);
}

#[test]
fn create_grams_sliding_window() {
    let gs = NGram::create_grams(&"a b c".to_string(), 2);
    assert_eq!(gs, vec!["a b".to_string(), "b c".to_string()]);
}

#[test]
fn create_grams_order_zero_is_empty() {
    let gs = NGram::create_grams(&"a b c".to_string(), 0);
    assert!(gs.is_empty());
}

#[test]
fn create_grams_short_sentence_is_empty() {
    let gs = NGram::create_grams(&"a".to_string(), 2);
    assert!(gs.is_empty());
}

#[test]
fn create_grams_skips_empty_tokens() {
    let gs = NGram::create_grams(&"  a   b ".to_string(), 1);
    assert_eq!(gs, vec!["a".to_string(), "b".to_string()]);
}

#[test]
fn train_single_pass_probabilities() {
    let data = vec![
        ("pos".to_string(), "good great".to_string()),
        ("pos".to_string(), "good".to_string()),
        ("neg".to_string(), "bad".to_string()),
    ];
    let m = NGram::new(&data, 1);
    let order = &m.ngram_maps[0];
    let pos = order.get_ref("pos").expect("pos table");
    assert_eq!(pos.total_samples, 2);
    // "good" occurs twice over two samples
    assert_eq!(pos.get_prob("good"), Some(SCALE));
    // "great" occurs once over two samples
    assert_eq!(pos.get_prob("great"), Some(SCALE / 2));
    let neg = order.get_ref("neg").expect("neg table");
    assert_eq!(neg.total_samples, 1);
    assert_eq!(neg.get_prob("bad"), Some(SCALE));
}

#[test]
fn train_drops_empty_labels() {
    let data = vec![
        ("".to_string(), "noise".to_string()),
        ("pos".to_string(), "good".to_string()),
    ];
    let m = NGram::new(&data, 1);
    assert!(m.ngram_maps[0].get_ref("").is_none());
    assert!(m.ngram_maps[0].get_ref("pos").is_some());
}

#[test]
fn incremental_training_merges_totals_and_counts() {
    let a = vec![("pos".to_string(), "good".to_string())];
    let b = vec![("pos".to_string(), "good good".to_string())];
    let mut m = NGram::new(&a, 1);
    m.train(&b);
    let both = vec![
        ("pos".to_string(), "good".to_string()),
        ("pos".to_string(), "good good".to_string()),
    ];
    let m2 = NGram::new(&both, 1);
    let t1 = m.ngram_maps[0].get_ref("pos").unwrap();
    let t2 = m2.ngram_maps[0].get_ref("pos").unwrap();
    assert_eq!(t1.total_samples, t2.total_samples);
    // the gram occurs in the second dataset, so its merged probability is
    // exactly the one-pass probability
    assert_eq!(t1.get_prob("good"), t2.get_prob("good"));
    assert_eq!(t1.get_prob("good"), Some(SCALE * 3 / 2));
}

#[test]
fn train_multi_order_tables() {
    let data = vec![("pos".to_string(), "a b c".to_string())];
    let m = NGram::new(&data, 2);
    assert_eq!(m.ngram_maps.len(), 2);
    let bi = m.ngram_maps[1].get_ref("pos").unwrap();
    assert_eq!(bi.get_prob("a b"), Some(SCALE));
    assert_eq!(bi.get_prob("b c"), Some(SCALE));
}
