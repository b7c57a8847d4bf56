use ngram_classifier::learn::{
    LearnConfig, PruneCountConfig, PruneProbabilityConfig, PruneSelectionConfig,
    PruneSimilarityConfig, RandomizerConfig,
};
use ngram_classifier::model::{GramTable, LabelTables, NGram};

const SCALE: u64 = 1_000_000_000;

fn table(total: u64, entries: &[(&str, u64)]) -> GramTable {
    GramTable {
        total_samples: total,
        probabilities: entries.iter().map(|(g, p)| (g.to_string(), *p)).collect(),
    }
}

fn one_order(entries: Vec<(&str, GramTable)>) -> LabelTables {
    LabelTables { entries: entries.into_iter().map(|(l, t)| (l.to_string(), t)).collect() }
}

#[test]
fn config_defaults() {
    let p = PruneProbabilityConfig::default();
    assert_eq!(p.starting_probability, 10_000); // 0.00001
    assert_eq!(p.max_accuracy_reduction, 100_000_000); // 0.1
    assert_eq!(p.probability_multiplyer, 2_000_000_000); // 2.0
    let s = PruneSimilarityConfig::default();
    assert_eq!(s.starting_deviation, 10); // 0.00000001
    let c = PruneCountConfig::default();
    assert_eq!(c.min_count, 2);
    assert_eq!(c.adjust_amount, 10_000_000); // 0.01
    let r = RandomizerConfig::default();
    assert_eq!(r.num_params, 10);
    assert_eq!(r.step_size, 1_000_000); // 0.001
    assert_eq!(r.iterations, 1000);
    let sel = PruneSelectionConfig::default();
    assert!(!sel.probability && !sel.similarity && !sel.count && !sel.randomizer);
}

#[test]
fn config_from_values_fills_defaults() {
    let p = PruneProbabilityConfig::from_values(Some(5), None, None);
    assert_eq!(p.starting_probability, 5);
    assert_eq!(p.max_accuracy_reduction, 100_000_000);
    let c = PruneCountConfig::from_values(None, Some(7));
    assert_eq!(c.min_count, 2);
    assert_eq!(c.adjust_amount, 7);
}

#[test]
fn count_pruning_example_scenario() {
    // probability 0.15 over 10 samples reconstructs to 1.51, at or below
    // min_count 2: removed; 0.25 reconstructs to 2.51: kept
    let t = table(10, &[("weak", 150_000_000), ("strong", 250_000_000)]);
    let m = NGram { ngram_maps: vec![one_order(vec![("pos", t)])], max_grams: 1 };
    let cfg = PruneCountConfig { min_count: 2, adjust_amount: 10_000_000 };
    let pruned = m.prune_count(&cfg);
    let t2 = pruned[0].get_ref("pos").unwrap();
    assert_eq!(t2.get_prob("weak"), None);
    assert_eq!(t2.get_prob("strong"), Some(250_000_000));
    assert_eq!(t2.total_samples, 10);
}

#[test]
fn similarity_pruning_removes_non_discriminating_grams() {
    let a = table(10, &[("same", 500_000_000), ("tell", 900_000_000)]);
    let b = table(10, &[("same", 500_000_005), ("tell", 100_000_000)]);
    let m = NGram { ngram_maps: vec![one_order(vec![("a", a), ("b", b)])], max_grams: 1 };
    // deviation 5 within threshold 10: "same" goes; "tell" differs widely
    let pruned = m.prune_similarity(&10);
    let ta = pruned[0].get_ref("a").unwrap();
    assert_eq!(ta.get_prob("same"), None);
    assert_eq!(ta.get_prob("tell"), Some(900_000_000));
}

#[test]
fn probability_pruning_keeps_accuracy_floor() {
    let pos = table(10, &[("good", 800_000_000), ("rare", 1_000)]);
    let neg = table(10, &[("bad", 900_000_000)]);
    let m = NGram { ngram_maps: vec![one_order(vec![("pos", pos), ("neg", neg)])], max_grams: 1 };
    let data = vec![
        ("pos".to_string(), "good".to_string()),
        ("neg".to_string(), "bad".to_string()),
    ];
    let cfg = PruneProbabilityConfig::default();
    let (acc, maps) = m.prune_probability(&data, &None, &cfg);
    // the strong grams survive every accepted pass, so accuracy stays full
    let check = NGram::validate(&maps, &data);
    assert_eq!(check, SCALE);
    assert_eq!(acc, SCALE);
}

#[test]
fn probability_pruning_no_op_returns_baseline() {
    // every gram sits below the starting threshold, so the very first probe
    // empties the model and breaks the floor: the model comes back
    // unchanged, at the baseline accuracy
    let pos = table(10, &[("good", 5_000)]);
    let neg = table(10, &[("bad", 6_000)]);
    let m = NGram { ngram_maps: vec![one_order(vec![("pos", pos), ("neg", neg)])], max_grams: 1 };
    let data = vec![
        ("pos".to_string(), "good".to_string()),
        ("neg".to_string(), "bad".to_string()),
    ];
    let cfg = PruneProbabilityConfig::default();
    let (acc, maps) = m.prune_probability(&data, &None, &cfg);
    assert_eq!(acc, SCALE);
    assert_eq!(NGram::validate(&maps, &data), SCALE);
    let t = maps[0].get_ref("pos").unwrap();
    assert_eq!(t.get_prob("good"), Some(5_000));
}

#[test]
fn similarity_loop_returns_workable_model() {
    let pos = table(10, &[("good", 800_000_000)]);
    let neg = table(10, &[("bad", 900_000_000)]);
    let m = NGram { ngram_maps: vec![one_order(vec![("pos", pos), ("neg", neg)])], max_grams: 1 };
    let data = vec![
        ("pos".to_string(), "good".to_string()),
        ("neg".to_string(), "bad".to_string()),
    ];
    let cfg = PruneSimilarityConfig::default();
    let (_, maps) = m.prune_similarity_loop(&data, &None, &cfg);
    assert!(NGram::validate(&maps, &data) >= SCALE - cfg.max_accuracy_reduction);
}

#[test]
fn randomizer_never_worsens_accuracy() {
    let pos = table(10, &[("good", 800_000_000)]);
    let neg = table(10, &[("bad", 900_000_000)]);
    let m = NGram { ngram_maps: vec![one_order(vec![("pos", pos), ("neg", neg)])], max_grams: 1 };
    let data = vec![
        ("pos".to_string(), "good".to_string()),
        ("neg".to_string(), "bad".to_string()),
    ];
    let cfg = RandomizerConfig { num_params: 2, step_size: 1_000_000, iterations: 3 };
    let baseline = NGram::validate(&m.ngram_maps, &data);
    let (acc, maps) = m.learn_randomizer_loop(&data, &None, &cfg);
    assert!(acc >= baseline);
    // the returned accuracy is the returned model's accuracy
    assert_eq!(acc, NGram::validate(&maps, &data));
}

#[test]
fn randomize_inputs_keeps_keys_and_totals() {
    let pos = table(10, &[("good", 800_000_000), ("fine", 400_000_000)]);
    let maps = vec![one_order(vec![("pos", pos)])];
    let words = vec!["good".to_string(), "fine".to_string()];
    let cfg = RandomizerConfig { num_params: 5, step_size: 1_000_000, iterations: 1 };
    let out = NGram::randomize_inputs(&maps, &words, &cfg);
    let t = out[0].get_ref("pos").unwrap();
    assert_eq!(t.total_samples, 10);
    // keys survive; values move by at most num_params steps
    let g = t.get_prob("good").unwrap();
    assert!(g >= 800_000_000 - 5_000_000 && g <= 800_000_000 + 5_000_000);
    let f = t.get_prob("fine").unwrap();
    assert!(f >= 400_000_000 - 5_000_000 && f <= 400_000_000 + 5_000_000);
}

#[test]
fn learn_runs_selected_stages() {
    let data = vec![
        ("pos".to_string(), "good good great".to_string()),
        ("neg".to_string(), "bad awful".to_string()),
    ];
    let mut m = NGram::new(&data, 1);
    let cfg = LearnConfig {
        prune_selection: PruneSelectionConfig {
            probability: false,
            similarity: true,
            count: false,
            randomizer: true,
        },
        prune_probability: None,
        prune_similarity: None,
        prune_count: None,
        randomizer: Some(RandomizerConfig { num_params: 2, step_size: 1_000, iterations: 2 }),
    };
    m.learn(&data, Some(cfg));
    assert_eq!(m.max_grams, 1);
    // on this dataset the surviving model still classifies both rows
    assert_eq!(NGram::validate(&m.ngram_maps, &data), SCALE);
}

#[test]
fn learn_without_config_changes_nothing() {
    let data = vec![("pos".to_string(), "good".to_string())];
    let mut m = NGram::new(&data, 1);
    m.learn(&data, None);
    let t = m.ngram_maps[0].get_ref("pos").unwrap();
    assert_eq!(t.get_prob("good"), Some(SCALE));
}

#[test]
fn get_words_in_maps_lists_unigram_vocabulary() {
    let pos = table(10, &[("good", 1), ("fine", 2)]);
    let neg = table(10, &[("bad", 3), ("good", 4)]);
    let maps = vec![one_order(vec![("pos", pos), ("neg", neg)])];
    let words = NGram::get_words_in_maps(&maps);
    assert_eq!(words.len(), 3);
    assert!(words.contains(&"good".to_string()));
    assert!(words.contains(&"fine".to_string()));
    assert!(words.contains(&"bad".to_string()));
}
