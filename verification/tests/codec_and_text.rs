use ngram_classifier::codec::LoadError;
use ngram_classifier::model::{GramTable, LabelTables, NGram};
use ngram_classifier::nums::{parse_fixed, parse_u64, render_fixed, render_u64};
use ngram_classifier::text::{
    clean_words, get_optional_validation_map, get_validation_map, get_word_pairs,
    strip_special_characters,
};

const SCALE: u64 = 1_000_000_000;

fn table(total: u64, entries: &[(&str, u64)]) -> GramTable {
    GramTable {
        total_samples: total,
        probabilities: entries.iter().map(|(g, p)| (g.to_string(), *p)).collect(),
    }
}

fn one_order(entries: Vec<(&str, GramTable)>) -> LabelTables {
    LabelTables { entries: entries.into_iter().map(|(l, t)| (l.to_string(), t)).collect() }
}

#[test]
fn save_writes_the_documented_layout() {
    let pos = table(10, &[("good", 800_000_000)]);
    let m = NGram { ngram_maps: vec![one_order(vec![("pos", pos)])], max_grams: 1 };
    let text = m.save();
    assert_eq!(text, "pos,10|\"good\"0.800000000\n<<GRAM>>\n");
}

#[test]
fn save_load_round_trip() {
    let pos = table(10, &[("good", 800_000_000), ("fine day", 123_456_789)]);
    let neg = table(7, &[("bad", 900_000_000)]);
    let uni = one_order(vec![("pos", pos), ("neg", neg)]);
    let bi = one_order(vec![("pos", table(10, &[("very good", 250_000_000)]))]);
    let m = NGram { ngram_maps: vec![uni, bi], max_grams: 2 };
    let text = m.save();
    let m2 = NGram::load(&text).expect("round trip");
    assert_eq!(m2.max_grams, 2);
    assert_eq!(m2.ngram_maps.len(), 2);
    let pos2 = m2.ngram_maps[0].get_ref("pos").unwrap();
    assert_eq!(pos2.total_samples, 10);
    assert_eq!(pos2.get_prob("good"), Some(800_000_000));
    assert_eq!(pos2.get_prob("fine day"), Some(123_456_789));
    let neg2 = m2.ngram_maps[0].get_ref("neg").unwrap();
    assert_eq!(neg2.total_samples, 7);
    assert_eq!(neg2.get_prob("bad"), Some(900_000_000));
    let bi2 = m2.ngram_maps[1].get_ref("pos").unwrap();
    assert_eq!(bi2.get_prob("very good"), Some(250_000_000));
    // saving again reproduces the text exactly
    assert_eq!(m2.save(), text);
}

fn expect_load_error(text: &str) -> LoadError {
    match NGram::load(&text.to_string()) {
        Ok(_) => panic!("expected a load error"),
        Err(e) => e,
    }
}

#[test]
fn load_empty_input_fails() {
    assert_eq!(expect_load_error(""), LoadError::EmptyInput);
}

#[test]
fn load_without_comma_fails() {
    assert_eq!(expect_load_error("garbage\n"), LoadError::Malformed);
}

#[test]
fn load_bad_number_fails() {
    assert_eq!(expect_load_error("pos,ten|\n<<GRAM>>\n"), LoadError::Malformed);
}

#[test]
fn load_unterminated_gram_fails() {
    assert_eq!(expect_load_error("pos,10|\"good\n<<GRAM>>\n"), LoadError::Malformed);
}

#[test]
fn load_accepts_record_without_grams() {
    let m = NGram::load(&"pos,3|\n<<GRAM>>\n".to_string()).expect("load");
    assert_eq!(m.max_grams, 1);
    let t = m.ngram_maps[0].get_ref("pos").unwrap();
    assert_eq!(t.total_samples, 3);
    assert!(t.probabilities.is_empty());
}

#[test]
fn render_and_parse_fixed_point() {
    // a fixed-point value is written with all nine fractional digits, or
    // as a bare integer when the fraction is zero
    assert_eq!(render_fixed(800_000_000), "0.800000000");
    assert_eq!(render_fixed(SCALE), "1");
    assert_eq!(render_fixed(1_500_000_000), "1.500000000");
    assert_eq!(render_fixed(123_456_789), "0.123456789");
    assert_eq!(parse_fixed("0.8"), Some(800_000_000));
    assert_eq!(parse_fixed("1"), Some(SCALE));
    assert_eq!(parse_fixed("0.25"), Some(250_000_000));
    assert_eq!(parse_fixed(".5"), Some(500_000_000));
    assert_eq!(parse_fixed("2."), Some(2_000_000_000));
    assert_eq!(parse_fixed(""), None);
    assert_eq!(parse_fixed("x"), None);
    // digits beyond the ninth place are dropped
    assert_eq!(parse_fixed("0.1234567891"), Some(123_456_789));
}

#[test]
fn render_and_parse_u64() {
    assert_eq!(render_u64(0), "0");
    assert_eq!(render_u64(10540), "10540");
    assert_eq!(parse_u64("0"), Some(0));
    assert_eq!(parse_u64("10540"), Some(10540));
    assert_eq!(parse_u64(""), None);
    assert_eq!(parse_u64("1x"), None);
    assert_eq!(parse_u64("18446744073709551615"), Some(u64::MAX));
    assert_eq!(parse_u64("18446744073709551616"), None);
}

#[test]
fn strip_lowercases_and_replaces_special_characters() {
    let s = strip_special_characters(&"Hello, World! 42".to_string());
    assert_eq!(s, "hello  world    ");
}

#[test]
fn clean_words_applies_stop_list_and_whitelist() {
    let stop = get_validation_map(&"the\na".to_string());
    let cleaned = clean_words(&"The Good A Day".to_string(), Some(&stop), None);
    assert_eq!(cleaned, " good day");
    let wl = get_validation_map(&"good".to_string());
    let cleaned2 = clean_words(&"good day".to_string(), None, Some(&wl));
    assert_eq!(cleaned2, " good");
}

#[test]
fn clean_words_without_lists_keeps_every_field() {
    let cleaned = clean_words(&"a b".to_string(), None, None);
    assert_eq!(cleaned, " a b");
}

#[test]
fn optional_validation_map_empty_when_absent() {
    let m = get_optional_validation_map(None);
    assert!(!m.contains("anything"));
    let contents = "word".to_string();
    let m2 = get_optional_validation_map(Some(&contents));
    assert!(m2.contains("word"));
    assert!(!m2.contains("other"));
}

#[test]
fn word_pairs_chain_consecutive_words() {
    let pairs = get_word_pairs(&" a b c".to_string());
    assert_eq!(
        pairs,
        vec![("a".to_string(), "b".to_string()), ("b".to_string(), "c".to_string())]
    );
}
