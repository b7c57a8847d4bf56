use ngram_classifier::totals::{feed_totals, feed_totals_multi, StateTotals};
use ngram_classifier::util::{get_percent, multi_thread_process_list, reduce};

fn find<'a>(entries: &'a [(String, Vec<(String, u64)>)], k: &str) -> Option<&'a Vec<(String, u64)>> {
    entries.iter().find(|e| e.0 == k).map(|e| &e.1)
}

fn count(inner: &[(String, u64)], k: &str) -> Option<u64> {
    inner.iter().find(|e| e.0 == k).map(|e| e.1)
}

#[test]
fn runner_concatenates_chunks_in_order() {
    let list: Vec<u64> = (0..10).collect();
    let doubled = multi_thread_process_list(&list, &2u64, 3, |c: &u64, chunk: &[u64]| {
        chunk.iter().map(|x| x * *c).collect::<Vec<u64>>()
    });
    assert_eq!(doubled, (0..10).map(|x| 2 * x).collect::<Vec<u64>>());
}

#[test]
fn runner_handles_more_workers_than_items() {
    let list: Vec<u64> = vec![7];
    let out = multi_thread_process_list(&list, &0u64, 16, |_: &u64, chunk: &[u64]| {
        chunk.to_vec()
    });
    assert_eq!(out, vec![7]);
}

#[test]
fn reduce_folds_left() {
    let list = vec!["a".to_string(), "b".to_string(), "c".to_string()];
    let joined = reduce(&list, String::new(), |item: &String, acc: String| acc + item);
    assert_eq!(joined, "abc");
}

#[test]
fn get_percent_rounds_up_hundredths() {
    // 0.5 is 50.00 percent
    assert_eq!(get_percent(&500_000_000), 5000);
    // a third rounds up to 33.34 percent
    assert_eq!(get_percent(&333_333_333), 3334);
    assert_eq!(get_percent(&0), 0);
}

#[test]
fn feed_totals_counts_transitions() {
    let empty = StateTotals::new();
    let m1 = feed_totals(&empty, &"a".to_string(), &"b".to_string());
    assert_eq!(count(&m1, "b"), Some(1));
    let seeded = StateTotals { entries: vec![("a".to_string(), m1)] };
    let m2 = feed_totals(&seeded, &"a".to_string(), &"b".to_string());
    assert_eq!(count(&m2, "b"), Some(2));
    let m3 = feed_totals(&seeded, &"a".to_string(), &"c".to_string());
    assert_eq!(count(&m3, "b"), Some(1));
    assert_eq!(count(&m3, "c"), Some(1));
}

#[test]
fn feed_totals_multi_counts_and_keeps_initial() {
    let input = vec![
        ("a".to_string(), "b".to_string()),
        ("a".to_string(), "b".to_string()),
        ("a".to_string(), "c".to_string()),
        ("x".to_string(), "y".to_string()),
    ];
    let initial = StateTotals {
        entries: vec![("kept".to_string(), vec![("z".to_string(), 9)])],
    };
    let out = feed_totals_multi(input, Some(&initial));
    let a = find(&out.entries, "a").expect("a present");
    assert_eq!(count(a, "b"), Some(2));
    assert_eq!(count(a, "c"), Some(1));
    let x = find(&out.entries, "x").expect("x present");
    assert_eq!(count(x, "y"), Some(1));
    // states absent from the input keep their initial successors
    let kept = find(&out.entries, "kept").expect("kept present");
    assert_eq!(count(kept, "z"), Some(9));
}

#[test]
fn feed_totals_multi_drops_empty_successors() {
    let input = vec![
        ("a".to_string(), "".to_string()),
        ("b".to_string(), "c".to_string()),
    ];
    let out = feed_totals_multi(input, None);
    assert!(find(&out.entries, "a").is_none());
    let b = find(&out.entries, "b").expect("b present");
    assert_eq!(count(b, "c"), Some(1));
}

#[test]
fn feed_totals_multi_caps_at_one_hundred() {
    let mut input = Vec::new();
    for i in 0..150u32 {
        // each successor occurs a distinct number of times
        for _ in 0..(i + 1) {
            input.push(("s".to_string(), format!("t{}", i)));
        }
    }
    let out = feed_totals_multi(input, None);
    let s = find(&out.entries, "s").expect("s present");
    assert_eq!(s.len(), 100);
    // the most frequent successors survive
    assert_eq!(count(s, "t149"), Some(150));
    assert_eq!(count(s, "t50"), Some(51));
    assert_eq!(count(s, "t49"), None);
}
