use peko_sort::backend::{MergeReader, MergeWriter, SortError};
use peko_sort::in_memory::{InMemoryReader, InMemoryWriter};
use peko_sort::merge_sort::MergeSorter;

fn strings(items: &[&str]) -> Vec<String> {
    items.iter().map(|s| s.to_string()).collect()
}

fn drain<T: peko_sort::order::SortKey>(mut r: InMemoryReader<T>) -> Vec<T> {
    let mut out = Vec::new();
    while !r.is_exhausted().unwrap() {
        out.push(r.get().unwrap());
        r.advance().unwrap();
    }
    out
}

fn sort_strings(items: Vec<String>) -> Vec<String> {
    let sorter = MergeSorter::<String>::new();
    let r = sorter
        .complete_sort(
            InMemoryReader::from_vec(items),
            InMemoryWriter::new(),
            InMemoryWriter::new(),
            InMemoryWriter::new(),
            InMemoryWriter::new(),
        )
        .unwrap();
    drain(r)
}

fn written<T: peko_sort::order::SortKey>(w: InMemoryWriter<T>) -> Vec<T> {
    drain(w.into_reader().unwrap())
}

#[test]
fn empty_input_gives_empty_output() {
    assert_eq!(sort_strings(Vec::new()), Vec::<String>::new());
}

#[test]
fn single_element_is_kept() {
    assert_eq!(sort_strings(strings(&["b"])), strings(&["b"]));
}

#[test]
fn three_elements_are_sorted() {
    assert_eq!(sort_strings(strings(&["c", "a", "b"])), strings(&["a", "b", "c"]));
}

#[test]
fn duplicates_are_all_kept() {
    assert_eq!(sort_strings(strings(&["b", "a", "b"])), strings(&["a", "b", "b"]));
}

#[test]
fn strings_order_by_bytes() {
    let input = strings(&["b", "ab", "a", "", "B", "abc", "aa"]);
    assert_eq!(sort_strings(input), strings(&["", "B", "a", "aa", "ab", "abc", "b"]));
}

fn token(state: &mut u64, len: usize) -> String {
    const ALPHABET: &[u8] = b"0123456789ABCDEFGHIJKLMNOPQRSTUVWXYZabcdefghijklmnopqrstuvwxyz";
    let mut s = String::with_capacity(len);
    for _ in 0..len {
        *state = state.wrapping_mul(6364136223846793005).wrapping_add(1442695040888963407);
        s.push(ALPHABET[((*state >> 33) % 62) as usize] as char);
    }
    s
}

#[test]
fn million_random_tokens_are_sorted() {
    let mut state = 42u64;
    let input: Vec<String> = (0..1_000_000).map(|_| token(&mut state, 10)).collect();
    let mut expected = input.clone();
    expected.sort();
    let out = sort_strings(input);
    assert_eq!(out.len(), 1_000_000);
    assert!(out.windows(2).all(|w| w[0] <= w[1]));
    assert_eq!(out, expected);
}

#[test]
fn output_matches_std_sort_for_every_small_length() {
    let mut state = 7u64;
    for n in 0..40 {
        let input: Vec<String> = (0..n).map(|_| token(&mut state, 2)).collect();
        let mut expected = input.clone();
        expected.sort();
        assert_eq!(sort_strings(input), expected);
    }
}

#[test]
fn integers_are_sorted() {
    let sorter = MergeSorter::<u64>::new();
    let r = sorter
        .complete_sort(
            InMemoryReader::from_vec(vec![5u64, 3, 9, 1, 3, 0, 8]),
            InMemoryWriter::new(),
            InMemoryWriter::new(),
            InMemoryWriter::new(),
            InMemoryWriter::new(),
        )
        .unwrap();
    assert_eq!(drain(r), vec![0, 1, 3, 3, 5, 8, 9]);
}

#[test]
fn split_deals_round_robin() {
    let sorter = MergeSorter::<u64>::new();
    for n in 0..10u64 {
        let mut src = InMemoryReader::from_vec((0..n).collect());
        let mut left = InMemoryWriter::new();
        let mut right = InMemoryWriter::new();
        let count = sorter.split(&mut src, &mut left, &mut right).unwrap();
        assert_eq!(count, n as usize);
        assert!(src.is_exhausted().unwrap());
        let l = written(left);
        let r = written(right);
        assert_eq!(l.len() + r.len(), n as usize);
        assert!(l.len() - r.len() <= 1);
        assert_eq!(l, (0..n).filter(|i| i % 2 == 0).collect::<Vec<_>>());
        assert_eq!(r, (0..n).filter(|i| i % 2 == 1).collect::<Vec<_>>());
    }
}

#[test]
fn merge_step_takes_one_run_from_each_side() {
    let sorter = MergeSorter::<u64>::new();
    let mut l = InMemoryReader::from_vec(vec![1u64, 4, 6, 2]);
    let mut r = InMemoryReader::from_vec(vec![2u64, 3, 9]);
    let mut w = InMemoryWriter::new();
    let more = sorter.merge_step(&mut l, &mut r, &mut w, 3).unwrap();
    assert!(more);
    assert_eq!(written(w), vec![1, 2, 3, 4, 6, 9]);
    assert_eq!(drain(l), vec![2]);
    assert!(r.is_exhausted().unwrap());
}

#[test]
fn merge_step_reports_when_both_sides_are_done() {
    let sorter = MergeSorter::<u64>::new();
    let mut l = InMemoryReader::from_vec(vec![5u64]);
    let mut r = InMemoryReader::from_vec(vec![]);
    let mut w = InMemoryWriter::new();
    let more = sorter.merge_step(&mut l, &mut r, &mut w, 4).unwrap();
    assert!(!more);
    assert_eq!(written(w), vec![5]);
}

#[test]
fn merge_step_prefers_left_on_ties() {
    let sorter = MergeSorter::<String>::new();
    let mut l = InMemoryReader::from_vec(strings(&["x"]));
    let mut r = InMemoryReader::from_vec(strings(&["x", "y"]));
    let mut w = InMemoryWriter::new();
    sorter.merge_step(&mut l, &mut r, &mut w, 2).unwrap();
    assert_eq!(written(w), strings(&["x", "x", "y"]));
}

#[test]
fn merge_pass_alternates_writers() {
    let sorter = MergeSorter::<u64>::new();
    let mut l = InMemoryReader::from_vec(vec![7u64, 1, 5]);
    let mut r = InMemoryReader::from_vec(vec![3u64, 2]);
    let mut wl = InMemoryWriter::new();
    let mut wr = InMemoryWriter::new();
    sorter.merge(&mut l, &mut r, &mut wl, &mut wr, 1).unwrap();
    assert_eq!(written(wl), vec![3, 7, 5]);
    assert_eq!(written(wr), vec![1, 2]);
}

#[test]
fn sort_driver_returns_sorted_halves() {
    let sorter = MergeSorter::<u64>::new();
    let l = InMemoryReader::from_vec(vec![9u64, 4, 7, 1]);
    let r = InMemoryReader::from_vec(vec![2u64, 8, 3]);
    let (sl, sr, wl, wr) = sorter
        .sort(l, r, InMemoryWriter::new(), InMemoryWriter::new(), 7)
        .unwrap();
    let mut all = drain(sl);
    let right = drain(sr);
    assert!(all.windows(2).all(|w| w[0] <= w[1]));
    assert!(right.windows(2).all(|w| w[0] <= w[1]));
    all.extend(right);
    all.sort();
    assert_eq!(all, vec![1, 2, 3, 4, 7, 8, 9]);
    assert!(written(wl).is_empty());
    assert!(written(wr).is_empty());
}

#[test]
fn get_past_the_end_is_an_exhaustion_error() {
    let mut r = InMemoryReader::from_vec(vec![1u64]);
    assert_eq!(r.get(), Ok(1));
    assert_eq!(r.advance(), Ok(false));
    assert_eq!(r.get(), Err(SortError::Exhausted));
    assert_eq!(r.advance(), Ok(false));
    assert_eq!(r.is_exhausted(), Ok(true));
}

#[test]
fn reader_becomes_empty_writer() {
    let r = InMemoryReader::from_vec(vec![1u64, 2]);
    let mut w = r.into_writer().unwrap();
    w.append(4).unwrap();
    assert_eq!(written(w), vec![4]);
}

#[test]
fn check_sorted_accepts_sorted_and_rejects_unsorted() {
    let mut r = InMemoryReader::from_vec(vec![1u64, 1, 2, 5]);
    assert_eq!(peko_sort::merge_sort::check_sorted(&mut r), Ok(true));
    assert!(r.is_exhausted().unwrap());
    let mut r = InMemoryReader::from_vec(vec![1u64, 3, 2]);
    assert_eq!(peko_sort::merge_sort::check_sorted(&mut r), Ok(false));
    let mut r = InMemoryReader::from_vec(Vec::<u64>::new());
    assert_eq!(peko_sort::merge_sort::check_sorted(&mut r), Ok(true));
}

#[test]
fn metrics_records_hold_their_values() {
    let m = peko_sort::metrics::RunMetrics { mode: "in_memory", n: 3, len: 10, elapsed_ms: 7, peak_mem_kb: 42 };
    assert_eq!((m.mode, m.n, m.len, m.elapsed_ms, m.peak_mem_kb), ("in_memory", 3, 10, 7, 42));
}
