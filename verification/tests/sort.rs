use coreutils::batch::{run_sort, sort_lines};
use coreutils::merge::{build_pool, merge_pool, merge_step, run_merge, run_merge_flush};
use coreutils::pipeline::{
    collect_batch, join_lines, plan_merges, sort_bytes, sort_pipeline, split_lines, SortConfig,
};
use coreutils::run::SortedChunk;

fn lines(words: &[&str]) -> Vec<Vec<u8>> {
    words.iter().map(|w| w.as_bytes().to_vec()).collect()
}

#[test]
fn split_and_join_round_trip() {
    let data = b"alpha\nbeta\ngamma\n".to_vec();
    let split = split_lines(&data);
    assert_eq!(split, lines(&["alpha", "beta", "gamma"]));
    assert_eq!(join_lines(&split), data);
}

#[test]
fn split_without_trailing_delimiter() {
    let data = b"alpha\nbeta".to_vec();
    assert_eq!(split_lines(&data), lines(&["alpha", "beta"]));
    assert_eq!(split_lines(&Vec::new()), Vec::<Vec<u8>>::new());
    assert_eq!(split_lines(&b"\n".to_vec()), lines(&[""]));
}

#[test]
fn sort_lines_orders_and_keeps_lines() {
    let input = lines(&["pear", "apple", "orange", "apple", ""]);
    let sorted = sort_lines(input);
    assert_eq!(sorted, lines(&["", "apple", "apple", "orange", "pear"]));
}

#[test]
fn sorted_run_new_primes_head() {
    let run = run_sort(lines(&["cherry", "apple", "banana"]));
    assert!(!run.is_merged());
    assert!(!run.is_flushed());
    assert_eq!(run.peek().unwrap(), &b"apple".to_vec());
}

#[test]
fn drain_until_boundary() {
    // A run over ["a", "c", "e"] drained with limit "c" emits "a" and "c",
    // reports not-exhausted, and keeps "e" as its head.
    let mut run = SortedChunk::new(lines(&["a", "c", "e"]));
    let mut out: Vec<Vec<u8>> = Vec::new();
    let limit = b"c".to_vec();
    let exhausted = run.drain_until(&mut out, &limit).unwrap();
    assert!(!exhausted);
    assert_eq!(out, lines(&["a", "c"]));
    assert_eq!(run.peek().unwrap(), &b"e".to_vec());
}

#[test]
fn drain_until_exhausts_small_run() {
    let mut run = SortedChunk::new(lines(&["a", "b"]));
    let mut out: Vec<Vec<u8>> = Vec::new();
    let limit = b"z".to_vec();
    let exhausted = run.drain_until(&mut out, &limit).unwrap();
    assert!(exhausted);
    assert_eq!(out, lines(&["a", "b"]));
    assert!(run.peek().is_none());
}

#[test]
fn drain_collects_everything() {
    let mut run = SortedChunk::new(lines(&["x", "y"]));
    let mut out: Vec<Vec<u8>> = Vec::new();
    run.drain(&mut out).unwrap();
    assert_eq!(out, lines(&["x", "y"]));
    assert!(run.peek().is_none());
}

#[test]
fn flush_to_disk_round_trip() {
    // Spilling a run to temporary storage must not change what it emits.
    let mut run = SortedChunk::new(lines(&["ant", "bee", "cow", "dog"]));
    run.flush_to_disk().unwrap();
    assert!(run.is_flushed());
    assert_eq!(run.peek().unwrap(), &b"ant".to_vec());
    let mut out: Vec<Vec<u8>> = Vec::new();
    run.drain(&mut out).unwrap();
    assert_eq!(out, lines(&["ant", "bee", "cow", "dog"]));
}

#[test]
fn flush_to_disk_is_idempotent() {
    let mut run = SortedChunk::new(lines(&["one", "two"]));
    run.flush_to_disk().unwrap();
    run.flush_to_disk().unwrap();
    let mut out: Vec<Vec<u8>> = Vec::new();
    run.drain(&mut out).unwrap();
    assert_eq!(out, lines(&["one", "two"]));
}

#[test]
fn merge_step_emits_smallest_slice() {
    let mut pool = vec![
        SortedChunk::new(lines(&["b", "d"])),
        SortedChunk::new(lines(&["a", "c", "z"])),
    ];
    // The run with head "a" is drained until its head would pass "b".
    let piece = merge_step(&mut pool).unwrap().unwrap();
    assert_eq!(piece, lines(&["a"]));
    assert_eq!(pool.len(), 2);
}

#[test]
fn run_merge_combines_runs() {
    let runs = vec![
        SortedChunk::new(lines(&["banana", "damson"])),
        SortedChunk::new(lines(&["apple", "cherry"])),
        SortedChunk::new(Vec::new()),
    ];
    let merged = run_merge(runs).unwrap();
    assert!(merged.is_merged());
    assert!(!merged.is_flushed());
    let pool = build_pool(vec![merged]);
    let out = merge_pool(pool).unwrap();
    assert_eq!(out, lines(&["apple", "banana", "cherry", "damson"]));
}

#[test]
fn run_merge_flush_spills_and_keeps_lines() {
    let runs = vec![
        SortedChunk::new(lines(&["b", "b", "x"])),
        SortedChunk::new(lines(&["a", "y"])),
    ];
    let mut merged = run_merge_flush(runs).unwrap();
    assert!(merged.is_merged());
    assert!(merged.is_flushed());
    let mut out: Vec<Vec<u8>> = Vec::new();
    merged.drain(&mut out).unwrap();
    assert_eq!(out, lines(&["a", "b", "b", "x", "y"]));
}

#[test]
fn pipeline_sorts_unordered_lines() {
    let config = SortConfig { batch_size: 2, buffer_size: None };
    let input = lines(&["pear", "apple", "plum", "apple", "fig", "date"]);
    let (sorted, spills) = sort_pipeline(input, &config).unwrap();
    assert_eq!(sorted, lines(&["apple", "apple", "date", "fig", "pear", "plum"]));
    assert_eq!(spills, 0);
}

#[test]
fn pipeline_many_batches() {
    // More batches than the fan-in factor, so merge rounds happen.
    let config = SortConfig { batch_size: 1, buffer_size: None };
    let words = [
        "november", "golf", "quebec", "alpha", "zulu", "kilo", "echo", "tango", "bravo", "mike",
        "yankee", "delta", "hotel", "sierra", "china", "whiskey", "foxtrot", "lima", "papa",
        "uniform", "romeo", "india", "victor", "oscar", "juliett", "xray",
    ];
    let mut expected: Vec<&str> = words.to_vec();
    expected.sort();
    let (sorted, _) = sort_pipeline(lines(&words), &config).unwrap();
    assert_eq!(sorted, lines(&expected));
}

#[test]
fn sort_bytes_concatenates_streams_in_order() {
    let config = SortConfig { batch_size: 100, buffer_size: None };
    let streams = vec![b"banana\napple".to_vec(), b"cherry\napricot\n".to_vec()];
    let (out, spills) = sort_bytes(&streams, &config).unwrap();
    assert_eq!(out, b"apple\napricot\nbanana\ncherry\n".to_vec());
    assert_eq!(spills, 0);
}

#[test]
fn sort_bytes_already_sorted_is_byte_identical() {
    // Sorting already-sorted, newline-terminated input changes nothing.
    let config = SortConfig { batch_size: 3, buffer_size: None };
    let data = b"alpha\nbeta\ndelta\ngamma\n".to_vec();
    let (out, _) = sort_bytes(&vec![data.clone()], &config).unwrap();
    assert_eq!(out, data);
}

#[test]
fn sort_bytes_empty_input() {
    let config = SortConfig { batch_size: 10, buffer_size: None };
    let (out, spills) = sort_bytes(&vec![Vec::new()], &config).unwrap();
    assert_eq!(out, Vec::<u8>::new());
    assert_eq!(spills, 0);
}

#[test]
fn sort_bytes_equal_keys_kept() {
    let config = SortConfig { batch_size: 1, buffer_size: None };
    let streams = vec![b"b\na\nb\na\na\n".to_vec()];
    let (out, _) = sort_bytes(&streams, &config).unwrap();
    assert_eq!(out, b"a\na\na\nb\nb\n".to_vec());
}

#[test]
fn no_spill_when_input_fits_budget() {
    // The whole input fits the byte budget: nothing spills, nothing fails.
    let config = SortConfig { batch_size: 2, buffer_size: Some(1024) };
    let words = ["fig", "date", "apple", "pear", "plum", "kiwi", "lime"];
    let mut expected: Vec<&str> = words.to_vec();
    expected.sort();
    let (sorted, spills) = sort_pipeline(lines(&words), &config).unwrap();
    assert_eq!(sorted, lines(&expected));
    assert_eq!(spills, 0);
}

#[test]
fn collect_batch_cuts_on_line_count() {
    let config = SortConfig { batch_size: 2, buffer_size: None };
    // pending input is stored back to front: "a" is taken first
    let mut pending = lines(&["c", "b", "a"]);
    let mut bytes: u128 = 0;
    let (batch, exhausted) = collect_batch(&mut pending, &config, &mut bytes);
    assert_eq!(batch, lines(&["a", "b"]));
    assert!(!exhausted);
    assert_eq!(bytes, 2);
    let (batch, exhausted) = collect_batch(&mut pending, &config, &mut bytes);
    assert_eq!(batch, lines(&["c"]));
    assert!(exhausted);
}

#[test]
fn plan_merges_groups_by_fan_in() {
    // Seven fresh runs and one merged run: one full group of five leaves,
    // the merged run and the two leftovers are requeued untouched.
    let mut registry: Vec<SortedChunk> = Vec::new();
    for w in ["g", "a", "e", "c", "b", "f", "d"] {
        registry.push(run_sort(lines(&[w])));
    }
    registry.push(run_merge(vec![run_sort(lines(&["m"]))]).unwrap());
    let groups = plan_merges(&mut registry);
    assert_eq!(groups.len(), 1);
    assert_eq!(groups[0].len(), 5);
    assert_eq!(registry.len(), 3);
    assert!(registry.iter().any(|c| c.is_merged()));
}

#[test]
fn spill_forced_by_small_buffer() {
    // A byte budget below the input size routes merge rounds through
    // temporary storage; the output still sorts the same lines.
    let config = SortConfig { batch_size: 2, buffer_size: Some(4) };
    let words = [
        "kiwi", "apple", "mango", "grape", "lemon", "melon", "peach", "plumb", "berry", "chard",
        "cress", "guava",
    ];
    let mut expected: Vec<&str> = words.to_vec();
    expected.sort();
    let (sorted, spills) = sort_pipeline(lines(&words), &config).unwrap();
    assert_eq!(sorted, lines(&expected));
    assert!(spills >= 1);
}

#[test]
fn spill_keeps_duplicates_and_empties() {
    let config = SortConfig { batch_size: 1, buffer_size: Some(1) };
    let streams = vec![b"cc\n\nbb\ncc\n\naa\n".to_vec()];
    let (out, spills) = sort_bytes(&streams, &config).unwrap();
    assert_eq!(out, b"\n\naa\nbb\ncc\ncc\n".to_vec());
    assert!(spills >= 1);
}
