use rowstats::{
    combine_results, format_result, parse_line, parse_value, rounded_mean, split_chunks,
    summarize, AggregateError, ChunkError, Fault, PartialResult, StatAccumulator, StrBuffer,
    BLOCK_SIZE,
};

fn run(text: &str, block: usize, f: u32) -> Result<String, Fault> {
    summarize(text.as_bytes(), block, f).map(|b| String::from_utf8(b).unwrap())
}

/// Gathers `text` with `workers` workers, handing chunks out in turn, and
/// merges the partial results in the given order of workers.
fn run_workers(text: &str, block: usize, workers: usize, order: &[usize]) -> String {
    let chunks = split_chunks(text.as_bytes(), block).unwrap();
    let mut partials: Vec<PartialResult> = (0..workers).map(|_| PartialResult::new()).collect();
    for (i, c) in chunks.iter().enumerate() {
        partials[i % workers].process_chunk(c, 1).unwrap();
    }
    let mut slots: Vec<Option<PartialResult>> = partials.into_iter().map(Some).collect();
    let ordered: Vec<PartialResult> = order.iter().map(|&i| slots[i].take().unwrap()).collect();
    let merged = combine_results(ordered).unwrap();
    String::from_utf8(format_result(&merged, 1)).unwrap()
}

const SAMPLE: &str = "Paris;-2.0\nBerlin;10.5\nParis;3.0\nAmsterdam;0.0\nBerlin;-3.3\n\
Paris;7.0\nZurich;99.9\nBerlin;4.4\nAmsterdam;-0.4\nZurich;-99.9\n";

#[test]
fn numeric_example_rounds_mean() {
    let out = run("Paris;-2.0\nParis;3.0\nParis;7.0\n", BLOCK_SIZE, 1).unwrap();
    assert_eq!(out, "{Paris=-2.0/2.7/7.0}");
}

#[test]
fn single_line_file_gives_one_chunk_and_one_entry() {
    let text = "Oslo;12.3\n";
    let chunks = split_chunks(text.as_bytes(), BLOCK_SIZE).unwrap();
    assert_eq!(chunks.len(), 1);
    assert_eq!(run(text, BLOCK_SIZE, 1).unwrap(), "{Oslo=12.3/12.3/12.3}");
}

#[test]
fn malformed_row_is_fatal() {
    let r = run("Paris;1.0\nNoDelimiterHere\nParis;2.0\n", BLOCK_SIZE, 1);
    assert_eq!(r, Err(Fault::Aggregate(AggregateError::MalformedLine)));
}

#[test]
fn extra_delimiter_is_fatal() {
    let r = run("Paris;1.0;2.0\n", BLOCK_SIZE, 1);
    assert_eq!(r, Err(Fault::Aggregate(AggregateError::MalformedLine)));
}

#[test]
fn bad_number_is_fatal() {
    assert_eq!(
        run("Paris;abc\n", BLOCK_SIZE, 1),
        Err(Fault::Aggregate(AggregateError::MalformedLine))
    );
    assert_eq!(
        run("Paris;1.25\n", BLOCK_SIZE, 1),
        Err(Fault::Aggregate(AggregateError::MalformedLine))
    );
}

#[test]
fn keys_sorted_bytewise() {
    let out = run(SAMPLE, BLOCK_SIZE, 1).unwrap();
    assert_eq!(
        out,
        "{Amsterdam=-0.4/-0.2/0.0, Berlin=-3.3/3.9/10.5, Paris=-2.0/2.7/7.0, Zurich=-99.9/0.0/99.9}"
    );
}

#[test]
fn empty_input_gives_empty_summary() {
    assert_eq!(run("", BLOCK_SIZE, 1).unwrap(), "{}");
}

#[test]
fn same_output_for_any_block_size_and_worker_count() {
    let expected = run(SAMPLE, BLOCK_SIZE, 1).unwrap();
    for block in [16usize, 20, 33, 64, 4096] {
        assert_eq!(run(SAMPLE, block, 1).unwrap(), expected);
        for workers in [1usize, 2, 4, 8] {
            let order: Vec<usize> = (0..workers).collect();
            assert_eq!(run_workers(SAMPLE, block, workers, &order), expected);
            let rev: Vec<usize> = (0..workers).rev().collect();
            assert_eq!(run_workers(SAMPLE, block, workers, &rev), expected);
        }
    }
}

#[test]
fn merge_groups_in_any_order() {
    let parts = ["a;1.0\nb;2.0\n", "a;-1.0\nc;5.5\n", "b;0.4\nc;-5.5\na;3.0\n"];
    let build = |idx: &[usize]| -> Vec<PartialResult> {
        idx.iter()
            .map(|&i| {
                let mut p = PartialResult::new();
                p.process_text(parts[i].as_bytes(), 1).unwrap();
                p
            })
            .collect()
    };
    let one_pass = combine_results(build(&[0, 1, 2])).unwrap();
    let expected = String::from_utf8(format_result(&one_pass, 1)).unwrap();
    assert_eq!(expected, "{a=-1.0/1.0/3.0, b=0.4/1.2/2.0, c=-5.5/0.0/5.5}");
    let first = combine_results(build(&[2, 0])).unwrap();
    let mut second = combine_results(build(&[1])).unwrap();
    second.merge(first).unwrap();
    assert_eq!(String::from_utf8(format_result(&second, 1)).unwrap(), expected);
}

#[test]
fn chunks_reassemble_the_input() {
    let chunks = split_chunks(SAMPLE.as_bytes(), 24).unwrap();
    assert!(chunks.len() > 1);
    let mut all = Vec::new();
    for c in &chunks {
        let b = c.as_bytes();
        assert!(b.len() <= 24);
        assert_eq!(*b.last().unwrap(), b'\n');
        all.extend_from_slice(b);
    }
    assert_eq!(all, SAMPLE.as_bytes());
}

#[test]
fn block_cut_after_last_newline() {
    let raw = b"ab;1.0\ncd;2".to_vec();
    let (chunk, back) = StrBuffer::from_block(raw, 11).unwrap().unwrap();
    assert_eq!(chunk.as_bytes(), b"ab;1.0\n");
    assert_eq!(chunk.len(), 7);
    assert_eq!(back, 4);
    assert_eq!(StrBuffer::from_block(vec![0u8; 8], 0).unwrap().is_none(), true);
}

#[test]
fn line_longer_than_block_is_fatal() {
    assert_eq!(
        split_chunks(b"averyveryverylongkey;1.0\n", 8).err(),
        Some(ChunkError::NoNewline)
    );
    assert_eq!(
        StrBuffer::from_block(b"no newline".to_vec(), 10).err(),
        Some(ChunkError::NoNewline)
    );
    assert_eq!(
        run("k;1.0", BLOCK_SIZE, 1),
        Err(Fault::Chunk(ChunkError::NoNewline))
    );
}

#[test]
fn invalid_text_is_fatal() {
    let raw = vec![0xff, b';', b'1', b'\n'];
    assert_eq!(StrBuffer::from_block(raw, 4).err(), Some(ChunkError::Encoding));
}

#[test]
fn values_parse_to_fixed_point() {
    let v = |s: &str, f: u32| parse_value(s.as_bytes(), 0, s.len(), f);
    assert_eq!(v("-0.5", 1), Some(-5));
    assert_eq!(v("12", 1), Some(120));
    assert_eq!(v("12.3", 1), Some(123));
    assert_eq!(v("7", 0), Some(7));
    assert_eq!(v("1.25", 2), Some(125));
    assert_eq!(v("1.25", 1), None);
    assert_eq!(v("", 1), None);
    assert_eq!(v("-", 1), None);
    assert_eq!(v(".5", 1), None);
    assert_eq!(v("1e3", 1), None);
    assert_eq!(v("99999999999999999999", 0), None);
}

#[test]
fn line_splits_on_delimiter() {
    let line = b"Paris;-2.0";
    assert_eq!(parse_line(line, 0, line.len(), 1), Some((5, -20)));
    let empty_key = b";3.0";
    assert_eq!(parse_line(empty_key, 0, empty_key.len(), 1), Some((0, 30)));
    assert_eq!(parse_line(b"Paris", 0, 5, 1), None);
}

#[test]
fn mean_rounds_half_away_from_zero() {
    assert_eq!(rounded_mean(5, 2), 3);
    assert_eq!(rounded_mean(-5, 2), -3);
    assert_eq!(rounded_mean(8, 3), 3);
    assert_eq!(rounded_mean(-8, 3), -3);
    assert_eq!(rounded_mean(4, 3), 1);
    assert_eq!(run("x;0.0\nx;0.5\n", BLOCK_SIZE, 1).unwrap(), "{x=0.0/0.3/0.5}");
    assert_eq!(run("x;0.00\nx;0.50\n", BLOCK_SIZE, 2).unwrap(), "{x=0.00/0.25/0.50}");
    assert_eq!(run("x;-1.0\nx;-1.5\n", BLOCK_SIZE, 1).unwrap(), "{x=-1.5/-1.3/-1.0}");
}

#[test]
fn fraction_digit_counts() {
    assert_eq!(run("k;3\nk;4\n", BLOCK_SIZE, 0).unwrap(), "{k=3/4/4}");
    assert_eq!(run("k;-0.05\n", BLOCK_SIZE, 2).unwrap(), "{k=-0.05/-0.05/-0.05}");
    assert_eq!(run("k;0.0\n", BLOCK_SIZE, 1).unwrap(), "{k=0.0/0.0/0.0}");
}

#[test]
fn accumulator_folds_values() {
    let mut a = StatAccumulator::new(-20);
    a.add(30);
    a.add(70);
    assert_eq!(a, StatAccumulator { count: 3, sum: 80, min: -20, max: 70 });
    let mut b = StatAccumulator::new(100);
    b.merge(&a);
    assert_eq!(b, StatAccumulator { count: 4, sum: 180, min: -20, max: 100 });
}

#[test]
fn partial_result_records_and_looks_up() {
    let mut p = PartialResult::new();
    assert_eq!(p.get(b"k"), None);
    p.record(b"k", 15).unwrap();
    p.record(b"k", -5).unwrap();
    p.record(b"j", 1).unwrap();
    assert_eq!(p.get(b"k"), Some(StatAccumulator { count: 2, sum: 10, min: -5, max: 15 }));
    assert_eq!(p.get(b"j"), Some(StatAccumulator { count: 1, sum: 1, min: 1, max: 1 }));
}

#[test]
fn merge_adds_counts() {
    let mut p = PartialResult::new();
    p.record(b"k", 1).unwrap();
    let mut q = PartialResult::new();
    q.record(b"k", 2).unwrap();
    q.record(b"z", 2).unwrap();
    assert!(p.merge(q).is_ok());
    assert_eq!(p.get(b"k"), Some(StatAccumulator { count: 2, sum: 3, min: 1, max: 2 }));
    assert_eq!(p.get(b"z"), Some(StatAccumulator { count: 1, sum: 2, min: 2, max: 2 }));
}

#[test]
fn count_overflow_is_reported() {
    let full = StatAccumulator { count: u64::MAX, sum: 0, min: 0, max: 0 };
    let mut p = PartialResult::new();
    p.table.set(b"k", full);
    assert_eq!(p.record(b"k", 1), Err(AggregateError::CountOverflow));
    assert_eq!(p.get(b"k"), Some(full));
    let mut q = PartialResult::new();
    q.record(b"k", 1).unwrap();
    assert_eq!(p.merge(q), Err(AggregateError::CountOverflow));
    let mut r = PartialResult::new();
    r.record(b"k", 1).unwrap();
    let mut s = PartialResult::new();
    s.table.set(b"k", full);
    assert_eq!(
        combine_results(vec![r, s]).err(),
        Some(AggregateError::CountOverflow)
    );
}
