use chunkstats::batch::Distributor;

fn lines(texts: &[&str]) -> Vec<String> {
    texts.iter().map(|t| t.to_string()).collect()
}

fn distribute(input: &[&str], chunk_size: usize) -> (Vec<Vec<String>>, u64) {
    let mut distributor = Distributor::new(chunk_size);
    let mut batches = Vec::new();
    for line in input {
        if let Some(batch) = distributor.push(line.to_string()) {
            batches.push(batch);
        }
    }
    let (last, count) = distributor.finish();
    if let Some(batch) = last {
        batches.push(batch);
    }
    (batches, count)
}

#[test]
fn three_lines_in_batches_of_two() {
    let mut distributor = Distributor::new(2);
    assert_eq!(distributor.chunk_size(), 2);
    assert_eq!(distributor.line_count(), 0);
    assert_eq!(distributor.push("Tokyo;10.0".to_string()), None);
    assert_eq!(distributor.line_count(), 1);
    assert_eq!(
        distributor.push("Tokyo;20.0".to_string()),
        Some(lines(&["Tokyo;10.0", "Tokyo;20.0"]))
    );
    assert_eq!(distributor.push("Oslo;-5.0".to_string()), None);
    assert_eq!(distributor.line_count(), 3);
    assert_eq!(distributor.finish(), (Some(lines(&["Oslo;-5.0"])), 3));
}

#[test]
fn empty_stream_has_no_batch() {
    let distributor = Distributor::new(1000);
    assert_eq!(distributor.finish(), (None, 0));
    assert_eq!(distribute(&[], 3), (Vec::new(), 0));
}

#[test]
fn full_last_batch_leaves_nothing_pending() {
    let (batches, count) = distribute(&["a", "b", "c", "d"], 2);
    assert_eq!(batches, vec![lines(&["a", "b"]), lines(&["c", "d"])]);
    assert_eq!(count, 4);
}

#[test]
fn chunk_size_one_gives_one_line_per_batch() {
    let (batches, count) = distribute(&["a", "b", "c"], 1);
    assert_eq!(batches, vec![lines(&["a"]), lines(&["b"]), lines(&["c"])]);
    assert_eq!(count, 3);
}

#[test]
fn chunk_size_zero_gives_one_line_per_batch() {
    let (batches, count) = distribute(&["a", "b", "c"], 0);
    assert_eq!(batches, vec![lines(&["a"]), lines(&["b"]), lines(&["c"])]);
    assert_eq!(count, 3);
}

#[test]
fn chunk_larger_than_the_stream_gives_one_batch() {
    let (batches, count) = distribute(&["a", "b", "c"], 1000);
    assert_eq!(batches, vec![lines(&["a", "b", "c"])]);
    assert_eq!(count, 3);
}

#[test]
fn batches_put_end_to_end_are_the_stream() {
    let input: Vec<String> = (0..37).map(|i| format!("line {}", i)).collect();
    let texts: Vec<&str> = input.iter().map(|s| s.as_str()).collect();
    for chunk_size in 0..45usize {
        let (batches, count) = distribute(&texts, chunk_size);
        assert_eq!(count, 37);
        let full = if chunk_size == 0 { 1 } else { chunk_size };
        for (k, batch) in batches.iter().enumerate() {
            assert!(!batch.is_empty());
            assert!(batch.len() <= full);
            if k + 1 < batches.len() {
                assert_eq!(batch.len(), full);
            }
        }
        assert_eq!(batches.len(), (37 + full - 1) / full);
        let joined: Vec<String> = batches.into_iter().flatten().collect();
        assert_eq!(joined, input);
    }
}

#[test]
fn every_line_is_counted() {
    let (_, count) = distribute(&["Tokyo;10.0", "malformed", "", "a;b;c", "Paris;abc"], 2);
    assert_eq!(count, 5);
}
