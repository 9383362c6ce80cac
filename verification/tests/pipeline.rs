use chunkstats::batch::Distributor;
use chunkstats::merge::{collect_partials, merge_groups};
use chunkstats::record::parse_chunk;
use chunkstats::table::KeyedTable;

#[derive(Clone, Debug, PartialEq)]
struct Stat {
    min: f64,
    max: f64,
    sum: f64,
    count: i64,
}

fn observe(table: &mut KeyedTable<Stat>, key: String, value: f64) {
    match table.get_mut(&key) {
        Some(stat) => {
            if value < stat.min {
                stat.min = value;
            }
            if value > stat.max {
                stat.max = value;
            }
            stat.sum += value;
            stat.count += 1;
        }
        None => table.insert(key, Stat { min: value, max: value, sum: value, count: 1 }),
    }
}

fn work(table: &mut KeyedTable<Stat>, batch: &Vec<String>) -> Result<(), String> {
    for record in parse_chunk(batch) {
        let value: f64 = record.value.parse().map_err(|_| format!("bad value {}", record.value))?;
        observe(table, record.key, value);
    }
    Ok(())
}

fn fold(stats: &Vec<&Stat>) -> Stat {
    let mut total = stats[0].clone();
    for stat in stats.iter().skip(1) {
        if stat.min < total.min {
            total.min = stat.min;
        }
        if stat.max > total.max {
            total.max = stat.max;
        }
        total.sum += stat.sum;
        total.count += stat.count;
    }
    total
}

fn report(partials: &Vec<KeyedTable<Stat>>) -> String {
    let groups = merge_groups(partials);
    let mut parts: Vec<String> = Vec::new();
    for i in 0..groups.len() {
        let total = fold(groups.value_at(i));
        let mean = total.sum / total.count as f64;
        parts.push(format!("{}={:.1}/{:.1}/{:.1}", groups.key_at(i), total.min, mean, total.max));
    }
    format!("{{{}}}", parts.join(", "))
}

/// Every worker is handed every batch, in the order of the stream.
fn run(lines: &[&str], chunk_size: usize, workers: usize) -> Result<(String, String), String> {
    let mut distributor = Distributor::new(chunk_size);
    let mut batches: Vec<Vec<String>> = Vec::new();
    for line in lines {
        if let Some(batch) = distributor.push(line.to_string()) {
            batches.push(batch);
        }
    }
    let (last, line_count) = distributor.finish();
    if let Some(batch) = last {
        batches.push(batch);
    }
    let mut results: Vec<Result<KeyedTable<Stat>, String>> = Vec::new();
    for _ in 0..workers {
        let mut table = KeyedTable::new();
        let mut outcome = Ok(());
        for batch in batches.iter() {
            outcome = work(&mut table, batch);
            if outcome.is_err() {
                break;
            }
        }
        results.push(outcome.map(|_| table));
    }
    let partials = collect_partials(results)?;
    Ok((format!("Processed {} lines total", line_count), report(&partials)))
}

/// Each batch is handed to one worker, which `owner` names by the batch's
/// position in the stream.
fn run_split(lines: &[&str], chunk_size: usize, owner: &[usize], workers: usize) -> String {
    let mut distributor = Distributor::new(chunk_size);
    let mut tables: Vec<KeyedTable<Stat>> = (0..workers).map(|_| KeyedTable::new()).collect();
    let mut published = 0;
    for line in lines {
        if let Some(batch) = distributor.push(line.to_string()) {
            work(&mut tables[owner[published]], &batch).unwrap();
            published += 1;
        }
    }
    if let (Some(batch), _) = distributor.finish() {
        work(&mut tables[owner[published]], &batch).unwrap();
    }
    report(&tables)
}

#[test]
fn three_lines_two_workers() {
    let lines = ["Tokyo;10.0", "Tokyo;20.0", "Oslo;-5.0"];
    let (total, merged) = run(&lines, 2, 2).unwrap();
    assert_eq!(total, "Processed 3 lines total");
    assert_eq!(merged, "{Oslo=-5.0/-5.0/-5.0, Tokyo=10.0/15.0/20.0}");
}

#[test]
fn value_that_is_no_number_fails_the_run() {
    assert!(run(&["Tokyo;10.0", "Paris;abc", "Oslo;-5.0"], 2, 2).is_err());
    assert!(run(&["Paris;abc"], 1000, 1).is_err());
    assert!(run(&["Tokyo;10.0", "Oslo;-5.0", "Tokyo;20.0", "Paris;abc"], 1, 3).is_err());
    assert!(run(&["Tokyo;"], 2, 2).is_err());
}

#[test]
fn line_without_separator_only_counts_as_a_line() {
    let with = run(&["Tokyo;10.0", "malformed", "Tokyo;20.0", "Oslo;-5.0"], 2, 2).unwrap();
    let without = run(&["Tokyo;10.0", "Tokyo;20.0", "Oslo;-5.0"], 2, 2).unwrap();
    assert_eq!(with.0, "Processed 4 lines total");
    assert_eq!(without.0, "Processed 3 lines total");
    assert_eq!(with.1, without.1);
    assert_eq!(with.1, "{Oslo=-5.0/-5.0/-5.0, Tokyo=10.0/15.0/20.0}");
}

#[test]
fn empty_input_gives_the_empty_report() {
    let (total, merged) = run(&[], 1000, 20).unwrap();
    assert_eq!(total, "Processed 0 lines total");
    assert_eq!(merged, "{}");
}

#[test]
fn run_without_workers_reports_nothing() {
    let (total, merged) = run(&["Tokyo;10.0"], 2, 0).unwrap();
    assert_eq!(total, "Processed 1 lines total");
    assert_eq!(merged, "{}");
}

const STATIONS: [&str; 12] = [
    "Tokyo;10.0",
    "Oslo;-5.0",
    "Tokyo;20.0",
    "Accra; 31.5",
    "no separator here",
    "Oslo;2.5",
    "Zürich;8.0 ",
    "Accra;28.5",
    "Tokyo;-3.0",
    "a;b;c",
    "Oslo;-12.5",
    "Zürich;8.0",
];

const MERGED: &str =
    "{Accra=28.5/30.0/31.5, Oslo=-12.5/-5.0/2.5, Tokyo=-3.0/9.0/20.0, Zürich=8.0/8.0/8.0}";

#[test]
fn same_run_twice_gives_the_same_output() {
    let first = run(&STATIONS, 3, 4).unwrap();
    let second = run(&STATIONS, 3, 4).unwrap();
    assert_eq!(first, second);
    assert_eq!(first.0, "Processed 12 lines total");
    assert_eq!(first.1, MERGED);
}

#[test]
fn number_of_workers_does_not_change_the_result() {
    for workers in 1..=8 {
        let (total, merged) = run(&STATIONS, 3, workers).unwrap();
        assert_eq!(total, "Processed 12 lines total");
        assert_eq!(merged, MERGED);
    }
}

#[test]
fn size_of_the_batches_does_not_change_the_result() {
    for chunk_size in 0..=14 {
        let (total, merged) = run(&STATIONS, chunk_size, 2).unwrap();
        assert_eq!(total, "Processed 12 lines total");
        assert_eq!(merged, MERGED);
    }
}

#[test]
fn owner_of_a_batch_does_not_change_the_result() {
    let owners: [[usize; 4]; 6] =
        [[0, 0, 0, 0], [0, 1, 2, 0], [2, 1, 0, 1], [1, 1, 0, 0], [2, 2, 2, 2], [0, 2, 0, 2]];
    for owner in owners.iter() {
        assert_eq!(run_split(&STATIONS, 3, owner, 3), MERGED);
    }
}

#[test]
fn key_of_one_worker_is_reported_with_that_workers_values() {
    // The first batch holds the three lines of Accra and goes to one worker,
    // the second holds the line of Oslo and goes to the other.
    let merged = run_split(&["Accra;1.5", "Accra;2.5", "Accra;5.0", "Oslo;4.0"], 3, &[0, 1], 2);
    assert_eq!(merged, "{Accra=1.5/3.0/5.0, Oslo=4.0/4.0/4.0}");
}
