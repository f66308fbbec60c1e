use rayon::prelude::{IntoParallelRefIterator, ParallelIterator};

use station_agg::chunk::split_into_chunks;
use station_agg::pipeline::run;
use station_agg::render::render_table;
use station_agg::table::Table;

fn synthetic_input(lines: usize) -> Vec<u8> {
    let names = [
        "alpha", "beta", "gamma", "delta", "epsilon", "zeta", "eta", "theta", "iota", "kappa",
    ];
    let mut data = String::new();
    for i in 0..lines {
        let t = ((i * 37) % 19999) as i32 - 9999;
        let a = t.abs();
        let sign = if t < 0 { "-" } else { "" };
        data.push_str(&format!("{};{}{}.{}\n", names[i % names.len()], sign, a / 10, a % 10));
    }
    data.into_bytes()
}

fn parallel_aggregate(data: &[u8], target: usize) -> String {
    let chunks = split_into_chunks(data, target);
    let tables: Vec<Table> = chunks
        .par_iter()
        .map(|c| Table::from_chunk(c.as_slice()))
        .collect();
    let mut shared = Table::new();
    for t in tables {
        shared.merge_from(t);
    }
    String::from_utf8(render_table(shared)).unwrap()
}

#[test]
fn pool_size_and_chunk_size_never_change_output() {
    let data = synthetic_input(5000);
    let reference = String::from_utf8(run(&data, 64)).unwrap();

    let small_pool = rayon::ThreadPoolBuilder::new()
        .num_threads(1)
        .build()
        .unwrap();
    let large_pool = rayon::ThreadPoolBuilder::new()
        .num_threads(8)
        .build()
        .unwrap();

    let out_small = small_pool.install(|| parallel_aggregate(&data, 128));
    let out_large = large_pool.install(|| parallel_aggregate(&data, 97));

    assert_eq!(out_small, reference);
    assert_eq!(out_large, reference);
}

#[test]
fn merge_order_never_changes_output() {
    let data = synthetic_input(1000);

    let forward = {
        let chunks = split_into_chunks(&data, 50);
        let mut shared = Table::new();
        for c in &chunks {
            shared.merge_from(Table::from_chunk(c.as_slice()));
        }
        String::from_utf8(render_table(shared)).unwrap()
    };

    let backward = {
        let chunks = split_into_chunks(&data, 50);
        let mut shared = Table::new();
        for c in chunks.iter().rev() {
            shared.merge_from(Table::from_chunk(c.as_slice()));
        }
        String::from_utf8(render_table(shared)).unwrap()
    };

    assert_eq!(forward, backward);
    assert_eq!(forward, String::from_utf8(run(&data, 200)).unwrap());
}

#[test]
fn repeated_runs_are_byte_identical() {
    let data = synthetic_input(2000);
    let first = run(&data, 77);
    let second = run(&data, 77);
    assert_eq!(first, second);
}
