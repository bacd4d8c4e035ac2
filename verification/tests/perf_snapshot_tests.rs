use twec::perf_snapshot::{default_target_dir, split_bench_keys};

fn keys(v: &[&str]) -> Vec<String> {
    v.iter().map(|s| s.to_string()).collect()
}

#[test]
fn bench_keys_split_into_shared_and_one_sided() {
    let (shared, only_baseline, only_current) =
        split_bench_keys(&keys(&["a", "shared"]), &keys(&["c", "shared"]));
    assert_eq!(shared, keys(&["shared"]));
    assert_eq!(only_baseline, keys(&["a"]));
    assert_eq!(only_current, keys(&["c"]));
}

#[test]
fn bench_keys_keep_snapshot_order() {
    let (shared, only_baseline, only_current) =
        split_bench_keys(&keys(&["x", "b", "a"]), &keys(&["a", "z", "x"]));
    assert_eq!(shared, keys(&["x", "a"]));
    assert_eq!(only_baseline, keys(&["b"]));
    assert_eq!(only_current, keys(&["z"]));
}

#[test]
fn default_target_is_target() {
    assert_eq!(default_target_dir(), "target");
}
