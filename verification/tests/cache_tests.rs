use guild_cli::cache::{to_hex, Cache, CacheEntry};
use guild_cli::TaskId;

fn task_id(project: &str, target: &str) -> TaskId {
    TaskId::new(project.parse().unwrap(), target.parse().unwrap())
}

fn entry(cache: &Cache, hash: &str, success: bool) -> Option<CacheEntry> {
    Some(cache.new_entry(hash.to_string(), success, "cargo build".to_string(), "2024-01-01T00:00:00Z".to_string()))
}

#[test]
fn test_compute_input_hash_deterministic() {
    let cache = Cache::new("/tmp/ws");
    let files = vec![("/tmp/ws/src/main.rs".to_string(), b"fn main() {}".to_vec())];
    let hash1 = cache.compute_input_hash("cargo build", &files, &vec![]);
    let hash2 = cache.compute_input_hash("cargo build", &files, &vec![]);
    assert_eq!(hash1, hash2);
}

#[test]
fn test_compute_input_hash_changes_with_file_content() {
    let cache = Cache::new("/tmp/ws");
    let before = vec![("/tmp/ws/src/main.rs".to_string(), b"fn main() {}".to_vec())];
    let after = vec![("/tmp/ws/src/main.rs".to_string(), b"fn main() { println!(\"hi\"); }".to_vec())];
    let hash1 = cache.compute_input_hash("cargo build", &before, &vec![]);
    let hash2 = cache.compute_input_hash("cargo build", &after, &vec![]);
    assert_ne!(hash1, hash2);
}

#[test]
fn test_compute_input_hash_changes_with_command() {
    let cache = Cache::new("/tmp/ws");
    let hash1 = cache.compute_input_hash("cargo build", &vec![], &vec![]);
    let hash2 = cache.compute_input_hash("cargo build --release", &vec![], &vec![]);
    assert_ne!(hash1, hash2);
}

#[test]
fn test_dependency_hashes_affect_input_hash() {
    let cache = Cache::new("/tmp/ws");
    let hash1 = cache.compute_input_hash("cargo build", &vec![], &vec!["dep_hash_1".to_string()]);
    let hash2 = cache.compute_input_hash("cargo build", &vec![], &vec!["dep_hash_2".to_string()]);
    assert_ne!(hash1, hash2);
}

#[test]
fn test_cache_write_and_check() {
    let mut cache = Cache::new("/tmp/ws");
    let hash = "abc123".to_string();
    assert!(cache.check_entry(None, &hash).is_none());
    let stored = entry(&cache, &hash, true);
    let found = cache.check_entry(stored, &hash).unwrap();
    assert!(found.success);
    assert_eq!(found.input_hash, hash);
}

#[test]
fn test_cache_miss_on_different_hash() {
    let mut cache = Cache::new("/tmp/ws");
    let stored = entry(&cache, "hash1", true);
    assert!(cache.check_entry(stored, "hash2").is_none());
}

#[test]
fn test_cache_miss_on_failed_entry() {
    let mut cache = Cache::new("/tmp/ws");
    let stored = entry(&cache, "abc123", false);
    assert!(cache.check_entry(stored, "abc123").is_none());
}

#[test]
fn lookups_are_counted() {
    let mut cache = Cache::new("/tmp/ws");
    cache.check_entry(None, "h");
    let stored = entry(&cache, "h", true);
    cache.check_entry(stored, "h");
    let stats = cache.run_stats();
    assert_eq!((stats.hits, stats.misses, stats.entry_count), (1, 1, 0));
}

#[test]
fn cache_locations() {
    let cache = Cache::new("/tmp/ws");
    assert_eq!(cache.cache_dir(), "/tmp/ws/.guild/cache");
    let path = cache.entry_path(&task_id("my-app", "build"));
    assert!(path.starts_with("/tmp/ws/.guild/cache/"));
    assert!(path.ends_with(".json"));
    assert_eq!(path.len(), "/tmp/ws/.guild/cache/".len() + 64 + ".json".len());
    assert_ne!(path, cache.entry_path(&task_id("my-app", "test")));
}

#[test]
fn hex_and_digest_values() {
    assert_eq!(to_hex(&vec![0x00, 0x0f, 0xa5, 0xff]), "000fa5ff");
    // sha256("") in hex
    let cache = Cache::new("/w");
    let h = cache.compute_input_hash("", &vec![], &vec![]);
    // the hashed text is a single zero byte
    assert_eq!(h, "6e340b9cffb37a989ca544e6bb780a2c78901d3fb33738768511a30617afa01d");
    assert_ne!(cache.compute_input_hash("a", &vec![], &vec![]), "a");
}

#[test]
fn dependency_hash_order_does_not_matter() {
    let cache = Cache::new("/w");
    let a = cache.compute_input_hash("c", &vec![], &vec!["y".to_string(), "x".to_string(), "y".to_string()]);
    let b = cache.compute_input_hash("c", &vec![], &vec!["y".to_string(), "y".to_string(), "x".to_string()]);
    assert_eq!(a, b);
    let c = cache.compute_input_hash("c", &vec![], &vec!["x".to_string(), "y".to_string()]);
    assert_ne!(a, c);
}

#[test]
fn input_hash_is_sixty_four_hex_digits_and_entry_keeps_its_time() {
    let cache = Cache::new("/tmp/ws");
    let h = cache.compute_input_hash("make", &vec![("/tmp/ws/a".to_string(), b"x".to_vec())], &vec![]);
    assert_eq!(h.len(), 64);
    assert!(h.chars().all(|c| c.is_ascii_hexdigit() && !c.is_ascii_uppercase()));
    let e = cache.new_entry(h.clone(), true, "make".to_string(), "2024-05-06T07:08:09Z".to_string());
    assert_eq!(e.timestamp, "2024-05-06T07:08:09Z");
    assert_eq!(e.input_hash, h);
}
