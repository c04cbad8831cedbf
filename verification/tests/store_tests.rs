use wikimisc::entity_file_cache::EntityFileCache;
use wikimisc::file_hash::FileHash;

fn s(t: &str) -> String {
    t.to_string()
}

#[test]
fn test_file_hash() {
    let mut efc: FileHash<String, String> = FileHash::new();
    efc.insert(s("Q123"), s("Foo")).unwrap();
    efc.insert(s("Q456"), s("Bar")).unwrap();
    efc.insert(s("Q789"), s("Baz")).unwrap();
    efc.insert(s("Q456"), s("Boom")).unwrap();
    assert_eq!(efc.get(&s("Q123")).unwrap(), "Foo");
    assert_eq!(efc.get(&s("Q456")).unwrap(), "Boom");
    assert_eq!(efc.get(&s("Q789")).unwrap(), "Baz");
    assert_eq!(efc.get(&s("Nope")), None);
}

#[test]
fn test_file_hash_swap() {
    let mut efc: FileHash<String, String> = FileHash::new();
    efc.insert(s("Q123"), s("Foo")).unwrap();
    efc.insert(s("Q456"), s("Bar")).unwrap();
    efc.insert(s("Q789"), s("Baz")).unwrap();
    efc.swap(&s("Q123"), &s("Q789"));
    assert_eq!(efc.get(&s("Q123")).unwrap(), "Baz");
    assert_eq!(efc.get(&s("Q456")).unwrap(), "Bar");
    assert_eq!(efc.get(&s("Q789")).unwrap(), "Foo");
}

#[test]
fn test_file_hash_swap_disk() {
    let mut efc: FileHash<String, String> = FileHash::new();
    efc.set_max_mem_entries(0).unwrap();
    efc.insert(s("Q123"), s("Foo")).unwrap();
    efc.insert(s("Q456"), s("Bar")).unwrap();
    efc.insert(s("Q789"), s("Baz")).unwrap();
    assert!(efc.is_on_disk());
    efc.swap(&s("Q123"), &s("Q789"));
    assert_eq!(efc.get(&s("Q123")).unwrap(), "Baz");
    assert_eq!(efc.get(&s("Q456")).unwrap(), "Bar");
    assert_eq!(efc.get(&s("Q789")).unwrap(), "Foo");
}

#[test]
fn test_file_hash_remove() {
    let mut efc: FileHash<String, String> = FileHash::new();
    efc.insert(s("Q123"), s("Foo")).unwrap();
    efc.insert(s("Q456"), s("Bar")).unwrap();
    efc.insert(s("Q789"), s("Baz")).unwrap();
    assert_eq!(efc.remove(&s("Q456")).unwrap(), "Bar");
    assert_eq!(efc.get(&s("Q123")).unwrap(), "Foo");
    assert_eq!(efc.get(&s("Q456")), None);
    assert_eq!(efc.get(&s("Q789")).unwrap(), "Baz");
}

#[test]
fn test_file_hash_remove_disk() {
    let mut efc: FileHash<String, String> = FileHash::new();
    efc.set_max_mem_entries(0).unwrap();
    efc.insert(s("Q123"), s("Foo")).unwrap();
    efc.insert(s("Q456"), s("Bar")).unwrap();
    efc.insert(s("Q789"), s("Baz")).unwrap();
    assert_eq!(efc.remove(&s("Q456")).unwrap(), "Bar");
    assert_eq!(efc.get(&s("Q123")).unwrap(), "Foo");
    assert_eq!(efc.get(&s("Q456")), None);
    assert_eq!(efc.get(&s("Q789")).unwrap(), "Baz");
}

#[test]
fn test_file_hash_retain() {
    let mut efc: FileHash<String, String> = FileHash::new();
    efc.insert(s("Q123"), s("Foo")).unwrap();
    efc.insert(s("Q456"), s("Bar")).unwrap();
    efc.insert(s("Q789"), s("Baz")).unwrap();
    efc.retain(|_k: &String, v: &String| v.as_str() == "Bar");
    assert_eq!(efc.get(&s("Q123")), None);
    assert_eq!(efc.get(&s("Q456")).unwrap(), "Bar");
    assert_eq!(efc.get(&s("Q789")), None);
}

#[test]
fn test_flush_mem_to_disk() {
    let mut efc: FileHash<String, String> = FileHash::new();
    efc.set_max_mem_entries(2).unwrap();
    efc.insert(s("Q123"), s("Foo")).unwrap();
    efc.insert(s("Q456"), s("Bar")).unwrap();
    assert_eq!(efc.get(&s("Q123")).unwrap(), "Foo");
    assert_eq!(efc.get(&s("Q456")).unwrap(), "Bar");
    assert!(!efc.is_on_disk());
    efc.insert(s("Q789"), s("Baz")).unwrap();
    assert!(efc.is_on_disk());
    assert_eq!(efc.get(&s("Q123")).unwrap(), "Foo");
    assert_eq!(efc.get(&s("Q456")).unwrap(), "Bar");
    assert_eq!(efc.get(&s("Q789")).unwrap(), "Baz");
}

#[test]
fn test_file_hash_clear() {
    let mut efc: FileHash<String, String> = FileHash::new();
    efc.insert(s("Q123"), s("Foo")).unwrap();
    efc.insert(s("Q456"), s("Bar")).unwrap();
    efc.insert(s("Q789"), s("Baz")).unwrap();
    efc.clear().unwrap();
    assert!(efc.is_empty());
}

#[test]
fn test_file_hash_keys() {
    let mut efc: FileHash<String, String> = FileHash::new();
    efc.insert(s("Q123"), s("Foo")).unwrap();
    efc.insert(s("Q456"), s("Bar")).unwrap();
    efc.insert(s("Q789"), s("Baz")).unwrap();
    let mut keys = efc.keys();
    keys.sort();
    assert_eq!(keys, vec!["Q123", "Q456", "Q789"]);
}

#[test]
fn test_file_hash_contains() {
    let mut efc: FileHash<String, String> = FileHash::new();
    efc.insert(s("Q123"), s("Foo")).unwrap();
    efc.insert(s("Q456"), s("Bar")).unwrap();
    efc.insert(s("Q789"), s("Baz")).unwrap();
    assert!(efc.contains(&s("Q123")));
    assert!(efc.contains(&s("Q456")));
    assert!(efc.contains(&s("Q789")));
    assert!(!efc.contains(&s("Q000")));
}

#[test]
fn test_file_hash_len() {
    let mut efc: FileHash<String, String> = FileHash::new();
    assert_eq!(efc.len(), 0);
    efc.insert(s("Q123"), s("Foo")).unwrap();
    assert_eq!(efc.len(), 1);
    efc.insert(s("Q456"), s("Bar")).unwrap();
    assert_eq!(efc.len(), 2);
    efc.insert(s("Q789"), s("Baz")).unwrap();
    assert_eq!(efc.len(), 3);
}

#[test]
fn test_file_hash_is_empty() {
    let mut efc: FileHash<String, String> = FileHash::new();
    assert!(efc.is_empty());
    efc.insert(s("Q123"), s("Foo")).unwrap();
    assert!(!efc.is_empty());
    efc.clear().unwrap();
    assert!(efc.is_empty());
}

#[test]
fn test_file_hash_alter_disk() {
    let mut efc: FileHash<String, String> = FileHash::new();
    efc.set_max_mem_entries(0).unwrap();
    efc.insert(s("Q123"), s("Foo")).unwrap();
    efc.insert(s("Q456"), s("Bar")).unwrap();
    efc.insert(s("Q789"), s("Baz")).unwrap();

    assert_eq!(efc.get(&s("Q123")).unwrap(), "Foo");
    assert_eq!(efc.get(&s("Q456")).unwrap(), "Bar");
    assert_eq!(efc.get(&s("Q789")).unwrap(), "Baz");

    efc.insert(s("Q456"), s("Bob")).unwrap();
    assert_eq!(efc.get(&s("Q123")).unwrap(), "Foo");
    assert_eq!(efc.get(&s("Q456")).unwrap(), "Bob");
    assert_eq!(efc.get(&s("Q789")).unwrap(), "Baz");

    efc.insert(s("Q456"), s("Sm")).unwrap();
    assert_eq!(efc.get(&s("Q123")).unwrap(), "Foo");
    assert_eq!(efc.get(&s("Q456")).unwrap(), "Sm");
    assert_eq!(efc.get(&s("Q789")).unwrap(), "Baz");

    efc.insert(s("Q456"), s("Boom")).unwrap();
    assert_eq!(efc.get(&s("Q123")).unwrap(), "Foo");
    assert_eq!(efc.get(&s("Q456")).unwrap(), "Boom");
    assert_eq!(efc.get(&s("Q789")).unwrap(), "Baz");
}

#[test]
fn test_overwrite_keeps_len() {
    let mut efc: FileHash<String, String> = FileHash::new();
    efc.insert(s("k"), s("v1")).unwrap();
    let before = efc.len();
    efc.insert(s("k"), s("v2")).unwrap();
    assert_eq!(efc.len(), before);
    assert_eq!(efc.get(&s("k")).unwrap(), "v2");
}

#[test]
fn test_threshold_transition_keeps_entries() {
    let mut efc: FileHash<String, String> = FileHash::new();
    efc.set_max_mem_entries(3).unwrap();
    efc.insert(s("a"), s("1")).unwrap();
    efc.insert(s("b"), s("2")).unwrap();
    efc.insert(s("c"), s("3")).unwrap();
    assert!(!efc.is_on_disk());
    efc.insert(s("d"), s("4")).unwrap();
    assert!(efc.is_on_disk());
    assert_eq!(efc.len(), 4);
    assert_eq!(efc.get(&s("a")).unwrap(), "1");
    assert_eq!(efc.get(&s("b")).unwrap(), "2");
    assert_eq!(efc.get(&s("c")).unwrap(), "3");
    assert_eq!(efc.get(&s("d")).unwrap(), "4");
}

#[test]
fn test_clear_on_empty_is_noop() {
    let mut efc: FileHash<String, String> = FileHash::new();
    efc.clear().unwrap();
    assert!(efc.is_empty());
    efc.clear().unwrap();
    assert!(efc.is_empty());
    efc.insert(s("x"), s("y")).unwrap();
    assert_eq!(efc.get(&s("x")).unwrap(), "y");
    assert_eq!(efc.len(), 1);
}

#[test]
fn test_clear_keeps_disk_mode() {
    let mut efc: FileHash<String, String> = FileHash::new();
    efc.set_max_mem_entries(0).unwrap();
    efc.insert(s("a"), s("1")).unwrap();
    assert!(efc.is_on_disk());
    efc.clear().unwrap();
    assert!(efc.is_on_disk());
    assert!(efc.is_empty());
    efc.insert(s("a"), s("2")).unwrap();
    assert_eq!(efc.get(&s("a")).unwrap(), "2");
}

#[test]
fn test_swap_single_present_key() {
    let mut efc: FileHash<String, String> = FileHash::new();
    efc.insert(s("a"), s("1")).unwrap();
    efc.swap(&s("a"), &s("b"));
    assert_eq!(efc.get(&s("a")), None);
    assert_eq!(efc.get(&s("b")).unwrap(), "1");
}

#[test]
fn test_swap_same_key_is_noop() {
    let mut efc: FileHash<String, String> = FileHash::new();
    efc.insert(s("a"), s("1")).unwrap();
    efc.swap(&s("a"), &s("a"));
    assert_eq!(efc.get(&s("a")).unwrap(), "1");
    assert_eq!(efc.len(), 1);
}

#[test]
fn test_entity_file_cache_round_trip() {
    let mut cache: EntityFileCache = EntityFileCache::new();
    cache.set_max_mem_entries(1).unwrap();
    cache.insert(s("Q1"), s("{\"id\":\"Q1\"}")).unwrap();
    cache.insert(s("Q2"), s("a \"quoted\" value with \\ and \n newline")).unwrap();
    assert!(cache.is_on_disk());
    assert_eq!(cache.get(&s("Q1")).unwrap(), "{\"id\":\"Q1\"}");
    assert_eq!(
        cache.get(&s("Q2")).unwrap(),
        "a \"quoted\" value with \\ and \n newline"
    );
}
