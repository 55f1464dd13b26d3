use hostctl::store::Database;

fn entry_list(db: &Database, profile: &str) -> Vec<(String, String)> {
    db.get_entries(profile)
}

#[test]
fn upsert_twice_keeps_one_row_with_latest_address() {
    let mut db = Database::new();
    db.add_entry("work", "a.local", "10.0.0.1");
    db.add_entry("work", "a.local", "10.0.0.9");
    let entries = entry_list(&db, "work");
    assert_eq!(entries.len(), 1);
    assert_eq!(entries[0].0, "a.local");
    assert_eq!(entries[0].1, "10.0.0.9");
}

#[test]
fn update_absent_reports_not_found_and_creates_nothing() {
    let mut db = Database::new();
    let updated = db.update_entry("work", "a.local", "10.0.0.1");
    assert!(!updated);
    assert_eq!(entry_list(&db, "work").len(), 0);
}

#[test]
fn upsert_always_succeeds_where_update_does_not() {
    let mut db = Database::new();
    assert!(!db.update_entry("work", "a.local", "10.0.0.1"));
    assert_eq!(entry_list(&db, "work").len(), 0);
    db.add_entry("work", "a.local", "10.0.0.1");
    let entries = entry_list(&db, "work");
    assert_eq!(entries.len(), 1);
    assert_eq!(entries[0].1, "10.0.0.1");
    assert!(db.update_entry("work", "a.local", "10.0.0.2"));
    let entries = entry_list(&db, "work");
    assert_eq!(entries.len(), 1);
    assert_eq!(entries[0].1, "10.0.0.2");
}

#[test]
fn delete_profile_cascades_to_entries() {
    let mut db = Database::new();
    db.add_profile("work");
    db.add_entry("work", "a.local", "10.0.0.1");
    db.add_entry("work", "b.local", "10.0.0.2");
    db.add_entry("home", "c.local", "192.168.0.1");
    assert!(db.remove_profile("work"));
    assert_eq!(entry_list(&db, "work").len(), 0);
    // entries of other profiles stay
    assert_eq!(entry_list(&db, "home").len(), 1);
}

#[test]
fn delete_absent_profile_reports_not_found_without_crash() {
    let mut db = Database::new();
    assert!(!db.remove_profile("nowhere"));
    assert_eq!(db.list_profiles().len(), 0);
}

#[test]
fn list_profiles_is_lexicographic_regardless_of_insertion_order() {
    let mut db = Database::new();
    db.add_profile("work");
    db.add_profile("default");
    db.add_profile("home");
    db.add_profile("lab");
    assert_eq!(db.list_profiles(), vec!["default", "home", "lab", "work"]);

    let mut other = Database::new();
    other.add_profile("lab");
    other.add_profile("home");
    other.add_profile("work");
    other.add_profile("default");
    assert_eq!(other.list_profiles(), vec!["default", "home", "lab", "work"]);
}

#[test]
fn add_profile_is_idempotent() {
    let mut db = Database::new();
    db.add_profile("work");
    db.add_profile("work");
    assert_eq!(db.list_profiles(), vec!["work"]);
}

#[test]
fn active_profile_starts_at_default_and_follows_use() {
    let mut db = Database::new();
    assert_eq!(db.get_active_profile(), Some("default".to_string()));
    db.use_profile("work");
    assert_eq!(db.get_active_profile(), Some("work".to_string()));
    // selecting an unregistered name is permitted
    assert!(!db.list_profiles().contains(&"work".to_string()));
}

#[test]
fn remove_entry_reports_presence() {
    let mut db = Database::new();
    db.add_entry("work", "a.local", "10.0.0.1");
    assert!(db.remove_entry("work", "a.local"));
    assert!(!db.remove_entry("work", "a.local"));
    assert_eq!(entry_list(&db, "work").len(), 0);
}

#[test]
fn entries_of_profiles_are_independent() {
    let mut db = Database::new();
    db.add_entry("work", "a.local", "10.0.0.1");
    db.add_entry("home", "a.local", "192.168.0.1");
    let work = entry_list(&db, "work");
    let home = entry_list(&db, "home");
    assert_eq!(work, vec![("a.local".to_string(), "10.0.0.1".to_string())]);
    assert_eq!(home, vec![("a.local".to_string(), "192.168.0.1".to_string())]);
}

#[test]
fn get_entries_comes_sorted_by_host() {
    let mut db = Database::new();
    db.add_entry("work", "z.local", "10.0.0.3");
    db.add_entry("work", "a.local", "10.0.0.1");
    db.add_entry("work", "m.local", "10.0.0.2");
    let hosts: Vec<String> = entry_list(&db, "work").into_iter().map(|(h, _)| h).collect();
    assert_eq!(hosts, vec!["a.local", "m.local", "z.local"]);
}
