use vagabond::auth::{classify_credentials, AuthDecision};
use vagabond::db::Database;
use vagabond::engine::{Engine, MigrationStatus};
use vagabond::error::VagabondError;
use vagabond::registry::Registry;
use vagabond::script::run_script;
use vagabond::store::Store;

fn b(s: &str) -> Vec<u8> {
    s.as_bytes().to_vec()
}

fn engine_with(entries: &[(&str, &str, &str)]) -> Engine {
    let mut manifest = b("//banner");
    let mut store = Store::new();
    for (name, up, down) in entries {
        manifest.extend_from_slice(b"\n");
        manifest.extend_from_slice(name.as_bytes());
        store.create(&b(name)).unwrap();
        store.write_up(&b(name), &b(up)).unwrap();
        store.write_down(&b(name), &b(down)).unwrap();
    }
    Engine { registry: Registry::parse(&manifest).unwrap(), store, db: Database::new() }
}

#[test]
fn apply_on_empty_registry_fails_without_mutation() {
    let mut eng = engine_with(&[]);
    let err = eng.apply().unwrap_err();
    assert!(matches!(err, VagabondError::NoMigrationToApply));
    assert!(eng.db.pointer.is_none());
    assert_eq!(eng.db.log.len(), 0);
}

#[test]
fn apply_marks_prefix_applied() {
    let mut eng = engine_with(&[("a", "up a;", "down a;"), ("b", "up b;", "down b;")]);
    assert_eq!(eng.status(), vec![MigrationStatus::Pending, MigrationStatus::Pending]);
    assert_eq!(eng.apply().unwrap(), b("a"));
    assert_eq!(eng.status(), vec![MigrationStatus::Applied, MigrationStatus::Pending]);
    assert_eq!(eng.apply().unwrap(), b("b"));
    assert_eq!(eng.status(), vec![MigrationStatus::Applied, MigrationStatus::Applied]);
    let err = eng.apply().unwrap_err();
    assert!(matches!(err, VagabondError::NoMigrationToApply));
}

#[test]
fn apply_then_rollback_restores_pointer() {
    let mut eng = engine_with(&[("a", "u1;", "d1;"), ("b", "u2;", "d2;")]);
    eng.apply().unwrap();
    assert_eq!(eng.db.pointer, Some(b("a")));
    eng.apply().unwrap();
    assert_eq!(eng.db.pointer, Some(b("b")));
    eng.rollback().unwrap();
    assert_eq!(eng.db.pointer, Some(b("a")));
    eng.rollback().unwrap();
    assert_eq!(eng.db.pointer, None);
}

#[test]
fn rollback_without_pointer_fails() {
    let mut eng = engine_with(&[("a", "u;", "d;")]);
    let err = eng.rollback().unwrap_err();
    assert!(matches!(err, VagabondError::NothingToRollBack));
    assert_eq!(eng.db.log.len(), 0);
}

#[test]
fn redo_runs_both_scripts_and_keeps_pointer() {
    let mut eng = engine_with(&[("a", "up of a;", "down of a;")]);
    eng.apply().unwrap();
    assert_eq!(eng.db.log, vec![b("up of a")]);
    assert_eq!(eng.redo().unwrap(), b("a"));
    assert_eq!(eng.db.pointer, Some(b("a")));
    assert_eq!(eng.db.log, vec![b("up of a"), b("down of a"), b("up of a")]);
}

#[test]
fn redo_without_pointer_fails() {
    let mut eng = engine_with(&[("a", "u;", "d;")]);
    let err = eng.redo().unwrap_err();
    assert!(matches!(err, VagabondError::NothingToRedo));
    assert_eq!(eng.db.log.len(), 0);
}

#[test]
fn delete_without_pointer_removes_everything() {
    let mut eng = engine_with(&[("a", "u;", "d;"), ("b", "u;", "d;")]);
    eng.delete().unwrap();
    assert_eq!(eng.registry.names.len(), 0);
    assert_eq!(eng.registry.render(), b("//banner"));
    assert_eq!(eng.store.units.len(), 0);
}

#[test]
fn delete_keeps_applied_prefix() {
    let mut eng = engine_with(&[("a", "u;", "d;"), ("b", "u;", "d;"), ("c", "u;", "d;")]);
    eng.apply().unwrap();
    eng.delete().unwrap();
    assert_eq!(eng.registry.names, vec![b("a")]);
    assert_eq!(eng.store.units.len(), 1);
    assert_eq!(eng.store.units[0].name, b("a"));
    assert_eq!(eng.db.pointer, Some(b("a")));
}

#[test]
fn three_entry_scenario() {
    let mut eng = engine_with(&[
        ("A", "make A;", "unmake A;"),
        ("B", "make B;", "unmake B;"),
        ("C", "make C;", "unmake C;"),
    ]);
    assert_eq!(eng.apply().unwrap(), b("A"));
    assert_eq!(eng.db.pointer, Some(b("A")));
    assert_eq!(eng.apply().unwrap(), b("B"));
    assert_eq!(eng.db.pointer, Some(b("B")));
    eng.rollback().unwrap();
    assert_eq!(eng.db.pointer, Some(b("A")));
    eng.delete().unwrap();
    assert_eq!(eng.registry.names, vec![b("A")]);
    assert_eq!(eng.store.units.len(), 1);
    assert_eq!(eng.store.units[0].name, b("A"));
    assert_eq!(eng.status(), vec![MigrationStatus::Applied]);
}

#[test]
fn partial_script_failure_keeps_pointer_and_prefix() {
    let mut eng = engine_with(&[("a", "first;second;", "d;")]);
    eng.db.rejects = Some(b("second"));
    let err = eng.apply().unwrap_err();
    assert!(matches!(err, VagabondError::StatementFailed(s) if s == b("second")));
    assert_eq!(eng.db.log, vec![b("first")]);
    assert_eq!(eng.db.pointer, None);
    assert_eq!(eng.status(), vec![MigrationStatus::Pending]);
    let err = eng.apply().unwrap_err();
    assert!(matches!(err, VagabondError::StatementFailed(s) if s == b("second")));
    eng.db.rejects = None;
    assert_eq!(eng.apply().unwrap(), b("a"));
    assert_eq!(eng.db.pointer, Some(b("a")));
    assert_eq!(eng.db.log, vec![b("first"), b("first"), b("first"), b("second")]);
}

#[test]
fn run_script_stops_at_first_rejected_statement() {
    let mut db = Database::new();
    db.rejects = Some(b("bad"));
    let err = run_script(&mut db, &b("one;bad;three;")).unwrap_err();
    assert!(matches!(err, VagabondError::StatementFailed(s) if s == b("bad")));
    assert_eq!(db.log, vec![b("one")]);
    assert!(db.pointer.is_none());
}

#[test]
fn apply_missing_directory_fails() {
    let mut eng = engine_with(&[]);
    eng.registry = Registry::parse(&b("//banner\nghost")).unwrap();
    let err = eng.apply().unwrap_err();
    assert!(matches!(err, VagabondError::MissingDirectory(n) if n == b("ghost")));
    assert!(eng.db.pointer.is_none());
}

#[test]
fn store_create_rejects_existing_directory() {
    let mut store = Store::new();
    store.create(&b("a")).unwrap();
    let err = store.create(&b("a")).unwrap_err();
    assert!(matches!(err, VagabondError::DirectoryExists(n) if n == b("a")));
}

#[test]
fn store_remove_missing_directory_fails() {
    let mut store = Store::new();
    let err = store.remove(&b("a")).unwrap_err();
    assert!(matches!(err, VagabondError::MissingDirectory(n) if n == b("a")));
}

#[test]
fn store_scripts_read_back() {
    let mut store = Store::new();
    store.create(&b("a")).unwrap();
    assert_eq!(store.read_up(&b("a")).unwrap(), b(""));
    store.write_up(&b("a"), &b("up!")).unwrap();
    store.write_down(&b("a"), &b("down!")).unwrap();
    assert_eq!(store.read_up(&b("a")).unwrap(), b("up!"));
    assert_eq!(store.read_down(&b("a")).unwrap(), b("down!"));
    let err = store.read_up(&b("missing")).unwrap_err();
    assert!(matches!(err, VagabondError::MissingDirectory(n) if n == b("missing")));
}

#[test]
fn pointer_set_replaces_sole_row() {
    let mut db = Database::new();
    assert!(db.get_pointer().is_none());
    db.set_pointer(&b("a"));
    assert_eq!(db.get_pointer(), Some(&b("a")));
    db.set_pointer(&b("b"));
    assert_eq!(db.get_pointer(), Some(&b("b")));
    db.clear_pointer();
    assert!(db.get_pointer().is_none());
}

#[test]
fn credentials_both_or_neither() {
    let both = classify_credentials(Some("u".to_string()), Some("p".to_string()));
    assert!(matches!(both, AuthDecision::Authenticated { user, password }
        if user == "u" && password == "p"));
    let neither = classify_credentials(None, None);
    assert!(matches!(neither, AuthDecision::Unauthenticated));
    let one = classify_credentials(Some("u".to_string()), None);
    assert!(matches!(one, AuthDecision::OneSided));
    let other = classify_credentials(None, Some("p".to_string()));
    assert!(matches!(other, AuthDecision::OneSided));
}
