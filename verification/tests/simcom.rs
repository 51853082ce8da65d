use modemui::simcom::{lock_earfcn_cli, lock_pci_cli, unlock_cli, LockStore};
use modemui::store::FileChange;

/// What a file holds after a change.
fn after(c: FileChange) -> Option<String> {
    match c {
        FileChange::Write { path: _, text } => Some(text),
        FileChange::Remove { .. } => None,
    }
}

#[test]
fn builds_lock_commands_for_a7908() {
    assert_eq!(lock_earfcn_cli(2850), "mobile lte lock earfcn 2850");
    assert_eq!(
        lock_pci_cli(2850, 392),
        "mobile lte lock earfcn 2850 pci 392"
    );
    assert_eq!(unlock_cli(), "no mobile lte lock");
}

#[test]
fn lock_store_roundtrip() {
    let s = LockStore::new("/tmp/notes");
    let mut file: Option<String> = None;
    assert!(s.load(file.as_deref()).is_none());

    file = after(s.save(Some(2850), Some(392)));
    assert_eq!(s.load(file.as_deref()), Some((Some(2850), Some(392))));

    file = after(s.save(Some(2850), None));
    assert_eq!(s.load(file.as_deref()), Some((Some(2850), None)));

    file = after(s.clear());
    assert!(s.load(file.as_deref()).is_none());
}

#[test]
fn notes_are_kept_in_the_directory() {
    assert_eq!(LockStore::new("/opt/var").path(), "/opt/var/simcom_lock.txt");
    assert_eq!(LockStore::new("/opt/var/").path(), "/opt/var/simcom_lock.txt");
    assert_eq!(LockStore::new("").path(), "simcom_lock.txt");
    let s = LockStore::new("d");
    assert_eq!(
        s.save(Some(1), Some(2)),
        FileChange::Write {
            path: "d/simcom_lock.txt".to_string(),
            text: "1 2\n".to_string()
        }
    );
    assert_eq!(
        s.save(None, None),
        FileChange::Remove { path: "d/simcom_lock.txt".to_string() }
    );
}

#[test]
fn odd_notes() {
    let s = LockStore::new("d");
    // A cell without its carrier stays a cell.
    let file = after(s.save(None, Some(392)));
    assert_eq!(file.as_deref(), Some("- 392\n"));
    assert_eq!(s.load(file.as_deref()), Some((None, Some(392))));
    assert_eq!(s.load(Some("x 7")), Some((None, Some(7))));
    assert_eq!(s.load(Some("x y")), None);
    assert_eq!(s.load(Some("4294967296 65536")), None);
}
