use msg_dispatch::data_storage::Storage;

#[test]
fn get_before_any_set_is_empty() {
    let storage: Storage<u64> = Storage::new();
    assert!(storage.get().is_none());
}

#[test]
fn get_is_idempotent_between_sets() {
    let mut storage: Storage<u64> = Storage::new();
    storage.set(7);
    let first = storage.get().copied();
    let second = storage.get().copied();
    assert_eq!(first, Some(7));
    assert_eq!(first, second);
}

#[test]
fn set_overwrites_the_slot() {
    let mut storage: Storage<u64> = Storage::new();
    storage.set(1);
    storage.set(2);
    assert_eq!(storage.get().copied(), Some(2));
}
