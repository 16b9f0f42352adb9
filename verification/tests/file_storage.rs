use fountainhead::storage::file_storage::{epoch_dir, FileStorage};

#[test]
fn epoch_dir_pads_epoch_to_six_digits() {
    assert_eq!(epoch_dir("droplets", 0), "droplets/epoch000000");
    assert_eq!(epoch_dir("droplets", 42), "droplets/epoch000042");
    assert_eq!(epoch_dir("/d", 123456), "/d/epoch123456");
    assert_eq!(epoch_dir("/d", 1234567), "/d/epoch1234567");
}

#[test]
fn filepath_pads_key_to_six_digits() {
    let storage = FileStorage::new(epoch_dir("drops", 3), 0);
    assert_eq!(storage.dir(), "drops/epoch000003");
    assert_eq!(storage.filepath(0), "drops/epoch000003/drp000000.dat");
    assert_eq!(storage.filepath(907), "drops/epoch000003/drp000907.dat");
    assert_eq!(
        storage.filepath(usize::MAX),
        format!("drops/epoch000003/drp{}.dat", usize::MAX)
    );
}

#[test]
fn record_insert_counts_and_tracks_largest() {
    let mut storage = FileStorage::new("x".to_string(), 5);
    assert_eq!(storage.count(), 5);
    assert_eq!(storage.max_size(), 0);
    storage.record_insert(100);
    storage.record_insert(40);
    storage.record_insert(250);
    assert_eq!(storage.count(), 8);
    assert_eq!(storage.max_size(), 250);
    assert_eq!(storage.truncate(), "x");
}
