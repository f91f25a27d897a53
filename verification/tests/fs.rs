use rust_os::device::BlockDevice;
use rust_os::ustar::Volume;
use rust_os::FsError;

fn fresh_volume(sectors: usize) -> Volume {
    Volume::mount(BlockDevice::new(sectors))
}

fn remount(v: &Volume) -> Volume {
    Volume::mount(BlockDevice::from_bytes(v.device.data.clone()))
}

#[test]
fn empty_volume_lists_nothing() {
    let mut v = fresh_volume(64);
    let id = v.get_id();
    assert_eq!(v.list_files(id), Some(vec![]));
    assert_eq!(v.list_subdirectories(id), Some(vec![]));
}

#[test]
fn create_directory_and_list() {
    let mut v = fresh_volume(64);
    let id = v.get_id();
    assert!(v.create_directory("docs", id).is_ok());
    assert_eq!(v.list_subdirectories(id), Some(vec!["docs/".to_string()]));
}

#[test]
fn create_directory_collision_refused() {
    let mut v = fresh_volume(64);
    let id = v.get_id();
    assert!(v.create_directory("docs", id).is_ok());
    assert_eq!(v.create_directory("docs", id), Err(FsError::NameCollision));
}

#[test]
fn unknown_session_is_not_found() {
    let mut v = fresh_volume(64);
    assert_eq!(v.create_directory("docs", 999), Err(FsError::NotFound));
    assert_eq!(v.list_files(999), None);
}

#[test]
fn write_and_read_file() {
    let mut v = fresh_volume(64);
    let id = v.get_id();
    assert!(v.write_file("/readme", b"hello".to_vec(), Some(id)).is_ok());
    assert_eq!(v.read_file("/readme", Some(id)), Some(b"hello".to_vec()));
}

#[test]
fn scenario_docs_readme_persists() {
    // make /docs/, write /docs/readme with a two-byte payload, persist,
    // remount: the listing and the payload survive
    let mut v = fresh_volume(64);
    let id = v.get_id();
    assert!(v.create_directory("/docs/", id).is_ok());
    assert!(v.write_file("/docs/readme", b"hi".to_vec(), Some(id)).is_ok());
    assert!(v.write().is_ok());
    let mut w = remount(&v);
    let wid = w.get_id();
    assert!(w.change_directory("/docs/", wid));
    assert_eq!(w.list_files(wid), Some(vec!["readme".to_string()]));
    assert_eq!(w.read_file("/docs/readme", Some(wid)), Some(b"hi".to_vec()));
}

#[test]
fn mount_idempotence() {
    // mounting, changing nothing, persisting and remounting yields the
    // same paths and payloads
    let mut v = fresh_volume(128);
    let id = v.get_id();
    assert!(v.create_directory("/docs/", id).is_ok());
    assert!(v.write_file("/docs/readme", b"hi".to_vec(), Some(id)).is_ok());
    assert!(v.write_file("/top", b"abc".to_vec(), Some(id)).is_ok());
    let mut w = remount(&v);
    assert!(w.write().is_ok());
    let mut u = remount(&w);
    let uid = u.get_id();
    assert_eq!(u.read_file("/docs/readme", Some(uid)), Some(b"hi".to_vec()));
    assert_eq!(u.read_file("/top", Some(uid)), Some(b"abc".to_vec()));
    assert_eq!(u.list_subdirectories(uid), Some(vec!["docs/".to_string()]));
    assert_eq!(u.print_root().len(), w.print_root().len());
}

#[test]
fn persist_is_idempotent_when_clean() {
    let mut v = fresh_volume(64);
    let id = v.get_id();
    assert!(v.write_file("/a", b"x".to_vec(), Some(id)).is_ok());
    let before = v.device.data.clone();
    assert!(v.write().is_ok());
    assert_eq!(v.device.data, before);
}

#[test]
fn remove_file_immediately_invisible() {
    // the listing reflects the deletion at once, without a remount
    let mut v = fresh_volume(64);
    let id = v.get_id();
    assert!(v.create_directory("/docs/", id).is_ok());
    assert!(v.write_file("/docs/readme", b"hi".to_vec(), Some(id)).is_ok());
    assert!(v.remove_file("/docs/readme", Some(id)).is_ok());
    assert!(v.change_directory("/docs/", id));
    assert_eq!(v.list_files(id), Some(vec![]));
    assert_eq!(v.read_file("/docs/readme", Some(id)), None);
}

#[test]
fn tombstone_invisible_after_remount() {
    let mut v = fresh_volume(64);
    let id = v.get_id();
    assert!(v.create_directory("/docs/", id).is_ok());
    assert!(v.write_file("/docs/readme", b"hi".to_vec(), Some(id)).is_ok());
    assert!(v.write().is_ok());
    assert!(v.remove_file("/docs/readme", Some(id)).is_ok());
    let mut w = remount(&v);
    let wid = w.get_id();
    assert_eq!(w.read_file("/docs/readme", Some(wid)), None);
    assert!(w.change_directory("/docs/", wid));
    let files = w.list_files(wid).unwrap();
    assert!(!files.contains(&"defrag".to_string()));
    assert!(files.is_empty());
    for line in w.print_root() {
        assert!(!line.contains("defrag"));
    }
}

#[test]
fn remove_missing_file_not_found() {
    let mut v = fresh_volume(64);
    let id = v.get_id();
    assert_eq!(v.remove_file("/ghost", Some(id)), Err(FsError::NotFound));
}

#[test]
fn reserved_name_refused() {
    let mut v = fresh_volume(64);
    let id = v.get_id();
    assert_eq!(
        v.write_file("/defrag", b"x".to_vec(), Some(id)),
        Err(FsError::InvalidName)
    );
    assert_eq!(v.write_file("/", b"x".to_vec(), Some(id)), Err(FsError::InvalidName));
}

#[test]
fn defragment_reclaims_and_preserves() {
    // three live items and one tombstoned: compaction keeps the live
    // payloads, and the frontier becomes the sum of their footprints
    let mut v = fresh_volume(128);
    let id = v.get_id();
    assert!(v.create_directory("/docs/", id).is_ok());
    assert!(v.write_file("/docs/a", b"first".to_vec(), Some(id)).is_ok());
    assert!(v.write_file("/docs/b", vec![7u8; 600], Some(id)).is_ok());
    assert!(v.remove_file("/docs/a", Some(id)).is_ok());
    assert!(v.defragment().is_ok());
    // live: the docs directory (1), and b (1 header + 2 payload sectors);
    // the tombstoned a keeps no claim
    assert_eq!(v.frontier, 1 + 3);
    let mut w = remount(&v);
    let wid = w.get_id();
    assert_eq!(w.read_file("/docs/b", Some(wid)), Some(vec![7u8; 600]));
    assert_eq!(w.read_file("/docs/a", Some(wid)), None);
    assert!(w.change_directory("/docs/", wid));
    assert_eq!(w.list_files(wid), Some(vec!["b".to_string()]));
    assert_eq!(w.frontier, 4);
}

#[test]
fn remove_directory_drops_subtree() {
    let mut v = fresh_volume(128);
    let id = v.get_id();
    assert!(v.create_directory("/docs/", id).is_ok());
    assert!(v.write_file("/docs/a", b"x".to_vec(), Some(id)).is_ok());
    assert!(v.remove_directory("/docs/", Some(id)).is_ok());
    assert_eq!(v.list_subdirectories(id), Some(vec![]));
    let mut w = remount(&v);
    let wid = w.get_id();
    assert_eq!(w.read_file("/docs/a", Some(wid)), None);
    assert_eq!(w.list_subdirectories(wid), Some(vec![]));
}

#[test]
fn dotdot_resolution() {
    // a lone .. from /docs/ stands at /, and .. from / stays at /
    let mut v = fresh_volume(64);
    let id = v.get_id();
    assert!(v.create_directory("/docs/", id).is_ok());
    assert!(v.change_directory("docs", id));
    assert_eq!(v.list_subdirectories(id), Some(vec![]));
    assert!(v.change_directory("..", id));
    assert_eq!(v.list_subdirectories(id), Some(vec!["docs/".to_string()]));
    assert!(v.change_directory("..", id));
    assert_eq!(v.list_subdirectories(id), Some(vec!["docs/".to_string()]));
}

#[test]
fn change_directory_failure_keeps_cursor() {
    let mut v = fresh_volume(64);
    let id = v.get_id();
    assert!(v.create_directory("/docs/", id).is_ok());
    assert!(v.change_directory("docs", id));
    assert!(!v.change_directory("ghost", id));
    // still inside /docs/: no subdirectories there
    assert_eq!(v.list_subdirectories(id), Some(vec![]));
}

#[test]
fn relative_paths_use_the_session() {
    let mut v = fresh_volume(64);
    let id = v.get_id();
    assert!(v.create_directory("/docs/", id).is_ok());
    assert!(v.change_directory("docs", id));
    assert!(v.write_file("note", b"n".to_vec(), Some(id)).is_ok());
    assert_eq!(v.read_file("/docs/note", Some(id)), Some(b"n".to_vec()));
}

#[test]
fn device_boundary_is_reported() {
    // a volume of two sectors cannot take a file and its end marks
    let mut v = fresh_volume(2);
    let id = v.get_id();
    let r = v.write_file("/a", b"x".to_vec(), Some(id));
    assert_eq!(r, Err(FsError::DeviceBoundary));
}

#[test]
fn zero_length_file() {
    let mut v = fresh_volume(64);
    let id = v.get_id();
    assert!(v.write_file("/empty", Vec::new(), Some(id)).is_ok());
    assert!(v.write().is_ok());
    let mut w = remount(&v);
    let wid = w.get_id();
    assert_eq!(w.read_file("/empty", Some(wid)), Some(Vec::new()));
}

#[test]
fn overwrite_replaces_payload() {
    let mut v = fresh_volume(128);
    let id = v.get_id();
    assert!(v.write_file("/a", b"old".to_vec(), Some(id)).is_ok());
    assert!(v.write_file("/a", b"newer".to_vec(), Some(id)).is_ok());
    assert_eq!(v.read_file("/a", Some(id)), Some(b"newer".to_vec()));
    let mut w = remount(&v);
    let wid = w.get_id();
    assert_eq!(w.read_file("/a", Some(wid)), Some(b"newer".to_vec()));
}
