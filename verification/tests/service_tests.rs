use dot::MANIFEST_FILE_NAME;
use dot::error::DotError;
use dot::fs::FileSystem;
use dot::fs::InMemoryFileSystem;
use dot::manifest::Manifest;
use dot::service::DotService;
use dot::symlink::InMemorySymLinkOperations;

fn new_service(home: &str) -> DotService<InMemoryFileSystem, InMemorySymLinkOperations> {
    DotService::new(
        InMemoryFileSystem::new(),
        InMemorySymLinkOperations::new(),
        Manifest::empty(),
        Some(home.to_string()),
    )
}

#[test]
fn init_creates_manifest_file_successfully() {
    let mut service = new_service("/home/user");
    service.init().expect("init");
    assert!(service.fs.path_exists(MANIFEST_FILE_NAME));
}

#[test]
fn init_errors_when_manifest_already_exists() {
    let mut service = new_service("/home/user");
    service.fs.write(MANIFEST_FILE_NAME, "existing").unwrap();
    let result = service.init();
    assert!(matches!(result, Err(DotError::AlreadyExists(_))));
}

#[test]
fn add_tracks_new_file_and_updates_manifest() {
    let mut service = new_service("/home/user");
    let original_path = "/tmp/example.txt";
    service.fs.write(original_path, "hello").unwrap();

    service.add(original_path).expect("add");

    // After add, file should exist in current directory (renamed)
    assert!(service.fs.path_exists("example.txt"));
    // A symlink should have been created at the original location
    assert!(service.symlink_ops.is_tracked(original_path));
    // Service should now report that everything is up-to-date
    assert!(service.is_up_to_date().unwrap());
}

#[test]
fn add_errors_when_file_is_already_tracked() {
    let mut service = new_service("/home/user");
    let tracked_file = "foo.txt";
    // Pretend the manifest already has the entry by calling add once.
    service.fs.write(tracked_file, "data").unwrap();
    service.add(tracked_file).unwrap();

    // Now try to add again – should error out.
    let result = service.add(tracked_file);
    assert!(matches!(result, Err(DotError::AlreadyTracked(_))));
}

#[test]
fn add_rejects_a_path_without_a_name() {
    let mut service = new_service("/home/user");
    let result = service.add("/");
    assert!(matches!(result, Err(DotError::NotFound(_))));
}

#[test]
fn add_of_duplicate_key_performs_no_filesystem_mutation() {
    let mut service = new_service("/home/user");
    service.fs.write("vimrc", "set nu").unwrap();
    service.add("vimrc").unwrap();
    let manifest_before = service.fs.read(MANIFEST_FILE_NAME).unwrap();
    service.fs.write("/somewhere/else/vimrc", "other").unwrap();

    let result = service.add("/somewhere/else/vimrc");

    assert!(matches!(result, Err(DotError::AlreadyTracked(_))));
    // Nothing moved, nothing linked, nothing rewritten.
    assert_eq!(service.fs.read("/somewhere/else/vimrc").unwrap(), "other");
    assert!(!service.symlink_ops.is_tracked("/somewhere/else/vimrc"));
    assert_eq!(service.fs.read(MANIFEST_FILE_NAME).unwrap(), manifest_before);
}

#[test]
fn remove_restores_original_file_and_updates_manifest() {
    let mut service = new_service("/home/user");
    let original_path = "/tmp/remove_me.txt";
    service.fs.write(original_path, "bye").unwrap();
    service.add(original_path).unwrap(); // Now tracked
    // Simulate underlying symlink file existing in the file system
    service.fs.write(original_path, "link_placeholder").unwrap();

    // Preconditions
    assert!(service.symlink_ops.is_tracked(original_path));

    // Remove the tracked file
    service.remove("remove_me.txt").expect("remove");

    // Original file restored at original path
    assert!(service.fs.path_exists(original_path));
    // The file should no longer be in current directory
    assert!(!service.fs.path_exists("remove_me.txt"));
}

#[test]
fn remove_of_untracked_file_errors() {
    let mut service = new_service("/home/user");
    let result = service.remove("nothing");
    assert!(matches!(result, Err(DotError::NotFound(_))));
}

#[test]
fn remove_requires_a_real_symlink_and_touches_nothing_otherwise() {
    let mut service = new_service("/home/user");
    let original_path = "/tmp/precious.txt";
    service.fs.write(original_path, "precious data").unwrap();
    service.add(original_path).unwrap();
    // A plain file, not a symlink, now occupies the original location.
    service.symlink_ops.clear_all();
    service.fs.write(original_path, "unrelated user file").unwrap();

    let result = service.remove("precious.txt");

    assert!(matches!(result, Err(DotError::SymlinkNotFound(p)) if p == "/tmp/precious.txt"));
    // Both the plain file and the local copy are untouched.
    assert_eq!(service.fs.read(original_path).unwrap(), "unrelated user file");
    assert_eq!(service.fs.read("precious.txt").unwrap(), "precious data");
    assert!(service.manifest.has_file("precious.txt"));
}

#[test]
fn sync_creates_missing_symlinks() {
    let mut service = new_service("/home/user");
    let original_path = "/tmp/sync_me.txt";
    service.fs.write(original_path, "content").unwrap();
    service.add(original_path).unwrap(); // symlink gets created and tracked

    // Manually remove the symlink to simulate missing link
    service.symlink_ops.clear_all();
    assert!(!service.symlink_ops.is_tracked(original_path));

    service.sync().expect("sync");
    // After sync the link should be recreated
    assert!(service.symlink_ops.is_tracked(original_path));
}

#[test]
fn sync_fails_fast_when_a_local_copy_vanished() {
    let mut service = new_service("/home/user");
    service.fs.write("/tmp/gone.txt", "x").unwrap();
    service.add("/tmp/gone.txt").unwrap();
    service.fs.remove("gone.txt").unwrap();
    let result = service.sync();
    assert!(matches!(result, Err(DotError::NotFound(_))));
}

#[test]
fn sync_twice_changes_nothing_further() {
    let mut service = new_service("/home/user");
    service.fs.write("/tmp/one.txt", "1").unwrap();
    service.add("/tmp/one.txt").unwrap();
    service.fs.write("/tmp/two.txt", "2").unwrap();
    service.add("/tmp/two.txt").unwrap();
    // Drop all links so the first pass has work to do.
    service.symlink_ops.clear_all();

    let first = service.sync().expect("first pass");
    let manifest_after_first = service.fs.read(MANIFEST_FILE_NAME).unwrap();
    let linked_one = service.symlink_ops.is_tracked("/tmp/one.txt");
    let linked_two = service.symlink_ops.is_tracked("/tmp/two.txt");

    let second = service.sync().expect("second pass");

    assert_eq!(first, second);
    assert!(second.is_empty());
    assert!(linked_one && linked_two);
    assert_eq!(service.symlink_ops.is_tracked("/tmp/one.txt"), linked_one);
    assert_eq!(service.symlink_ops.is_tracked("/tmp/two.txt"), linked_two);
    assert_eq!(service.fs.read(MANIFEST_FILE_NAME).unwrap(), manifest_after_first);
}

#[test]
fn is_up_to_date_detects_conflicting_files() {
    let mut service = new_service("/home/user");
    let original_path = "/tmp/conflict.txt";
    service.fs.write(original_path, "data").unwrap();
    service.add(original_path).unwrap();

    // Replace symlink with a regular file to simulate conflict
    service.symlink_ops.clear_all();
    service.fs.write(original_path, "regular file").unwrap();

    assert!(!service.is_up_to_date().unwrap());
}

#[test]
fn sync_reports_exactly_one_conflict_and_leaves_the_file_alone() {
    let mut service = new_service("/home/user");
    service.fs.write("/tmp/blocked.txt", "tracked").unwrap();
    service.add("/tmp/blocked.txt").unwrap();
    // A plain file now blocks the entry's original location.
    service.symlink_ops.clear_all();
    service.fs.write("/tmp/blocked.txt", "user file").unwrap();

    assert!(!service.is_up_to_date().unwrap());
    let conflicts = service.sync().expect("sync reports, not fails");
    assert_eq!(conflicts, vec![String::from("/tmp/blocked.txt")]);
    assert_eq!(service.fs.read("/tmp/blocked.txt").unwrap(), "user file");
}

#[test]
fn full_tracking_lifecycle_round_trips_a_dotfile() {
    let mut service = new_service("/home/u");
    service.init().expect("init");
    assert_eq!(service.fs.read(MANIFEST_FILE_NAME).unwrap(), "");

    // Track a dotfile that lives under the home directory.
    service.fs.write("/home/u/.bashrc", "alias ll=ls").unwrap();
    service.add("/home/u/.bashrc").expect("add");
    assert_eq!(service.fs.read(".bashrc").unwrap(), "alias ll=ls");
    assert!(service.symlink_ops.is_tracked("/home/u/.bashrc"));
    // The manifest records the portable form.
    assert_eq!(
        service.manifest.entries,
        vec![(String::from(".bashrc"), String::from("~/.bashrc"))]
    );
    assert_eq!(
        service.fs.read(MANIFEST_FILE_NAME).unwrap(),
        "\".bashrc\" = \"~/.bashrc\"\n"
    );

    // The created link occupies the original location.
    service.fs.write("/home/u/.bashrc", "link_placeholder").unwrap();

    // Reconciliation has nothing to do.
    let conflicts = service.sync().expect("sync");
    assert!(conflicts.is_empty());
    assert!(service.is_up_to_date().unwrap());
    assert_eq!(service.fs.read(".bashrc").unwrap(), "alias ll=ls");
    assert_eq!(
        service.fs.read(MANIFEST_FILE_NAME).unwrap(),
        "\".bashrc\" = \"~/.bashrc\"\n"
    );

    // Untracking restores the file and empties the manifest.
    service.remove(".bashrc").expect("remove");
    assert_eq!(service.fs.read("/home/u/.bashrc").unwrap(), "alias ll=ls");
    assert!(!service.fs.path_exists(".bashrc"));
    assert!(!service.manifest.has_file(".bashrc"));
    assert_eq!(service.fs.read(MANIFEST_FILE_NAME).unwrap(), "");
}

#[test]
fn manifest_written_by_add_loads_on_another_machine() {
    let mut service = new_service("/home/alice");
    service.fs.write("/home/alice/.gitconfig", "[user]").unwrap();
    service.add("/home/alice/.gitconfig").unwrap();
    let manifest_text = service.fs.read(MANIFEST_FILE_NAME).unwrap();

    // The same manifest text, read with a different home directory,
    // resolves to the new home.
    let elsewhere = Manifest::new(&manifest_text).unwrap();
    let home2 = String::from("/home/bob");
    let resolved = elsewhere.get_symlink_path(".gitconfig", Some(&home2)).unwrap().unwrap();
    assert_eq!(resolved, String::from("/home/bob/.gitconfig"));
}

#[test]
fn add_of_a_name_with_a_quote_fails_to_serialize() {
    let mut service = new_service("/home/user");
    service.fs.write("/tmp/we\"ird", "x").unwrap();
    let result = service.add("/tmp/we\"ird");
    assert!(matches!(result, Err(DotError::Serialize)));
}
