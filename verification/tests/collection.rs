use image_sorter::collection::{CollectionError, FileCollection, MoveError, MoveOutcome};
use image_sorter::predicate::is_managed;

fn strings(names: &[&str]) -> Vec<String> {
    names.iter().map(|s| s.to_string()).collect()
}

fn sample() -> FileCollection {
    FileCollection::new("/pics".to_string(), strings(&["a.png", "b.jpg", "c.webp"])).unwrap()
}

#[test]
fn new_succeeds_with_cursor_at_zero() {
    let c = sample();
    let (index, name, path) = c.current();
    assert_eq!(index, 0);
    assert_eq!(name, "a.png");
    assert_eq!(path, "/pics/a.png");
    assert_eq!(c.len(), 3);
    assert_eq!(c.total_seen(), 3);
}

#[test]
fn new_on_no_matching_files_fails_with_empty_directory() {
    let r = FileCollection::new("/pics".to_string(), strings(&["notes.txt", "noext"]));
    assert!(matches!(r, Err(CollectionError::EmptyDirectory)));
    let r = FileCollection::new("/pics".to_string(), strings(&[]));
    assert!(matches!(r, Err(CollectionError::EmptyDirectory)));
}

#[test]
fn collection_keeps_only_managed_files() {
    let c = FileCollection::new("/pics".to_string(), strings(&["a.png", "b.txt"])).unwrap();
    assert_eq!(c.len(), 1);
    let (_, name, _) = c.current();
    assert_eq!(name, "a.png");
}

#[test]
fn extension_allow_list_is_case_insensitive() {
    assert!(is_managed("a.png"));
    assert!(is_managed("a.PNG"));
    assert!(is_managed("b.JpG"));
    assert!(is_managed("c.jpeg"));
    assert!(is_managed("d.WEBP"));
    assert!(!is_managed("e.txt"));
    assert!(!is_managed("noextension"));
    assert!(!is_managed("trailingdot."));
    assert!(!is_managed("png"));
    assert!(!is_managed("a.png.bak"));
}

#[test]
fn next_then_prev_returns_to_original_cursor() {
    let mut c = sample();
    c.next();
    assert_eq!(c.current().0, 1);
    c.prev();
    assert_eq!(c.current().0, 0);
    // at the right boundary the forward step saturates, so the round trip
    // ends one position earlier instead
    c.seek(2);
    c.next();
    c.prev();
    assert_eq!(c.current().0, 1);
}

#[test]
fn next_saturates_at_end_and_prev_at_start() {
    let mut c = sample();
    c.prev();
    assert_eq!(c.current().0, 0);
    c.next();
    c.next();
    c.next();
    c.next();
    assert_eq!(c.current().0, 2);
}

#[test]
fn seek_clamps_to_valid_range() {
    let mut c = sample();
    c.seek(100);
    assert_eq!(c.current().0, 2);
    c.seek(1);
    assert_eq!(c.current().0, 1);
    c.seek(0);
    assert_eq!(c.current().0, 0);
}

#[test]
fn plan_move_computes_destination_path() {
    let c = FileCollection::new("/pics".to_string(), strings(&["my file.png"])).unwrap();
    let plan = c.plan_move("cats", "tag--");
    assert_eq!(plan.source, "/pics/my file.png");
    assert_eq!(plan.dest, "/pics/output/cats/tag__my_file.png");
}

#[test]
fn plan_move_strips_all_trailing_separators() {
    let c = FileCollection::new("/pics".to_string(), strings(&["a.png"])).unwrap();
    let plan = c.plan_move("c", "x--y----");
    assert_eq!(plan.dest, "/pics/output/c/x--y__a.png");
    let plan = c.plan_move("c", "x---");
    assert_eq!(plan.dest, "/pics/output/c/x-__a.png");
}

#[test]
fn committed_move_removes_exactly_the_moved_entry() {
    let mut c = sample();
    c.next();
    let before = c.len();
    let (_, moved, _) = c.current();
    assert!(c.commit_move(MoveOutcome::Completed).is_ok());
    assert_eq!(c.len(), before - 1);
    assert_eq!(c.total_seen(), 3);
    // the moved filename is gone; the cursor points at the next entry
    let (index, name, _) = c.current();
    assert_eq!(index, 1);
    assert_ne!(name, moved);
    assert_eq!(name, "c.webp");
}

#[test]
fn removing_the_last_entry_moves_cursor_back() {
    let mut c = sample();
    c.seek(2);
    assert!(c.commit_move(MoveOutcome::Completed).is_ok());
    let (index, name, _) = c.current();
    assert_eq!(index, 1);
    assert_eq!(name, "b.jpg");
}

#[test]
fn failed_copy_leaves_collection_untouched() {
    let mut c = sample();
    c.next();
    let r = c.commit_move(MoveOutcome::CopyFailed);
    assert!(matches!(r, Err(MoveError::CopyFailed)));
    assert_eq!(c.len(), 3);
    assert_eq!(c.current().0, 1);
}

#[test]
fn undeleted_source_still_removes_the_entry() {
    let mut c = sample();
    let r = c.commit_move(MoveOutcome::SourceRemained);
    assert!(matches!(r, Err(MoveError::SourceNotRemoved)));
    assert_eq!(c.len(), 2);
    assert_eq!(c.current().1, "b.jpg");
}

#[test]
fn collection_can_be_emptied() {
    let mut c = FileCollection::new("/pics".to_string(), strings(&["a.png"])).unwrap();
    assert!(c.commit_move(MoveOutcome::Completed).is_ok());
    assert_eq!(c.len(), 0);
    assert_eq!(c.total_seen(), 1);
}
