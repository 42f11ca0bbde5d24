use textsearch::config::{check_mode, get_mode, Mode, PathError, PathProbe, SearchError};
use textsearch::traverse::{DirEntry, Step, Traverser};

fn file(path: &str) -> DirEntry {
    DirEntry { path: String::from(path), is_dir: false }
}

fn dir(path: &str) -> DirEntry {
    DirEntry { path: String::from(path), is_dir: true }
}

fn expect_search(step: Step, index: usize, path: &str) {
    match step {
        Step::Search(task) => {
            assert_eq!(task.sequence_index, index);
            assert_eq!(task.file_path, path);
        }
        _ => panic!("expected a file to search"),
    }
}

fn expect_read_dir(step: Step, path: &str) {
    match step {
        Step::ReadDir(asked) => assert_eq!(asked, path),
        _ => panic!("expected a directory to list"),
    }
}

#[test]
fn recursive_run_on_a_file_is_refused() {
    let made = Traverser::new(String::from("a.txt"), Mode::File, true);
    assert!(matches!(made, Err(SearchError::Config)));
    assert_eq!(check_mode(true, Mode::File), Err(SearchError::Config));
}

#[test]
fn other_runs_are_accepted() {
    assert_eq!(check_mode(false, Mode::File), Ok(()));
    assert_eq!(check_mode(true, Mode::Directory), Ok(()));
    assert_eq!(check_mode(false, Mode::Directory), Ok(()));
}

#[test]
fn single_file_is_one_task_with_rank_zero() {
    let mut traverser = Traverser::new(String::from("a.txt"), Mode::File, false).unwrap();
    expect_search(traverser.next_step(), 0, "a.txt");
    assert!(matches!(traverser.next_step(), Step::Finished));
    assert!(matches!(traverser.next_step(), Step::Finished));
    assert_eq!(traverser.next_index(), 1);
}

#[test]
fn directory_is_listed_first() {
    let mut traverser = Traverser::new(String::from("root"), Mode::Directory, false).unwrap();
    expect_read_dir(traverser.next_step(), "root");
    expect_read_dir(traverser.next_step(), "root");
    traverser.entries_read(Vec::new());
    assert!(matches!(traverser.next_step(), Step::Finished));
    assert_eq!(traverser.next_index(), 0);
}

#[test]
fn files_are_ranked_in_listing_order() {
    let mut traverser = Traverser::new(String::from("root"), Mode::Directory, false).unwrap();
    expect_read_dir(traverser.next_step(), "root");
    traverser.entries_read(vec![file("root/b.txt"), file("root/a.txt")]);
    expect_search(traverser.next_step(), 0, "root/b.txt");
    expect_search(traverser.next_step(), 1, "root/a.txt");
    assert!(matches!(traverser.next_step(), Step::Finished));
    assert_eq!(traverser.next_index(), 2);
}

#[test]
fn nested_directory_is_skipped_without_recursion() {
    let mut traverser = Traverser::new(String::from("root"), Mode::Directory, false).unwrap();
    expect_read_dir(traverser.next_step(), "root");
    traverser.entries_read(vec![file("root/b.txt"), dir("root/sub"), file("root/a.txt")]);
    expect_search(traverser.next_step(), 0, "root/b.txt");
    match traverser.next_step() {
        Step::Skip(path) => assert_eq!(path, "root/sub"),
        _ => panic!("expected the directory to be skipped"),
    }
    expect_search(traverser.next_step(), 1, "root/a.txt");
    assert!(matches!(traverser.next_step(), Step::Finished));
    assert_eq!(traverser.failed_count(), 0);
}

#[test]
fn nested_directory_comes_before_later_siblings() {
    let mut traverser = Traverser::new(String::from("root"), Mode::Directory, true).unwrap();
    expect_read_dir(traverser.next_step(), "root");
    traverser.entries_read(vec![file("root/f1"), dir("root/d1"), file("root/f2")]);
    expect_search(traverser.next_step(), 0, "root/f1");
    expect_read_dir(traverser.next_step(), "root/d1");
    traverser.entries_read(vec![file("root/d1/g1"), dir("root/d1/e"), file("root/d1/g2")]);
    expect_search(traverser.next_step(), 1, "root/d1/g1");
    expect_read_dir(traverser.next_step(), "root/d1/e");
    traverser.entries_read(vec![file("root/d1/e/h")]);
    expect_search(traverser.next_step(), 2, "root/d1/e/h");
    expect_search(traverser.next_step(), 3, "root/d1/g2");
    expect_search(traverser.next_step(), 4, "root/f2");
    assert!(matches!(traverser.next_step(), Step::Finished));
    assert_eq!(traverser.next_index(), 5);
}

#[test]
fn unreadable_root_ends_the_run() {
    let mut traverser = Traverser::new(String::from("root"), Mode::Directory, true).unwrap();
    expect_read_dir(traverser.next_step(), "root");
    assert_eq!(traverser.read_failed(), Err(SearchError::Path(PathError::Unreadable)));
    assert_eq!(traverser.failed_count(), 0);
}

#[test]
fn unreadable_subdirectory_is_passed_over() {
    let mut traverser = Traverser::new(String::from("root"), Mode::Directory, true).unwrap();
    expect_read_dir(traverser.next_step(), "root");
    traverser.entries_read(vec![dir("root/locked"), file("root/a.txt")]);
    expect_read_dir(traverser.next_step(), "root/locked");
    assert_eq!(traverser.read_failed(), Ok(()));
    assert_eq!(traverser.failed_count(), 1);
    expect_search(traverser.next_step(), 0, "root/a.txt");
    assert!(matches!(traverser.next_step(), Step::Finished));
}

#[test]
fn failure_without_a_directory_asked_for_changes_nothing() {
    let mut traverser = Traverser::new(String::from("a.txt"), Mode::File, false).unwrap();
    assert_eq!(traverser.read_failed(), Ok(()));
    assert_eq!(traverser.failed_count(), 0);
    expect_search(traverser.next_step(), 0, "a.txt");
}

#[test]
fn path_is_classified() {
    assert_eq!(get_mode(PathProbe::Found { is_file: true, is_dir: false }), Ok(Mode::File));
    assert_eq!(get_mode(PathProbe::Found { is_file: false, is_dir: true }), Ok(Mode::Directory));
    assert_eq!(
        get_mode(PathProbe::Found { is_file: false, is_dir: false }),
        Err(PathError::AmbiguousType)
    );
    assert_eq!(
        get_mode(PathProbe::Found { is_file: true, is_dir: true }),
        Err(PathError::AmbiguousType)
    );
    assert_eq!(get_mode(PathProbe::Missing), Err(PathError::NotFound));
    assert_eq!(get_mode(PathProbe::Unreadable), Err(PathError::Unreadable));
}

#[test]
fn every_error_has_its_words() {
    assert_eq!(SearchError::Config.message(), "Recursive flag is set but path points to a file");
    assert_eq!(SearchError::Path(PathError::NotFound).message(), "Passed path does not exist");
    assert_eq!(
        SearchError::Path(PathError::Unreadable).message(),
        "Could not read metadata for passed path"
    );
    assert_eq!(
        SearchError::Path(PathError::AmbiguousType).message(),
        "Passed path is neither file nor directory"
    );
    assert_eq!(SearchError::Channel.message(), "Could not deliver a search result");
}
