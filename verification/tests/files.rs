use duplicant::files::FileList;

#[test]
fn each_file_is_listed_once_in_the_order_found() {
    let mut list: FileList<&str> = FileList::new();
    assert!(list.offer("b", false, 2));
    assert!(list.offer("a", false, 1));
    assert!(!list.offer("link-to-b", false, 2));
    assert!(list.offer("c", false, 3));
    assert!(!list.offer("a", false, 1));
    assert_eq!(list.into_files(), vec!["b", "a", "c"]);
}

#[test]
fn directories_are_skipped_and_not_remembered() {
    let mut list: FileList<&str> = FileList::new();
    assert!(!list.offer("dir", true, 7));
    assert!(list.offer("file", false, 7));
    assert_eq!(list.into_files(), vec!["file"]);
}

#[test]
fn nothing_found_is_an_empty_list() {
    let list: FileList<&str> = FileList::new();
    assert!(list.into_files().is_empty());
}
