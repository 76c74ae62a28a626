use squealmate::list::{Entry, FileList};

#[test]
fn empty() {
    let mut list = FileList {
        cursor: 0,
        page_index: 0,
        height: 3,
        entries: vec![],
    };

    list.move_cursor_down();
    list.move_cursor_up();
    list.move_page_forward();
    list.move_page_back();
    assert_eq!(None, list.get_selection());
}

#[test]
fn list_positive() {
    let mut list = FileList {
        cursor: 0,
        page_index: 0,
        height: 3,
        entries: vec![0, 1, 2, 3, 4, 5, 6, 7, 8, 9, 10]
            .iter()
            .map(|f| Entry::Directory(f.to_string()))
            .collect(),
    };

    assert_eq!("0", list.get_selection().unwrap().get_name());
    list.move_cursor_down();
    assert_eq!("1", list.get_selection().unwrap().get_name());
    list.move_cursor_down();
    assert_eq!("2", list.get_selection().unwrap().get_name());

    list.move_page_back();
    assert_eq!("10", list.get_selection().unwrap().get_name());

    list.move_page_forward();
    list.move_cursor_down();
    list.move_page_back();

    assert_eq!("10", list.get_selection().unwrap().get_name());

    list.move_cursor_down();
    assert_eq!("9", list.get_selection().unwrap().get_name());

    list.move_page_forward();
    assert_eq!("0", list.get_selection().unwrap().get_name());
    assert_eq!(4, list.get_page_count());

    list.resize(5);
    assert_eq!(3, list.get_page_count());
    list.resize(11);
    assert_eq!(1, list.get_page_count());
}

#[test]
fn page_entries_and_wrap_around() {
    let mut list = FileList {
        cursor: 0,
        page_index: 0,
        height: 2,
        entries: vec![
            Entry::File("a.sql".to_string()),
            Entry::Directory("b".to_string()),
            Entry::File("c.sql".to_string()),
        ],
    };
    assert_eq!(2, list.get_page_entries().len());
    list.move_cursor_up();
    assert_eq!("b", list.get_selection().unwrap().get_name());
    list.move_page_forward();
    assert_eq!(1, list.get_page_entries().len());
    assert_eq!("c.sql", list.get_selection().unwrap().get_name());
    list.set_entries(vec![Entry::File("x.sql".to_string())]);
    assert_eq!(0, list.page_index);
    assert_eq!(Some(&Entry::File("x.sql".to_string())), list.get_selection());
}
