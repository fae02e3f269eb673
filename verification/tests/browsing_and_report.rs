use disk_analyzer::navigation::{EnterOutcome, Navigator};
use disk_analyzer::report::{name_cell, percent_cell, report_text};

fn s(x: &str) -> String {
    x.to_string()
}

#[test]
fn move_into_entry_and_back() {
    let mut nav = Navigator::new(s("/data"));
    assert!(nav.move_into(2, s("/data/photos"), 3));
    assert_eq!(nav.current, "/data/photos");
    assert_eq!(nav.history, vec![s("/data")]);
    assert_eq!(nav.back(), Some(s("/data")));
    assert_eq!(nav.current, "/data");
    assert!(nav.history.is_empty());
}

#[test]
fn move_into_is_refused_for_row_zero_or_empty_target() {
    let mut nav = Navigator::new(s("/data"));
    assert!(!nav.move_into(0, s("/data"), 5));
    assert!(!nav.move_into(1, s("/data/empty"), 1));
    assert_eq!(nav.current, "/data");
    assert!(nav.history.is_empty());
}

#[test]
fn back_with_no_history_does_nothing() {
    let mut nav = Navigator::new(s("/"));
    assert_eq!(nav.back(), None);
    assert_eq!(nav.current, "/");
    assert!(nav.history.is_empty());
}

#[test]
fn enter_outcomes() {
    let mut nav = Navigator::new(s("/a"));
    assert_eq!(nav.enter(s("/a"), 4), EnterOutcome::Unchanged);
    assert_eq!(nav.enter(s("/missing"), 0), EnterOutcome::Rejected);
    assert_eq!(nav.current, "/a");
    assert_eq!(nav.enter(s("/b"), 2), EnterOutcome::Navigated);
    assert_eq!(nav.current, "/b");
    assert_eq!(nav.history, vec![s("/a")]);
    assert_eq!(nav.back(), Some(s("/a")));
    assert!(nav.history.is_empty());
}

#[test]
fn load_folder_shows_choice_but_keeps_current() {
    let mut nav = Navigator::new(s("/a"));
    assert_eq!(nav.load_folder(s("/chosen")), "/chosen");
    assert_eq!(nav.current, "/a");
    assert_eq!(nav.history, vec![s("/a")]);
    assert_eq!(nav.back(), Some(s("/a")));
    assert!(nav.history.is_empty());
    assert_eq!(nav.load_folder(s("")), "/a");
    assert!(nav.history.is_empty());
}

#[test]
fn history_is_a_stack() {
    let mut nav = Navigator::new(s("/1"));
    assert!(nav.move_into(1, s("/2"), 2));
    assert_eq!(nav.enter(s("/3"), 1), EnterOutcome::Navigated);
    assert!(nav.move_into(3, s("/4"), 9));
    assert_eq!(nav.history.len(), 3);
    assert_eq!(nav.back(), Some(s("/3")));
    assert_eq!(nav.back(), Some(s("/2")));
    assert_eq!(nav.back(), Some(s("/1")));
    assert_eq!(nav.back(), None);
    assert_eq!(nav.current, "/1");
}

#[test]
fn report_text_has_title_blank_line_and_rows() {
    let text = report_text(
        &vec![s("debug"), s("build")],
        &vec![s("100"), s("42.5")],
        &vec![s("3 MB"), s("1 MB")],
    );
    assert_eq!(
        text,
        "FileName  ---------->  Size(%)  ---------->  Size\n\n\
         debug  ---------->  100 %  ---------->  3 MB\n\
         build  ---------->  42.5 %  ---------->  1 MB\n"
    );
    assert_eq!(report_text(&vec![], &vec![], &vec![]), "FileName  ---------->  Size(%)  ---------->  Size\n\n");
}

#[test]
fn table_cells() {
    assert_eq!(name_cell(0, "debug"), "debug");
    assert_eq!(name_cell(3, "deps"), "  deps");
    assert_eq!(percent_cell("12.5"), "12.5%");
}
