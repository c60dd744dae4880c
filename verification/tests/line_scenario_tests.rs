use rich_lib::lines::LineError;
use rich_lib::lines::Lines;
use rich_lib::lines::MergeLines;
use rich_lib::lines::SplitLines;

#[test]
fn three_line_scenario_test() {
    let s = String::from("line0\nline1\nline2");
    assert_eq!(s.count(), 3);
    assert_eq!(s.get(1).unwrap(), "line1");
    assert_eq!(
        s.clone().set(1, String::from("X")).unwrap(),
        "line0\nX\nline2"
    );
    assert_eq!(
        s.clone().insert(1, String::from("Y")).unwrap(),
        "line0\nY\nline1\nline2"
    );
    assert_eq!(s.clone().remove(1).unwrap(), "line0\nline2");
    assert_eq!(
        s.clone().append(String::from("line3")),
        "line0\nline1\nline2\nline3"
    );
    assert_eq!(
        s.prepend(String::from("lineX")),
        "lineX\nline0\nline1\nline2"
    );
}

#[test]
fn empty_text_scenario_test() {
    let s = String::new();
    assert_eq!(s.count(), 0);
    assert_eq!(s.get(0), Err(LineError::IndexOutOfRange));
    assert_eq!(s.first(), Err(LineError::IndexOutOfRange));
    assert_eq!(s.last(), Err(LineError::IndexOutOfRange));
    assert_eq!(s.clone().remove(0), Err(LineError::IndexOutOfRange));
    assert_eq!(s.clone().remove_first(), Err(LineError::IndexOutOfRange));
    assert_eq!(s.clone().remove_last(), Err(LineError::IndexOutOfRange));
    assert_eq!(s.clone().append(String::from("a")), "a");
    assert_eq!(s.prepend(String::from("a")), "a");
}

#[test]
fn split_test() {
    let s = String::from("line0\nline1\nline2");
    let v = vec![
        String::from("line0"),
        String::from("line1"),
        String::from("line2"),
    ];
    assert_eq!(s.split(), v);

    let empty = String::new();
    assert_eq!(empty.split(), Vec::<String>::new());

    // A text with N delimiters has N + 1 lines: a trailing delimiter
    // yields a final empty line, and a text of one delimiter two of them.
    let trailing = String::from("a\n");
    assert_eq!(trailing.split(), vec![String::from("a"), String::new()]);
    let lone = String::from("\n");
    assert_eq!(lone.split(), vec![String::new(), String::new()]);
}

#[test]
fn merge_test() {
    let v = vec![
        String::from("line0"),
        String::from("line1"),
        String::from("line2"),
    ];
    assert_eq!(v.merge(), "line0\nline1\nline2");

    let none: Vec<String> = Vec::new();
    assert_eq!(none.merge(), "");

    let two_empty = vec![String::new(), String::new()];
    assert_eq!(two_empty.merge(), "\n");
}

#[test]
fn merge_split_round_trip_test() {
    for text in ["", "a", "a\nb", "a\n", "\n", "\n\n", "one\n\nthree\n"] {
        let s = String::from(text);
        assert_eq!(s.split().merge(), text);
    }
}

#[test]
fn remove_then_insert_round_trip_test() {
    let s = String::from("line0\nline1\nline2");
    let kept = s.get(1).unwrap();
    let restored = s.clone().remove(1).unwrap().insert(1, kept).unwrap();
    assert_eq!(restored, s);
}

#[test]
fn count_zero_iff_empty_test() {
    assert_eq!(String::new().count(), 0);
    assert!(String::from(" ").count() > 0);
    assert!(String::from("\n").count() > 0);
}

#[test]
fn append_then_get_last_test() {
    let s = String::from("line0\nline1").append(String::from("tail"));
    let n = s.count();
    assert_eq!(s.get(n - 1).unwrap(), "tail");
}

#[test]
fn prepend_then_get_first_test() {
    let s = String::from("line0\nline1").prepend(String::from("head"));
    assert_eq!(s.get(0).unwrap(), "head");
}

#[test]
fn remove_first_shifts_test() {
    let s = String::from("line0\nline1\nline2");
    let old_line1 = s.get(1).unwrap();
    let shorter = s.remove_first().unwrap();
    assert_eq!(shorter.get(0).unwrap(), old_line1);
    assert_eq!(shorter.count(), 2);
}

#[test]
fn out_of_range_error_test() {
    let s = String::from("line0\nline1");
    assert_eq!(s.get(2), Err(LineError::IndexOutOfRange));
    assert_eq!(s.clone().set(2, String::from("x")), Err(LineError::IndexOutOfRange));
    assert_eq!(s.clone().insert(3, String::from("x")), Err(LineError::IndexOutOfRange));
    assert!(s.clone().insert(2, String::from("x")).is_ok());
    assert_eq!(s.remove(2), Err(LineError::IndexOutOfRange));
}
