use todoer::todoer::{LogError, Todoer};

#[test]
fn serialize_writes_header_and_checkboxes() {
    let mut proj = Todoer::default_todoer(String::from("2024-02-29"));
    proj.set_value(String::from("buy milk"));
    proj.set_value(String::from("call mom"));
    proj.mark_done(0).unwrap();
    assert_eq!(
        proj.serialize(),
        "2024-02-29\n1/2\n- [x] buy milk\n- [ ] call mom\n"
    );
}

#[test]
fn parse_reads_header_and_items() {
    let proj = Todoer::try_from(String::from(
        "2024-02-29\n1/3\n- [x] buy milk\n- [ ] call mom\n- [ ] write report\n",
    ))
    .unwrap();
    assert_eq!(proj.config, "2024-02-29");
    assert_eq!(proj.done_count, 1);
    assert_eq!(proj.size, 3);
    assert_eq!(
        proj.get_value_all(),
        vec![
            (&String::from("buy milk"), true),
            (&String::from("call mom"), false),
            (&String::from("write report"), false)
        ]
    );
}

#[test]
fn round_trip_is_stable() {
    let text = String::from("2023-12-31\n2/4\n- [ ] a b\n- [x] c\n- [x] [d]\n- [ ] \n");
    let first = Todoer::try_from(text.clone()).unwrap();
    let again = first.serialize();
    assert_eq!(again, text);
    let second = Todoer::try_from(again.clone()).unwrap();
    assert_eq!(second.serialize(), again);
}

#[test]
fn non_numeric_second_line_is_malformed() {
    let r = Todoer::try_from(String::from("2024-01-01\nabc\n- [ ] a\n"));
    assert_eq!(r.unwrap_err(), LogError::MalformedHeader);
    let r = Todoer::try_from(String::from("2024-01-01\nx/2\n"));
    assert_eq!(r.unwrap_err(), LogError::MalformedHeader);
    let r = Todoer::try_from(String::from("2024-01-01\n1/two\n"));
    assert_eq!(r.unwrap_err(), LogError::MalformedHeader);
    let r = Todoer::try_from(String::from("2024-01-01\n1/2/3\n"));
    assert_eq!(r.unwrap_err(), LogError::MalformedHeader);
    let r = Todoer::try_from(String::from("2024-01-01\n-1/2\n"));
    assert_eq!(r.unwrap_err(), LogError::MalformedHeader);
    let r = Todoer::try_from(String::from("2024-01-01\n1/4294967296\n"));
    assert_eq!(r.unwrap_err(), LogError::MalformedHeader);
}

#[test]
fn missing_header_lines_are_malformed() {
    assert_eq!(
        Todoer::try_from(String::new()).unwrap_err(),
        LogError::MalformedHeader
    );
    assert_eq!(
        Todoer::try_from(String::from("2024-01-01\n")).unwrap_err(),
        LogError::MalformedHeader
    );
}

#[test]
fn header_accepts_plus_sign_and_largest_count() {
    let proj = Todoer::try_from(String::from("k\n+0/4294967295")).unwrap();
    assert_eq!(proj.done_count, 0);
    assert_eq!(proj.size, 4294967295);
}

#[test]
fn body_lines_are_read_permissively() {
    let proj =
        Todoer::try_from(String::from("k\r\n0/3\r\nplain\r\nx - [ ] y\nz [x] w\n")).unwrap();
    assert_eq!(proj.config, "k");
    assert_eq!(
        proj.get_value_all(),
        vec![
            (&String::from("plain"), false),
            (&String::from("x y"), false),
            (&String::from("z [x] w"), true)
        ]
    );
}

#[test]
fn header_counts_are_kept_as_written() {
    let proj = Todoer::try_from(String::from("k\n5/2\n- [ ] a\n- [ ] b\n")).unwrap();
    assert_eq!(proj.done_count, 5);
    assert_eq!(proj.size, 2);
    assert_eq!(proj.serialize(), "k\n5/2\n- [ ] a\n- [ ] b\n");
}

#[test]
fn load_prefers_the_days_own_file() {
    let log = Todoer::from_config(
        String::from("2024-03-02"),
        false,
        Some(String::from("2024-03-02\n0/1\n- [ ] own\n")),
        Some(String::from("2024-03-01\n0/1\n- [ ] old\n")),
    )
    .unwrap();
    assert_eq!(log.get_value_names(), vec![&String::from("own")]);
}

#[test]
fn rollover_carries_open_items() {
    let yesterday = String::from(
        "2024-03-01\n1/3\n- [x] buy milk\n- [ ] call mom\n- [ ] write report\n",
    );
    let log = Todoer::from_config(String::from("2024-03-02"), false, None, Some(yesterday)).unwrap();
    assert_eq!(log.size, 2);
    assert_eq!(log.done_count, 0);
    assert_eq!(log.config, "2024-03-02");
    assert_eq!(
        log.get_value_all(),
        vec![
            (&String::from("call mom"), false),
            (&String::from("write report"), false)
        ]
    );
}

#[test]
fn past_days_do_not_roll_over() {
    let yesterday = String::from("2024-03-01\n0/1\n- [ ] call mom\n");
    let log = Todoer::from_config(String::from("2024-03-02"), true, None, Some(yesterday)).unwrap();
    assert_eq!(log.size, 0);
    assert_eq!(log.done_count, 0);
    let none = Todoer::from_config(String::from("2024-03-02"), false, None, None).unwrap();
    assert_eq!(none.size, 0);
    assert_eq!(none.config, "2024-03-02");
}

#[test]
fn rollover_from_a_malformed_day_fails() {
    let r = Todoer::from_config(
        String::from("2024-03-02"),
        false,
        None,
        Some(String::from("2024-03-01\nnope\n")),
    );
    assert_eq!(r.unwrap_err(), LogError::MalformedHeader);
    let r = Todoer::from_config(
        String::from("2024-03-02"),
        false,
        Some(String::from("2024-03-02\n")),
        None,
    );
    assert_eq!(r.unwrap_err(), LogError::MalformedHeader);
}

#[test]
fn loaded_log_is_kept_under_the_requested_key() {
    let log = Todoer::from_config(
        String::from("2024-01-02"),
        true,
        Some(String::from("2024-01-01\n1/1\n- [x] a\n")),
        None,
    )
    .unwrap();
    assert_eq!(log.config, "2024-01-02");
    assert_eq!(log.done_count, 1);
    assert_eq!(log.get_value_all(), vec![(&String::from("a"), true)]);
    assert!(log.serialize().starts_with("2024-01-02\n1/1\n"));
}

#[test]
fn mismatched_done_counter_still_allows_appending() {
    let mut log = Todoer::try_from(String::from("k\n0/1\n- [x] a\n")).unwrap();
    assert!(log.is_indexed());
    assert!(!log.is_consistent());
    log.set_value(String::from("b"));
    assert_eq!(log.size, 2);
    assert_eq!(log.done_count, 0);
    assert_eq!(log.serialize(), "k\n0/2\n- [x] a\n- [ ] b\n");
}
