use std::collections::HashMap;
use todoer::todoer::{LogError, Todo, Todoer, Todos};

fn get_data() -> HashMap<u32, Todo> {
    HashMap::from([
        (
            0,
            Todo {
                name: "foo".into(),
                done: true,
            },
        ),
        (
            1,
            Todo {
                name: "bar".into(),
                done: false,
            },
        ),
    ])
}

fn get_todoer() -> Todoer {
    Todoer {
        config: String::from(""),
        data: Todos(get_data()),
        size: 2,
        done_count: 1,
    }
}

#[test]
fn set_value() {
    let mut proj = get_todoer();
    proj.set_value(String::from("fam"));

    assert_eq!(
        proj.get_value_names(),
        vec![
            &String::from("foo"),
            &String::from("bar"),
            &String::from("fam")
        ]
    );
}

#[test]
fn remove_value() {
    let mut proj = get_todoer();
    proj.remove_value(0).unwrap();

    assert_eq!(proj.get_value_names(), vec![&String::from("bar")]);
}

#[test]
fn remove_value_end() {
    let mut proj = get_todoer();
    proj.set_value(String::from("fam"));
    proj.remove_value(2).unwrap();

    assert_eq!(
        proj.get_value_names(),
        vec![&String::from("foo"), &String::from("bar")]
    );
}

#[test]
fn remove_value_start() {
    let mut proj = get_todoer();
    proj.set_value(String::from("fam"));
    proj.remove_value(0).unwrap();

    assert_eq!(proj.done_count, 0);

    assert_eq!(
        proj.get_value_names(),
        vec![&String::from("bar"), &String::from("fam")]
    );
}

#[test]
fn get_value_all() {
    let mut proj = get_todoer();
    proj.set_value(String::from("fam"));
    assert_eq!(
        proj.get_value_all(),
        vec![
            (&String::from("foo"), true),
            (&String::from("bar"), false),
            (&String::from("fam"), false)
        ]
    );
}

#[test]
fn mark_done() {
    let mut proj = get_todoer();
    proj.mark_done(1).unwrap();

    assert_eq!(
        proj.get_value_all(),
        vec![(&String::from("foo"), true), (&String::from("bar"), true)]
    );
    assert_eq!(proj.done_count, 2);
}

#[test]
fn print_values() {
    let proj = get_todoer();
    println!("{}", proj.print_values());
    assert_eq!(
        proj.print_values(),
        String::from("\nTodo\n1). bar\n\nDone\n0). foo\n")
    );
}

#[test]
fn appends_count_and_land_at_the_end() {
    let mut proj = Todoer::default_todoer(String::from("2024-05-01"));
    let names = ["a", "b", "c", "d"];
    for (k, n) in names.iter().enumerate() {
        proj.set_value(n.to_string());
        assert_eq!(proj.size as usize, k + 1);
        let all = proj.get_value_all();
        assert_eq!(all[k], (&n.to_string(), false));
    }
    assert_eq!(proj.done_count, 0);
    assert!(proj.is_consistent());
}

#[test]
fn remove_in_the_middle_shifts_later_items_down() {
    let mut proj = get_todoer();
    proj.set_value(String::from("fam"));
    proj.set_value(String::from("baz"));
    proj.remove_value(1).unwrap();
    assert_eq!(
        proj.get_value_names(),
        vec![&String::from("foo"), &String::from("fam"), &String::from("baz")]
    );
    assert_eq!(proj.size, 3);
    assert_eq!(proj.done_count, 1);
    assert!(proj.is_consistent());
}

#[test]
fn removing_a_done_item_lowers_the_done_count() {
    let mut proj = get_todoer();
    proj.remove_value(0).unwrap();
    assert_eq!(proj.done_count, 0);
    assert_eq!(proj.size, 1);
}

#[test]
fn mark_done_twice_counts_twice() {
    let mut proj = get_todoer();
    proj.mark_done(0).unwrap();
    assert_eq!(proj.done_count, 2);
    proj.mark_done(0).unwrap();
    assert_eq!(proj.done_count, 3);
    assert_eq!(
        proj.get_value_all(),
        vec![(&String::from("foo"), true), (&String::from("bar"), false)]
    );
}

#[test]
fn out_of_range_ordinals_are_refused() {
    let mut proj = get_todoer();
    assert_eq!(proj.remove_value(2), Err(LogError::OutOfRange));
    assert_eq!(proj.mark_done(7), Err(LogError::OutOfRange));
    assert_eq!(proj.size, 2);
    assert_eq!(proj.done_count, 1);
    assert_eq!(
        proj.get_value_all(),
        vec![(&String::from("foo"), true), (&String::from("bar"), false)]
    );
}

#[test]
fn print_values_numbers_past_nine() {
    let mut proj = Todoer::default_todoer(String::from("k"));
    for i in 0..11 {
        proj.set_value(format!("t{}", i));
    }
    proj.mark_done(10).unwrap();
    let shown = proj.print_values();
    assert!(shown.ends_with("\nDone\n10). t10\n"));
    assert!(shown.starts_with("\nTodo\n0). t0\n1). t1\n"));
}

#[test]
fn empty_log_prints_both_headings() {
    let proj = Todoer::default_todoer(String::from("k"));
    assert_eq!(proj.print_values(), "\nTodo\n\nDone\n");
    assert_eq!(proj.size, 0);
    assert_eq!(proj.done_count, 0);
}

#[test]
fn inconsistent_header_is_detected() {
    let proj = Todoer::try_from(String::from("2024-01-01\n0/3\n- [ ] a\n")).unwrap();
    assert!(!proj.is_consistent());
    let low = Todoer::try_from(String::from("2024-01-01\n0/1\n- [x] a\n")).unwrap();
    assert!(!low.is_consistent());
    let ok = Todoer::try_from(String::from("2024-01-01\n1/1\n- [x] a\n")).unwrap();
    assert!(ok.is_consistent());
}

#[test]
fn open_ordinals_skip_done_items() {
    let mut proj = get_todoer();
    proj.set_value(String::from("fam"));
    proj.set_value(String::from("baz"));
    proj.mark_done(2).unwrap();
    assert_eq!(proj.get_open_ordinals(), vec![1, 3]);
}
