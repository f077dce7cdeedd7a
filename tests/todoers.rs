use todoer::todoer::Todoer;
use todoer::todoers::Todoers;

#[test]
fn merged_view_numbers_across_logs() {
    let a = Todoer::try_from(String::from("a\n1/2\n- [ ] x\n- [x] y\n")).unwrap();
    let b = Todoer::try_from(String::from("b\n0/1\n- [ ] z\n")).unwrap();
    let all = Todoers { todoers: vec![a, b] };
    assert_eq!(
        all.print_all_todos_together(),
        "\nTodo\n0). x\n1). z\n\nDone\n0). y\n"
    );
}

#[test]
fn all_todos_lists_each_log_under_its_key() {
    let a = Todoer::try_from(String::from("a\n1/2\n- [ ] x\n- [x] y\n")).unwrap();
    let b = Todoer::default_todoer(String::from("b"));
    let all = Todoers { todoers: vec![a, b] };
    assert_eq!(
        all.print_all_todos(),
        "\n\na\nTodo\n0). x\n\nDone\n1). y\n\nb\nTodo\n\nDone\n"
    );
}

#[test]
fn unreadable_or_malformed_files_become_empty_logs() {
    let files = vec![
        (String::from("one"), Some(String::from("first line\n0/1\n- [ ] kept\n"))),
        (String::from("two"), Some(String::from("garbage"))),
        (String::from("three"), None),
    ];
    let all = Todoers::from_files(files);
    assert_eq!(all.todoers.len(), 3);
    assert_eq!(all.todoers[0].get_value_names(), vec![&String::from("kept")]);
    assert_eq!(all.todoers[0].config, "one");
    assert_eq!(all.todoers[1].config, "two");
    assert_eq!(all.todoers[1].size, 0);
    assert_eq!(all.todoers[2].config, "three");
    assert_eq!(all.todoers[2].size, 0);
}

#[test]
fn default_data_is_empty() {
    assert!(todoer::todoers::default_data().is_empty());
    assert!(todoer::todoer::default_data().0.is_empty());
}
