use todoer::shared::SharedLog;
use todoer::todoer::{LogError, Todoer};

#[test]
fn appends_by_two_holders_are_both_kept() {
    let shared = SharedLog::new(Todoer::default_todoer(String::from("2024-01-01")));
    for name in ["first", "second"] {
        let g = shared.lock();
        let g = g.set_value(String::from(name));
        g.release();
    }
    let g = shared.lock();
    assert_eq!(g.log().size, 2);
    assert_eq!(
        g.log().get_value_names(),
        vec![&String::from("first"), &String::from("second")]
    );
    g.release();
}

#[test]
fn guard_operations_change_the_shared_log() {
    let shared = SharedLog::new(Todoer::default_todoer(String::from("k")));
    let g = shared.lock();
    let g = g.set_value(String::from("a"));
    let g = g.set_value(String::from("b"));
    let (g, r) = g.mark_done(0);
    assert_eq!(r, Ok(()));
    let (g, r) = g.remove_value(5);
    assert_eq!(r, Err(LogError::OutOfRange));
    g.release();
    let g = shared.lock();
    let (g, r) = g.remove_value(1);
    assert_eq!(r, Ok(()));
    assert_eq!(g.log().serialize(), "k\n1/1\n- [x] a\n");
    g.release();
}
