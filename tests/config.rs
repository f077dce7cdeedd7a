use todoer::config::{ArgsError, Config, Operation, Opts, Verb};
use todoer::date::Date;

#[test]
fn test_print_all() -> Result<(), ArgsError> {
    let opts: Config = Config::try_from(Opts {
        args: vec![],
        config: Some(String::from("")),
        filename: None,
    })?;

    assert_eq!(opts.config, Some(String::from("")));
    assert_eq!(opts.operation, Operation::Print());
    Ok(())
}

#[test]
fn test_add_todo() -> Result<(), ArgsError> {
    let opts: Config = Config::try_from(Opts {
        args: vec![String::from("add"), String::from("foo")],
        config: None,
        filename: None,
    })?;

    assert_eq!(opts.operation, Operation::Add(String::from("foo")));
    Ok(())
}

#[test]
fn test_complete_todo() -> Result<(), ArgsError> {
    let opts: Config = Config::try_from(Opts {
        args: vec![String::from("done"), String::from("1")],
        config: None,
        filename: None,
    })?;

    assert_eq!(opts.operation, Operation::Complete(1));
    Ok(())
}

#[test]
fn test_remove_todo() -> Result<(), ArgsError> {
    let opts: Config = Config::try_from(Opts {
        args: vec![String::from("remove"), String::from("1")],
        config: None,
        filename: Some(String::new()),
    })?;

    assert_eq!(opts.operation, Operation::Remove(1));
    Ok(())
}

fn words(ws: &[&str]) -> Vec<String> {
    ws.iter().map(|w| w.to_string()).collect()
}

#[test]
fn single_unknown_word_prints_all() {
    assert_eq!(Operation::try_from(words(&["all"])), Ok(Operation::PrintAll()));
}

#[test]
fn wrong_argument_counts_are_refused() {
    assert_eq!(
        Operation::try_from(words(&["add"])),
        Err(ArgsError::ArgumentCount { operation: Verb::Add, got: 0 })
    );
    assert_eq!(
        Operation::try_from(words(&["done", "1", "2"])),
        Err(ArgsError::ArgumentCount { operation: Verb::Done, got: 2 })
    );
    assert_eq!(
        Operation::try_from(words(&["remove"])),
        Err(ArgsError::ArgumentCount { operation: Verb::Remove, got: 0 })
    );
    assert_eq!(
        Operation::try_from(words(&["x", "y"])),
        Err(ArgsError::ArgumentCount { operation: Verb::Print, got: 2 })
    );
}

#[test]
fn non_numeric_index_is_refused() {
    assert_eq!(
        Operation::try_from(words(&["done", "one"])),
        Err(ArgsError::InvalidIndex)
    );
    assert_eq!(
        Operation::try_from(words(&["remove", "-1"])),
        Err(ArgsError::InvalidIndex)
    );
    assert_eq!(
        Operation::try_from(words(&["remove", "42"])),
        Ok(Operation::Remove(42))
    );
}

#[test]
fn day_key_uses_the_override_or_today() {
    let today = Date::new(2024, 3, 5).unwrap();
    let plain = Config::try_from(Opts { args: vec![], config: None, filename: None }).unwrap();
    assert_eq!(plain.day_key(&today), "2024-03-05");
    let named = Config::try_from(Opts {
        args: vec![],
        config: None,
        filename: Some(String::from("project")),
    })
    .unwrap();
    assert_eq!(named.day_key(&today), "project");
}
