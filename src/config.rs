//! The command words a caller passes, read into an operation on a day's log.

use crate::date::Date;
use crate::text::{chars_of, parse_u32, parse_u32_spec};
use vstd::prelude::*;
use vstd::string::StringExecFns;

verus! {

/// The words and switches a caller passes.
#[derive(Debug)]
pub struct Opts {
    /// The operation word and its argument, if any.
    pub args: Vec<String>,
    /// A directory that overrides where the logs are kept.
    pub config: Option<String>,
    /// A day key that overrides today's.
    pub filename: Option<String>,
}

/// What a caller asked for.
#[derive(Debug, PartialEq, Eq)]
pub enum Operation {
    Print(),
    PrintAll(),
    Add(String),
    Complete(u32),
    Remove(u32),
}

/// The operation words that take one argument, and the bare form.
#[derive(Debug, PartialEq, Eq, Clone, Copy, Structural)]
pub enum Verb {
    Add,
    Done,
    Remove,
    Print,
}

/// Why the words did not make an operation.
#[derive(Debug, PartialEq, Eq, Clone, Copy, Structural)]
pub enum ArgsError {
    /// `add`, `done` or `remove` came with other than one argument, or
    /// more than one word came without an operation word; `got` is the
    /// number of arguments (of words, for `Print`).
    ArgumentCount { operation: Verb, got: usize },
    /// The argument of `done` or `remove` is not an ordinal.
    InvalidIndex,
}

/// A caller's request: the operation, and the two overrides passed through.
#[derive(Debug)]
pub struct Config {
    pub operation: Operation,
    pub config: Option<String>,
    pub filename: Option<String>,
}

pub open spec fn add_word() -> Seq<char> {
    seq!['a', 'd', 'd']
}

pub open spec fn done_word() -> Seq<char> {
    seq!['d', 'o', 'n', 'e']
}

pub open spec fn remove_word() -> Seq<char> {
    seq!['r', 'e', 'm', 'o', 'v', 'e']
}

/// The operation that the words `args` ask for.
pub open spec fn parse_args(args: Seq<String>) -> Result<Operation, ArgsError> {
    if args.len() == 0 {
        Ok(Operation::Print())
    } else if args[0]@ == add_word() {
        if args.len() != 2 {
            Err(ArgsError::ArgumentCount { operation: Verb::Add, got: (args.len() - 1) as usize })
        } else {
            Ok(Operation::Add(args[1]))
        }
    } else if args[0]@ == done_word() || args[0]@ == remove_word() {
        let verb = if args[0]@ == done_word() {
            Verb::Done
        } else {
            Verb::Remove
        };
        if args.len() != 2 {
            Err(ArgsError::ArgumentCount { operation: verb, got: (args.len() - 1) as usize })
        } else {
            match parse_u32_spec(args[1]@) {
                Some(i) => Ok(
                    if verb == Verb::Done {
                        Operation::Complete(i)
                    } else {
                        Operation::Remove(i)
                    },
                ),
                None => Err(ArgsError::InvalidIndex),
            }
        }
    } else if args.len() > 1 {
        Err(ArgsError::ArgumentCount { operation: Verb::Print, got: args.len() as usize })
    } else {
        Ok(Operation::PrintAll())
    }
}

impl Operation {
    /// Reads the operation words.
    pub fn try_from(value: Vec<String>) -> (r: Result<Operation, ArgsError>)
        ensures
            r == parse_args(value@),
    {
        let mut value = value;
        let n = value.len();
        if n == 0 {
            return Ok(Operation::Print());
        }
        let add = String::from_str("add");
        let done = String::from_str("done");
        let remove = String::from_str("remove");
        proof {
            reveal_strlit("add");
            reveal_strlit("done");
            reveal_strlit("remove");
        }
        assert(add@ =~= add_word());
        assert(done@ =~= done_word());
        assert(remove@ =~= remove_word());
        let is_add = value[0] == add;
        let is_done = value[0] == done;
        let is_remove = value[0] == remove;
        if is_add {
            if n != 2 {
                return Err(ArgsError::ArgumentCount { operation: Verb::Add, got: n - 1 });
            }
            let arg = value.pop().unwrap();
            return Ok(Operation::Add(arg));
        }
        if is_done || is_remove {
            let verb = if is_done {
                Verb::Done
            } else {
                Verb::Remove
            };
            if n != 2 {
                return Err(ArgsError::ArgumentCount { operation: verb, got: n - 1 });
            }
            let arg = value.pop().unwrap();
            let cs = chars_of(arg.as_str());
            return match parse_u32(&cs, 0, cs.len()) {
                Some(i) => {
                    assert(cs@.subrange(0, cs.len() as int) =~= cs@);
                    if is_done {
                        Ok(Operation::Complete(i))
                    } else {
                        Ok(Operation::Remove(i))
                    }
                },
                None => {
                    assert(cs@.subrange(0, cs.len() as int) =~= cs@);
                    Err(ArgsError::InvalidIndex)
                },
            };
        }
        if n > 1 {
            return Err(ArgsError::ArgumentCount { operation: Verb::Print, got: n });
        }
        Ok(Operation::PrintAll())
    }
}

impl Config {
    /// Reads the operation words and keeps the two overrides as given.
    pub fn try_from(value: Opts) -> (r: Result<Config, ArgsError>)
        ensures
            match parse_args(value.args@) {
                Ok(op) => r == Ok::<Config, ArgsError>(
                    Config { operation: op, config: value.config, filename: value.filename },
                ),
                Err(e) => r == Err::<Config, ArgsError>(e),
            },
    {
        let Opts { args, config, filename } = value;
        match Operation::try_from(args) {
            Ok(operation) => Ok(Config { operation, config, filename }),
            Err(e) => Err(e),
        }
    }
}

impl Config {
    /// The key of the day asked for: the override if one was given, else
    /// `today`'s.
    pub fn day_key(&self, today: &Date) -> (r: String)
        requires
            today.valid(),
        ensures
            match self.filename {
                Some(f) => r@ == f@,
                None => r@ == today.key(),
            },
    {
        match &self.filename {
            Some(f) => f.clone(),
            None => today.date_key(),
        }
    }
}

} // verus!
