//! Several days' logs read together, shown one by one or merged.

use crate::format::{
    concat_all, numbered, parse_log, picked, rendered, rendered_merged, todo_heading,
};
use crate::text::push_char;
use crate::todoer::{fresh_with, loaded_under, push_listed, Entry, Todoer};
use std::collections::HashMap;
use vstd::prelude::*;
use vstd::string::StringExecFns;

verus! {

broadcast use vstd::std_specs::hash::group_hash_axioms;

/// The logs found in one directory, in the order they were found.
#[derive(Debug)]
pub struct Todoers {
    pub todoers: Vec<Todoer>,
}

/// An empty map from day key to log.
pub fn default_data() -> (r: HashMap<String, Todoer>)
    ensures
        r@ == Map::<String, Todoer>::empty(),
{
    HashMap::new()
}

/// Every log of `days` lists its items under its key, each after a blank line.
pub open spec fn listing(keys: Seq<Seq<char>>, days: Seq<Seq<Entry>>) -> Seq<char>
    decreases keys.len(),
{
    if keys.len() == 0 {
        Seq::empty()
    } else {
        listing(keys.drop_last(), days.drop_last()) + seq!['\n'] + keys.last() + rendered(
            days[keys.len() - 1],
        )
    }
}

/// What a file found with key `key` and readable text `text` is taken as:
/// the log that the text holds, or an empty log where the file could not be
/// read or its header is not well formed; either way kept under `key`.
pub open spec fn loaded_or_empty(t: Todoer, key: String, text: Option<String>) -> bool {
    match text {
        Some(s) => match parse_log(s@) {
            Some(_) => loaded_under(Ok(t), key, s@),
            None => fresh_with(t, key, Seq::empty()),
        },
        None => fresh_with(t, key, Seq::empty()),
    }
}

proof fn lemma_concat_prefix(days: Seq<Seq<Entry>>, k: int)
    requires
        0 <= k < days.len(),
    ensures
        concat_all(days.take(k)).len() + days[k].len() <= concat_all(days).len(),
    decreases days.len(),
{
    let front = days.drop_last();
    if k < days.len() - 1 {
        lemma_concat_prefix(front, k);
        assert(front.take(k) =~= days.take(k));
    } else {
        assert(front =~= days.take(k));
    }
}

proof fn lemma_picked_len(s: Seq<Entry>, done: bool)
    ensures
        picked(s, done).len() <= s.len(),
    decreases s.len(),
{
    if s.len() > 0 {
        lemma_picked_len(s.drop_last(), done);
    }
}

impl Todoers {
    /// The items of each log, in order.
    pub open spec fn days(&self) -> Seq<Seq<Entry>> {
        Seq::new(self.todoers@.len(), |i: int| self.todoers@[i].entries())
    }

    /// The key of each log, in order.
    pub open spec fn keys(&self) -> Seq<Seq<char>> {
        Seq::new(self.todoers@.len(), |i: int| self.todoers@[i].config@)
    }

    /// Every log has dense keys.
    pub open spec fn all_dense(&self) -> bool {
        forall|i: int| 0 <= i < self.todoers@.len() ==> (#[trigger] self.todoers@[i]).dense()
    }

    /// The logs of the files found, in order: each is what its text holds, or
    /// an empty log under the file's key where there is no text or it cannot
    /// be read as a log.
    pub fn from_files(files: Vec<(String, Option<String>)>) -> (r: Todoers)
        requires
            forall|i: int|
                0 <= i < files.len() ==> (#[trigger] files[i]).1 is Some ==> files[i].1->Some_0@.len()
                    <= u32::MAX,
        ensures
            r.todoers.len() == files.len(),
            r.all_dense(),
            forall|i: int|
                0 <= i < files.len() ==> loaded_or_empty(
                    #[trigger] r.todoers[i],
                    files[i].0,
                    files[i].1,
                ),
    {
        let ghost given = files@;
        let mut files = files;
        let mut todoers: Vec<Todoer> = Vec::new();
        let mut rest: Vec<(String, Option<String>)> = Vec::new();
        while files.len() > 0
            invariant
                forall|i: int|
                    0 <= i < files.len() ==> (#[trigger] files[i]).1 is Some ==> files[i].1->Some_0@.len()
                        <= u32::MAX,
                rest@ == Seq::<(String, Option<String>)>::empty(),
                files@ == given.take(files.len() as int),
                todoers.len() + files.len() == given.len(),
                forall|i: int|
                    0 <= i < todoers.len() ==> (#[trigger] todoers[i]).dense() && loaded_or_empty(
                        todoers[i],
                        given[given.len() - 1 - i].0,
                        given[given.len() - 1 - i].1,
                    ),
            decreases files.len(),
        {
            let (key, text) = files.pop().unwrap();
            let log = match text {
                Some(s) => {
                    match Todoer::try_from(s) {
                        Ok(mut t) => {
                            t.config = key;
                            t
                        },
                        Err(_) => Todoer::default_todoer(key),
                    }
                },
                None => Todoer::default_todoer(key),
            };
            todoers.push(log);
            assert(files@ =~= given.take(files.len() as int));
        }
        let mut ordered: Vec<Todoer> = Vec::new();
        let ghost rev = todoers@;
        while todoers.len() > 0
            invariant
                rev.len() == given.len(),
                todoers@ == rev.take(todoers.len() as int),
                ordered.len() + todoers.len() == given.len(),
                forall|i: int| 0 <= i < ordered.len() ==> #[trigger] ordered[i] == rev[rev.len() - 1 - i],
            decreases todoers.len(),
        {
            let t = todoers.pop().unwrap();
            ordered.push(t);
            assert(todoers@ =~= rev.take(todoers.len() as int));
        }
        let r = Todoers { todoers: ordered };
        assert forall|i: int| 0 <= i < r.todoers@.len() implies (#[trigger] r.todoers@[i]).dense() by {
            assert(r.todoers@[i] == rev[rev.len() - 1 - i]);
        }
        r
    }

    /// Each log after a blank line: its key, then its items as
    /// `print_values` shows them.
    pub fn print_all_todos(&self) -> (r: String)
        requires
            self.all_dense(),
        ensures
            r@ == seq!['\n'] + listing(self.keys(), self.days()),
    {
        let mut all = String::new();
        push_char(&mut all, '\n');
        let mut k: usize = 0;
        assert(listing(self.keys().take(0), self.days().take(0)) =~= Seq::<char>::empty());
        while k < self.todoers.len()
            invariant
                self.all_dense(),
                k <= self.todoers.len(),
                all@ == seq!['\n'] + listing(self.keys().take(k as int), self.days().take(k as int)),
            decreases self.todoers.len() - k,
        {
            let t = &self.todoers[k];
            assert(self.todoers@[k as int].dense());
            push_char(&mut all, '\n');
            all.append(t.config.as_str());
            let shown = t.print_values();
            all.append(shown.as_str());
            proof {
                let ks = self.keys().take(k + 1);
                let ds = self.days().take(k + 1);
                assert(ks.drop_last() =~= self.keys().take(k as int));
                assert(ds.drop_last() =~= self.days().take(k as int));
                assert(ks.last() == t.config@);
                assert(ds[ks.len() - 1] == t.entries());
            }
            k = k + 1;
            assert(all@ =~= seq!['\n'] + listing(self.keys().take(k as int), self.days().take(k as int)));
        }
        assert(self.keys().take(k as int) =~= self.keys());
        assert(self.days().take(k as int) =~= self.days());
        all
    }

    /// All logs merged into one view: the open items of every log, then the
    /// done ones, each part numbered from 0 across the logs in their order.
    pub fn print_all_todos_together(&self) -> (r: String)
        requires
            self.all_dense(),
            concat_all(self.days()).len() <= u64::MAX,
        ensures
            r@ == rendered_merged(self.days()),
    {
        let mut res = String::new();
        proof {
            reveal_strlit("\nTodo\n");
            reveal_strlit("\nDone\n");
        }
        res.append("\nTodo\n");
        assert(res@ =~= todo_heading());
        self.push_merged(&mut res, false);
        res.append("\nDone\n");
        self.push_merged(&mut res, true);
        assert(res@ =~= rendered_merged(self.days()));
        res
    }

    /// Appends the items of all logs whose done flag is `done`, numbered from 0.
    fn push_merged(&self, res: &mut String, done: bool)
        requires
            self.all_dense(),
            concat_all(self.days()).len() <= u64::MAX,
        ensures
            final(res)@ == old(res)@ + numbered(picked(concat_all(self.days()), done)),
    {
        let ghost start = res@;
        let ghost days = self.days();
        let mut index: u64 = 0;
        let mut k: usize = 0;
        assert(concat_all(days.take(0)) =~= Seq::<Entry>::empty());
        assert(res@ =~= start + numbered(picked(concat_all(days.take(0)), done)));
        while k < self.todoers.len()
            invariant
                self.all_dense(),
                days == self.days(),
                concat_all(days).len() <= u64::MAX,
                k <= self.todoers.len(),
                index as nat == picked(concat_all(days.take(k as int)), done).len(),
                res@ == start + numbered(picked(concat_all(days.take(k as int)), done)),
            decreases self.todoers.len() - k,
        {
            let t = &self.todoers[k];
            assert(self.todoers@[k as int].dense());
            let ghost before = concat_all(days.take(k as int));
            let ghost es = t.entries();
            proof {
                lemma_concat_prefix(days, k as int);
            }
            let n = t.data.0.len() as u32;
            let mut i: u32 = 0;
            assert(before + es.take(0) =~= before);
            while i < n
                invariant
                    t.dense(),
                    n == t.count(),
                    es == t.entries(),
                    i <= n,
                    before.len() + es.len() <= u64::MAX,
                    index as nat == picked(before + es.take(i as int), done).len(),
                    res@ == start + numbered(picked(before + es.take(i as int), done)),
                decreases n - i,
            {
                let item = t.data.0.get(&i).unwrap();
                let ghost cur = before + es.take(i as int);
                assert((before + es.take(i + 1)).drop_last() =~= cur);
                proof {
                    lemma_picked_len(cur, done);
                }
                let ghost next = before + es.take(i + 1);
                assert(next.last() == es[i as int]);
                if item.done == done {
                    push_listed(res, index, &item.name);
                    index = index + 1;
                    assert(picked(next, done) == picked(cur, done).push(item.name@));
                    assert(picked(next, done).drop_last() =~= picked(cur, done));
                } else {
                    assert(picked(next, done) == picked(cur, done));
                }
                i = i + 1;
            }
            assert(es.take(n as int) =~= es);
            assert(days.take(k + 1).drop_last() =~= days.take(k as int));
            k = k + 1;
        }
        assert(days.take(k as int) =~= days);
    }
}

} // verus!
