//! One day's todo items under dense ordinals, and the operations on them.

use crate::format::{
    check_mark, done_marker, header_line, item_line, item_of_line, join_lines,
    lemma_first_slash_at, listed, log_text, open_marker, parse_log, rendered, section,
    todo_heading,
};
use crate::text::{
    chars_of, contains_exec, lemma_split_nl_len, lines_of, parse_u32, push_char, push_decimal,
    remove_all_exec, split_lines, string_of,
};
use std::collections::HashMap;
use vstd::prelude::*;
use vstd::string::StringExecFns;

verus! {

broadcast use {vstd::std_specs::hash::group_hash_axioms, vstd::set_lib::range_set_properties};

/// A single todo entry.
#[derive(Debug)]
pub struct Todo {
    pub name: String,
    pub done: bool,
}

/// The items of one day, keyed by ordinal.
#[derive(Debug)]
pub struct Todos(pub HashMap<u32, Todo>);

/// One day's log: where it is kept, its items, and the two counters of
/// its header.
#[derive(Debug)]
pub struct Todoer {
    /// The day key the log is kept under (its file's name without extension).
    pub config: String,
    pub data: Todos,
    pub size: u32,
    pub done_count: u32,
}

/// Why an operation on a log was refused.
#[derive(Debug, PartialEq, Eq, Clone, Copy, Structural)]
pub enum LogError {
    /// The ordinal is not below the number of items.
    OutOfRange,
    /// The first two lines of a log's text are missing or not a `done/size` header.
    MalformedHeader,
}

/// An item as the contracts see it: its name and whether it is done.
pub type Entry = (Seq<char>, bool);

/// How many of `s` are done.
pub open spec fn done_in(s: Seq<Entry>) -> nat
    decreases s.len(),
{
    if s.len() == 0 {
        0
    } else {
        done_in(s.drop_last()) + if s.last().1 {
            1nat
        } else {
            0nat
        }
    }
}

proof fn lemma_done_in_concat(a: Seq<Entry>, b: Seq<Entry>)
    ensures
        done_in(a + b) == done_in(a) + done_in(b),
    decreases b.len(),
{
    if b.len() == 0 {
        assert(a + b =~= a);
    } else {
        lemma_done_in_concat(a, b.drop_last());
        assert((a + b).drop_last() =~= a + b.drop_last());
    }
}

/// Splits the count of done items around position `i`.
proof fn lemma_done_in_split(s: Seq<Entry>, i: int)
    requires
        0 <= i < s.len(),
    ensures
        done_in(s) == done_in(s.take(i)) + (if s[i].1 {
            1nat
        } else {
            0nat
        }) + done_in(s.skip(i + 1)),
{
    assert(s =~= s.take(i) + (seq![s[i]] + s.skip(i + 1)));
    lemma_done_in_concat(s.take(i), seq![s[i]] + s.skip(i + 1));
    lemma_done_in_concat(seq![s[i]], s.skip(i + 1));
    assert(seq![s[i]].drop_last() =~= Seq::<Entry>::empty());
    assert(done_in(Seq::<Entry>::empty()) == 0);
    assert(done_in(seq![s[i]]) == done_in(seq![s[i]].drop_last()) + if s[i].1 {
        1nat
    } else {
        0nat
    });
}

/// The open items of `s`, in order.
pub open spec fn carried(s: Seq<Entry>) -> Seq<Entry>
    decreases s.len(),
{
    if s.len() == 0 {
        Seq::empty()
    } else if s.last().1 {
        carried(s.drop_last())
    } else {
        carried(s.drop_last()).push(s.last())
    }
}

proof fn lemma_carried_open(s: Seq<Entry>)
    ensures
        done_in(carried(s)) == 0,
        forall|i: int| 0 <= i < carried(s).len() ==> !(#[trigger] carried(s)[i]).1,
        carried(s).len() <= s.len(),
    decreases s.len(),
{
    if s.len() > 0 {
        lemma_carried_open(s.drop_last());
        if !s.last().1 {
            assert(carried(s).drop_last() =~= carried(s.drop_last()));
        }
    } else {
        assert(done_in(carried(s)) == 0);
    }
}

/// The ordinals of the open items of `s`, in order.
pub open spec fn open_ordinals(s: Seq<Entry>) -> Seq<int>
    decreases s.len(),
{
    if s.len() == 0 {
        Seq::empty()
    } else if s.last().1 {
        open_ordinals(s.drop_last())
    } else {
        open_ordinals(s.drop_last()).push(s.len() - 1)
    }
}

/// What reading the text `t` as a log gives.
pub open spec fn read_as(r: Result<Todoer, LogError>, t: Seq<char>) -> bool {
    match parse_log(t) {
        Some((key, done_count, size, items)) => {
            &&& r is Ok
            &&& r->Ok_0.config@ == key
            &&& r->Ok_0.done_count == done_count
            &&& r->Ok_0.size == size
            &&& r->Ok_0.dense()
            &&& r->Ok_0.entries() == items
        },
        None => r == Err::<Todoer, LogError>(LogError::MalformedHeader),
    }
}

/// What loading the text `t` of the file kept under `config` gives: the
/// log that the text holds, kept under `config`.
pub open spec fn loaded_under(r: Result<Todoer, LogError>, config: String, t: Seq<char>) -> bool {
    match parse_log(t) {
        Some((_, done_count, size, items)) => {
            &&& r is Ok
            &&& r->Ok_0.config == config
            &&& r->Ok_0.done_count == done_count
            &&& r->Ok_0.size == size
            &&& r->Ok_0.dense()
            &&& r->Ok_0.entries() == items
        },
        None => r == Err::<Todoer, LogError>(LogError::MalformedHeader),
    }
}

/// A fresh log under `config` that holds exactly `items`, none done.
pub open spec fn fresh_with(t: Todoer, config: String, items: Seq<Entry>) -> bool {
    &&& t.wf()
    &&& t.config == config
    &&& t.entries() == items
    &&& t.size == items.len()
    &&& t.done_count == 0
}

/// Appends `name` listed under the number `n`.
pub(crate) fn push_listed(res: &mut String, n: u64, name: &String)
    ensures
        final(res)@ == old(res)@ + listed(n as nat, name@),
{
    push_decimal(res, n);
    proof {
        reveal_strlit("). ");
    }
    res.append("). ");
    res.append(name.as_str());
    push_char(res, '\n');
    assert(res@ =~= old(res)@ + listed(n as nat, name@));
}

/// An empty item map.
pub fn default_data() -> (r: Todos)
    ensures
        r.0@ == Map::<u32, Todo>::empty(),
{
    Todos(HashMap::new())
}

impl Todos {
    /// The number of stored items.
    pub open spec fn count(&self) -> nat {
        self.0@.len()
    }

    /// The items are keyed by exactly the ordinals below their number.
    pub open spec fn dense(&self) -> bool {
        &&& self.count() <= u32::MAX
        &&& self.0@.dom() == Set::<u32>::range(0, self.count() as u32)
    }

    /// The items in ordinal order.
    pub open spec fn entries(&self) -> Seq<Entry> {
        Seq::new(self.count(), |i: int| (self.0@[i as u32].name@, self.0@[i as u32].done))
    }

    /// The items that the lines `lines[start..]` of a log hold, from ordinal 0.
    pub fn from_lines(lines: &Vec<Vec<char>>, start: usize) -> (r: Todos)
        requires
            start <= lines.len(),
            lines.len() - start <= u32::MAX,
        ensures
            r.dense(),
            r.entries() == lines@.skip(start as int).map_values(|l: Vec<char>| item_of_line(l@)),
    {
        let ghost want = lines@.skip(start as int).map_values(|l: Vec<char>| item_of_line(l@));
        let open_m: Vec<char> = vec!['-', ' ', '[', ' ', ']', ' '];
        let done_m: Vec<char> = vec!['-', ' ', '[', 'x', ']', ' '];
        let check: Vec<char> = vec!['[', 'x', ']'];
        assert(open_m@ =~= open_marker());
        assert(done_m@ =~= done_marker());
        assert(check@ =~= check_mark());
        let mut data = Todos(HashMap::new());
        let mut i: usize = start;
        assert(data.0@.dom() =~= Set::<u32>::range(0, 0));
        assert(data.entries() =~= want.take(0));
        while i < lines.len()
            invariant
                start <= i <= lines.len(),
                lines.len() - start <= u32::MAX,
                open_m@ == open_marker(),
                done_m@ == done_marker(),
                check@ == check_mark(),
                want == lines@.skip(start as int).map_values(|l: Vec<char>| item_of_line(l@)),
                data.count() == i - start,
                data.0@.dom() == Set::<u32>::range(0, (i - start) as u32),
                data.entries() == want.take(i - start),
            decreases lines.len() - i,
        {
            let line = &lines[i];
            let done = contains_exec(line, &check);
            let name = string_of(&remove_all_exec(&remove_all_exec(line, &open_m), &done_m));
            let k = (i - start) as u32;
            data.0.insert(k, Todo { name, done });
            i = i + 1;
            assert(data.0@.dom() =~= Set::<u32>::range(0, (i - start) as u32));
            assert(data.entries() =~= want.take(i - start));
        }
        assert(want.take(i - start) =~= want);
        data
    }
}

impl Todoer {
    /// The number of stored items.
    pub open spec fn count(&self) -> nat {
        self.data.count()
    }

    /// The stored items are keyed by exactly the ordinals below their number.
    pub open spec fn dense(&self) -> bool {
        self.data.dense()
    }

    /// The items in ordinal order.
    pub open spec fn entries(&self) -> Seq<Entry> {
        self.data.entries()
    }

    /// The names in ordinal order.
    pub open spec fn names(&self) -> Seq<Seq<char>> {
        self.entries().map_values(|e: Entry| e.0)
    }

    /// The items are keyed by exactly the ordinals below `size`.
    pub open spec fn indexed(&self) -> bool {
        &&& self.dense()
        &&& self.count() == self.size
    }

    /// The log is consistent: its items are keyed by exactly the ordinals
    /// below `size`, and its done counter is no lower than the number of
    /// done items.
    pub open spec fn wf(&self) -> bool {
        &&& self.indexed()
        &&& self.done_count >= done_in(self.entries())
    }

    /// An empty log kept under `config`.
    pub fn default_todoer(config: String) -> (r: Self)
        ensures
            r.wf(),
            r.config == config,
            r.entries() == Seq::<Entry>::empty(),
            r.size == 0,
            r.done_count == 0,
    {
        let r = Todoer { config, data: default_data(), size: 0, done_count: 0 };
        assert(r.data.0@.dom() =~= Set::<u32>::range(0, 0));
        assert(r.entries() =~= Seq::<Entry>::empty());
        r
    }

    /// Appends a not-done item named `name` at ordinal `size`.
    pub fn set_value(&mut self, name: String)
        requires
            old(self).indexed(),
            old(self).size < u32::MAX,
        ensures
            final(self).indexed(),
            old(self).wf() ==> final(self).wf(),
            final(self).entries() == old(self).entries().push((name@, false)),
            final(self).names() == old(self).names().push(name@),
            final(self).size == old(self).size + 1,
            final(self).done_count == old(self).done_count,
            final(self).config == old(self).config,
    {
        let ghost before = self.entries();
        let ghost name_view = name@;
        let n = self.size;
        self.data.0.insert(n, Todo { name, done: false });
        self.size = n + 1;
        assert(self.data.0@.dom() =~= Set::<u32>::range(0, (n + 1) as u32));
        assert(self.entries() =~= before.push((name_view, false)));
        assert(self.entries().drop_last() =~= before);
        assert(done_in(self.entries()) == done_in(before));
        assert(self.names() =~= before.map_values(|e: Entry| e.0).push(name_view));
    }

    /// A new log under `config` that carries over the open items of
    /// `yesterday`, in order and from ordinal 0, with nothing done.
    pub fn carry_over(config: String, yesterday: &Todoer) -> (r: Todoer)
        requires
            yesterday.dense(),
        ensures
            fresh_with(r, config, carried(yesterday.entries())),
    {
        let ghost src = yesterday.entries();
        let mut r = Todoer::default_todoer(config);
        let n = yesterday.data.0.len() as u32;
        let mut i: u32 = 0;
        while i < n
            invariant
                yesterday.dense(),
                n == yesterday.count(),
                src == yesterday.entries(),
                i <= n,
                fresh_with(r, config, carried(src.take(i as int))),
            decreases n - i,
        {
            let t = yesterday.data.0.get(&i).unwrap();
            proof {
                assert(src.take(i + 1).drop_last() =~= src.take(i as int));
                lemma_carried_open(src.take(i as int));
                lemma_carried_open(src.take(i + 1));
            }
            if !t.done {
                r.set_value(t.name.clone());
            }
            i = i + 1;
        }
        assert(src.take(n as int) =~= src);
        proof {
            lemma_carried_open(src);
        }
        r
    }

    /// The log kept under `config`, from the texts of that day's file and of
    /// the day before's, where they exist. A day's own file is read with its
    /// counters as written; with none, a day that is not past takes over the
    /// open items of the day before; else it starts empty.
    pub fn from_config(
        config: String,
        is_past: bool,
        today: Option<String>,
        yesterday: Option<String>,
    ) -> (r: Result<Todoer, LogError>)
        requires
            today is Some ==> today->Some_0@.len() <= u32::MAX,
            yesterday is Some ==> yesterday->Some_0@.len() <= u32::MAX,
        ensures
            today is Some ==> loaded_under(r, config, today->Some_0@),
            today is None && !is_past && yesterday is Some ==> match parse_log(
                yesterday->Some_0@,
            ) {
                Some((_, _, _, items)) => r is Ok && fresh_with(r->Ok_0, config, carried(items)),
                None => r == Err::<Todoer, LogError>(LogError::MalformedHeader),
            },
            today is None && (is_past || yesterday is None) ==> r is Ok && fresh_with(
                r->Ok_0,
                config,
                Seq::empty(),
            ),
    {
        if let Some(text) = today {
            return match Todoer::try_from(text) {
                Ok(mut t) => {
                    t.config = config;
                    Ok(t)
                },
                Err(e) => Err(e),
            };
        }
        if !is_past {
            if let Some(text) = yesterday {
                return match Todoer::try_from(text) {
                    Ok(prev) => Ok(Todoer::carry_over(config, &prev)),
                    Err(e) => Err(e),
                };
            }
        }
        Ok(Todoer::default_todoer(config))
    }

    /// Whether the items are keyed by exactly the ordinals below their number.
    pub fn is_dense(&self) -> (r: bool)
        ensures
            r == self.dense(),
    {
        let n = self.data.0.len();
        if n > u32::MAX as usize {
            return false;
        }
        let mut k: u32 = 0;
        while (k as usize) < n
            invariant
                n == self.count(),
                n <= u32::MAX,
                k <= n,
                forall|j: u32| j < k ==> self.data.0@.contains_key(j),
            decreases n - k,
        {
            if !self.data.0.contains_key(&k) {
                assert(!Set::<u32>::range(0, n as u32).contains(k) || !self.dense());
                return false;
            }
            k = k + 1;
        }
        proof {
            let range = Set::<u32>::range(0, n as u32);
            assert(range.subset_of(self.data.0@.dom()));
            vstd::set_lib::lemma_subset_equality(range, self.data.0@.dom());
        }
        true
    }

    /// Whether the items are keyed by exactly the ordinals below `size`, as
    /// the operations that read or change items ask.
    pub fn is_indexed(&self) -> (r: bool)
        ensures
            r == self.indexed(),
    {
        self.is_dense() && self.data.0.len() == self.size as usize
    }

    /// Whether the log is consistent (see `wf`).
    pub fn is_consistent(&self) -> (r: bool)
        ensures
            r == self.wf(),
    {
        if !self.is_dense() {
            return false;
        }
        let n = self.data.0.len();
        if n != self.size as usize {
            return false;
        }
        let mut done: u32 = 0;
        let mut i: u32 = 0;
        while i < self.size
            invariant
                self.dense(),
                self.count() == self.size,
                i <= self.size,
                done as nat == done_in(self.entries().take(i as int)),
                done <= i,
            decreases self.size - i,
        {
            let t = self.data.0.get(&i).unwrap();
            assert(self.entries().take(i + 1).drop_last() =~= self.entries().take(i as int));
            if t.done {
                done = done + 1;
            }
            i = i + 1;
        }
        assert(self.entries().take(self.size as int) =~= self.entries());
        done <= self.done_count
    }

    /// The names of the items, in ordinal order.
    pub fn get_value_names(&self) -> (r: Vec<&String>)
        requires
            self.indexed(),
        ensures
            r.len() == self.size,
            forall|i: int| 0 <= i < r.len() ==> (#[trigger] r[i])@ == self.names()[i],
    {
        let mut ret: Vec<&String> = Vec::new();
        let mut index: u32 = 0;
        while index < self.size
            invariant
                self.indexed(),
                index <= self.size,
                ret.len() == index,
                forall|i: int| 0 <= i < ret.len() ==> (#[trigger] ret[i])@ == self.entries()[i].0,
            decreases self.size - index,
        {
            let t = self.data.0.get(&index).unwrap();
            ret.push(&t.name);
            index = index + 1;
        }
        ret
    }

    /// The ordinals of the open items, in order: what a caller picks from
    /// when marking an item done.
    pub fn get_open_ordinals(&self) -> (r: Vec<u32>)
        requires
            self.indexed(),
        ensures
            r@.map_values(|i: u32| i as int) == open_ordinals(self.entries()),
    {
        let ghost es = self.entries();
        let mut ret: Vec<u32> = Vec::new();
        let mut index: u32 = 0;
        assert(ret@.map_values(|i: u32| i as int) =~= open_ordinals(es.take(0)));
        while index < self.size
            invariant
                self.indexed(),
                es == self.entries(),
                index <= self.size,
                ret@.map_values(|i: u32| i as int) == open_ordinals(es.take(index as int)),
            decreases self.size - index,
        {
            let t = self.data.0.get(&index).unwrap();
            assert(es.take(index + 1).drop_last() =~= es.take(index as int));
            if !t.done {
                ret.push(index);
            }
            index = index + 1;
            assert(ret@.map_values(|i: u32| i as int) =~= open_ordinals(es.take(index as int)));
        }
        assert(es.take(self.size as int) =~= es);
        ret
    }

    /// The names and done flags of the items, in ordinal order.
    pub fn get_value_all(&self) -> (r: Vec<(&String, bool)>)
        requires
            self.indexed(),
        ensures
            r.len() == self.size,
            forall|i: int|
                0 <= i < r.len() ==> (#[trigger] r[i]).0@ == self.entries()[i].0 && r[i].1
                    == self.entries()[i].1,
    {
        let mut ret: Vec<(&String, bool)> = Vec::new();
        let mut index: u32 = 0;
        while index < self.size
            invariant
                self.indexed(),
                index <= self.size,
                ret.len() == index,
                forall|i: int|
                    0 <= i < ret.len() ==> (#[trigger] ret[i]).0@ == self.entries()[i].0 && ret[i].1
                        == self.entries()[i].1,
            decreases self.size - index,
        {
            let t = self.data.0.get(&index).unwrap();
            ret.push((&t.name, t.done));
            index = index + 1;
        }
        ret
    }

    /// The items as shown: the open ones, then the done ones, each under its
    /// ordinal.
    pub fn print_values(&self) -> (r: String)
        requires
            self.dense(),
        ensures
            r@ == rendered(self.entries()),
    {
        let mut res = String::new();
        proof {
            reveal_strlit("\nTodo\n");
            reveal_strlit("\nDone\n");
        }
        res.append("\nTodo\n");
        assert(res@ =~= todo_heading());
        self.push_section(&mut res, false);
        res.append("\nDone\n");
        self.push_section(&mut res, true);
        assert(res@ =~= rendered(self.entries()));
        res
    }

    /// Appends the items whose done flag is `done`, each under its ordinal.
    fn push_section(&self, res: &mut String, done: bool)
        requires
            self.dense(),
        ensures
            final(res)@ == old(res)@ + section(self.entries(), done),
    {
        let ghost start = res@;
        let ghost es = self.entries();
        let n = self.data.0.len() as u32;
        let mut index: u32 = 0;
        assert(section(es.take(0), done) =~= Seq::<char>::empty());
        assert(res@ =~= start + section(es.take(0), done));
        while index < n
            invariant
                self.dense(),
                n == self.count(),
                es == self.entries(),
                index <= n,
                res@ == start + section(es.take(index as int), done),
            decreases n - index,
        {
            let t = self.data.0.get(&index).unwrap();
            assert(es.take(index + 1).drop_last() =~= es.take(index as int));
            if t.done == done {
                push_listed(res, index as u64, &t.name);
            }
            index = index + 1;
            assert(res@ =~= start + section(es.take(index as int), done));
        }
        assert(es.take(n as int) =~= es);
    }

    /// Reads a log from its text. The counters of the header are kept as
    /// written, whatever the body holds.
    pub fn try_from(data: String) -> (r: Result<Todoer, LogError>)
        requires
            data@.len() <= u32::MAX,
        ensures
            read_as(r, data@),
    {
        let t = chars_of(data.as_str());
        let lines = split_lines(&t);
        proof {
            lemma_split_nl_len(t@);
        }
        let ghost ls = lines_of(t@);
        if lines.len() < 2 {
            return Err(LogError::MalformedHeader);
        }
        let h = &lines[1];
        assert(h@ == ls[1]);
        let mut j: usize = 0;
        while j < h.len() && h[j] != '/'
            invariant
                j <= h.len(),
                forall|k: int| 0 <= k < j ==> h@[k] != '/',
            decreases h.len() - j,
        {
            j = j + 1;
        }
        proof {
            lemma_first_slash_at(h@, j as int);
        }
        if j == h.len() {
            return Err(LogError::MalformedHeader);
        }
        assert(h@.take(j as int) =~= h@.subrange(0, j as int));
        assert(h@.skip(j + 1) =~= h@.subrange(j + 1, h.len() as int));
        let done_count = match parse_u32(h, 0, j) {
            Some(v) => v,
            None => {
                return Err(LogError::MalformedHeader);
            },
        };
        let size = match parse_u32(h, j + 1, h.len()) {
            Some(v) => v,
            None => {
                return Err(LogError::MalformedHeader);
            },
        };
        let config = string_of(&lines[0]);
        let data = Todos::from_lines(&lines, 2);
        assert(lines@.skip(2).map_values(|l: Vec<char>| item_of_line(l@)) =~= ls.skip(2).map_values(
            |l: Seq<char>| item_of_line(l),
        ));
        Ok(Todoer { config, data, size, done_count })
    }

    /// The text the log is stored as.
    pub fn serialize(&self) -> (r: String)
        requires
            self.dense(),
        ensures
            r@ == log_text(self.config@, self.done_count, self.size, self.entries()),
    {
        let ghost items = self.entries().map_values(|e: Entry| item_line(e));
        let ghost head = seq![self.config@, header_line(self.done_count, self.size)];
        let mut r = String::new();
        r.append(self.config.as_str());
        push_char(&mut r, '\n');
        push_decimal(&mut r, self.done_count as u64);
        push_char(&mut r, '/');
        push_decimal(&mut r, self.size as u64);
        push_char(&mut r, '\n');
        proof {
            assert(head.drop_last().drop_last() =~= Seq::<Seq<char>>::empty());
            assert(head.drop_last() =~= seq![self.config@]);
            assert(join_lines(Seq::<Seq<char>>::empty()) =~= Seq::<char>::empty());
            assert(join_lines(seq![self.config@]) =~= self.config@ + seq!['\n']);
            assert(r@ =~= join_lines(head));
            assert(head + items.take(0) =~= head);
        }
        let n = self.data.0.len() as u32;
        let mut i: u32 = 0;
        while i < n
            invariant
                self.dense(),
                n == self.count(),
                i <= n,
                items == self.entries().map_values(|e: Entry| item_line(e)),
                r@ == join_lines(head + items.take(i as int)),
            decreases n - i,
        {
            let t = self.data.0.get(&i).unwrap();
            if t.done {
                proof {
                    reveal_strlit("- [x] ");
                }
                r.append("- [x] ");
                assert("- [x] "@ =~= done_marker());
            } else {
                proof {
                    reveal_strlit("- [ ] ");
                }
                r.append("- [ ] ");
                assert("- [ ] "@ =~= open_marker());
            }
            r.append(t.name.as_str());
            push_char(&mut r, '\n');
            proof {
                let next = head + items.take(i + 1);
                assert(next.drop_last() =~= head + items.take(i as int));
                assert(next.last() == item_line(self.entries()[i as int]));
            }
            i = i + 1;
            assert(r@ =~= join_lines(head + items.take(i as int)));
        }
        assert(items.take(n as int) =~= items);
        r
    }

    /// Marks the item at ordinal `index` done and counts one more done item,
    /// also when it was done already.
    pub fn mark_done(&mut self, index: u32) -> (r: Result<(), LogError>)
        requires
            old(self).indexed(),
            index < old(self).size ==> old(self).done_count < u32::MAX,
        ensures
            final(self).indexed(),
            old(self).wf() ==> final(self).wf(),
            index < old(self).size ==> {
                &&& r is Ok
                &&& final(self).entries() == old(self).entries().update(
                    index as int,
                    (old(self).entries()[index as int].0, true),
                )
                &&& final(self).size == old(self).size
                &&& final(self).done_count == old(self).done_count + 1
                &&& final(self).config == old(self).config
            },
            index >= old(self).size ==> r == Err::<(), LogError>(LogError::OutOfRange),
            index >= old(self).size ==> *final(self) == *old(self),
    {
        if index >= self.size {
            return Err(LogError::OutOfRange);
        }
        let ghost before = self.entries();
        let name = self.data.0.get(&index).unwrap().name.clone();
        self.data.0.insert(index, Todo { name, done: true });
        self.done_count = self.done_count + 1;
        assert(self.data.0@.dom() =~= Set::<u32>::range(0, self.size));
        let ghost after = before.update(index as int, (before[index as int].0, true));
        assert(self.entries() =~= after);
        proof {
            lemma_done_in_split(before, index as int);
            lemma_done_in_split(after, index as int);
            assert(after.take(index as int) =~= before.take(index as int));
            assert(after.skip(index + 1) =~= before.skip(index + 1));
        }
        Ok(())
    }

    /// Takes out the item at ordinal `index`; the items after it move down
    /// one ordinal, and the done counter drops by one if the item was done.
    pub fn remove_value(&mut self, index: u32) -> (r: Result<(), LogError>)
        requires
            old(self).indexed(),
            index < old(self).size && old(self).entries()[index as int].1 ==> old(self).done_count
                >= 1,
        ensures
            final(self).indexed(),
            old(self).wf() ==> final(self).wf(),
            index < old(self).size ==> {
                &&& r is Ok
                &&& final(self).entries() == old(self).entries().remove(index as int)
                &&& final(self).names() == old(self).names().remove(index as int)
                &&& final(self).size == old(self).size - 1
                &&& final(self).done_count == old(self).done_count - if old(self).entries()[index as int].1 {
                    1int
                } else {
                    0int
                }
                &&& final(self).config == old(self).config
            },
            index >= old(self).size ==> r == Err::<(), LogError>(LogError::OutOfRange),
            index >= old(self).size ==> *final(self) == *old(self),
    {
        if index >= self.size {
            return Err(LogError::OutOfRange);
        }
        let ghost before = self.entries();
        let ghost map0 = self.data.0@;
        proof {
            lemma_done_in_split(before, index as int);
        }
        if self.data.0.get(&index).unwrap().done {
            self.done_count = self.done_count - 1;
        }
        let ghost dc = self.done_count;
        let mut i: u32 = index + 1;
        while i < self.size
            invariant
                index < i <= self.size,
                self.size == old(self).size,
                self.config == old(self).config,
                self.done_count == dc,
                self.size as nat == map0.len(),
                self.data.0@.dom() == map0.dom(),
                map0.dom() == Set::<u32>::range(0, self.size),
                forall|k: u32| k < index ==> self.data.0@[k] == map0[k],
                forall|k: u32| index <= k < i - 1 ==> self.data.0@[k] == map0[(k + 1) as u32],
                forall|k: u32| i - 1 <= k < self.size ==> self.data.0@[k] == map0[k],
            decreases self.size - i,
        {
            let t = self.data.0.get(&i).unwrap();
            let moved = Todo { name: t.name.clone(), done: t.done };
            self.data.0.insert(i - 1, moved);
            i = i + 1;
        }
        let last = self.size - 1;
        self.data.0.remove(&last);
        self.size = last;
        assert(self.data.0@.dom() =~= Set::<u32>::range(0, last));
        let ghost after = before.remove(index as int);
        assert forall|j: int| 0 <= j < after.len() implies self.entries()[j] == after[j] by {
            if j < index {
                assert(self.data.0@[j as u32] == map0[j as u32]);
            } else {
                assert(self.data.0@[j as u32] == map0[(j + 1) as u32]);
            }
        }
        assert(self.entries() =~= after);
        assert(self.names() =~= before.map_values(|e: Entry| e.0).remove(index as int));
        proof {
            lemma_done_in_split(before, index as int);
            lemma_done_in_concat(before.take(index as int), before.skip(index + 1));
            assert(after =~= before.take(index as int) + before.skip(index + 1));
        }
        Ok(())
    }
}

} // verus!
