//! The text of a day's log file, as spec functions.
//!
//! Line one holds the day key, line two `done_count/size`, and each further
//! line one item: `- [x] name` when done, `- [ ] name` when not.

use crate::text::{
    all_digits, contains, decimal, digits_value, is_digit, lemma_split_nl_len, lines_of, occurs_at,
    parse_u32_spec, remove_all, split_nl, strip_cr, unsigned_part,
};
use crate::todoer::Entry;
use vstd::prelude::*;

verus! {

/// The prefix of a line that holds an open item.
pub open spec fn open_marker() -> Seq<char> {
    seq!['-', ' ', '[', ' ', ']', ' ']
}

/// The prefix of a line that holds a done item.
pub open spec fn done_marker() -> Seq<char> {
    seq!['-', ' ', '[', 'x', ']', ' ']
}

/// A line that contains this holds a done item.
pub open spec fn check_mark() -> Seq<char> {
    seq!['[', 'x', ']']
}

/// The line that stores one item.
pub open spec fn item_line(e: Entry) -> Seq<char> {
    (if e.1 {
        done_marker()
    } else {
        open_marker()
    }) + e.0
}

/// The item that a body line is read as: done when it contains `[x]`, named
/// by what is left once both markers are taken out.
pub open spec fn item_of_line(l: Seq<char>) -> Entry {
    (remove_all(remove_all(l, open_marker()), done_marker()), contains(l, check_mark()))
}

/// The second line: `done_count/size`.
pub open spec fn header_line(done_count: u32, size: u32) -> Seq<char> {
    decimal(done_count as nat) + seq!['/'] + decimal(size as nat)
}

/// Each line followed by a newline.
pub open spec fn join_lines(ls: Seq<Seq<char>>) -> Seq<char>
    decreases ls.len(),
{
    if ls.len() == 0 {
        Seq::empty()
    } else {
        join_lines(ls.drop_last()) + ls.last() + seq!['\n']
    }
}

/// The full text of a log.
pub open spec fn log_text(key: Seq<char>, done_count: u32, size: u32, items: Seq<Entry>) -> Seq<
    char,
> {
    join_lines(seq![key, header_line(done_count, size)] + items.map_values(|e: Entry| item_line(e)))
}

/// The position of the first `/` in `s`, or its length if there is none.
pub open spec fn first_slash(s: Seq<char>) -> int
    decreases s.len(),
{
    if s.len() == 0 {
        0
    } else if s[0] == '/' {
        0
    } else {
        1 + first_slash(s.skip(1))
    }
}

/// The two counters of a header line, if it is one: a number, `/`, and a
/// number (the second running to the end of the line).
pub open spec fn parse_header(l: Seq<char>) -> Option<(u32, u32)> {
    let i = first_slash(l);
    if i < l.len() {
        match (parse_u32_spec(l.take(i)), parse_u32_spec(l.skip(i + 1))) {
            (Some(d), Some(s)) => Some((d, s)),
            _ => None,
        }
    } else {
        None
    }
}

/// What a log's text holds, if its header is well formed: the day key, the
/// two counters as written, and one item per further line.
pub open spec fn parse_log(t: Seq<char>) -> Option<(Seq<char>, u32, u32, Seq<Entry>)> {
    let ls = lines_of(t);
    if ls.len() < 2 {
        None
    } else {
        match parse_header(ls[1]) {
            Some((d, s)) => Some(
                (ls[0], d, s, ls.skip(2).map_values(|l: Seq<char>| item_of_line(l))),
            ),
            None => None,
        }
    }
}

} // verus!

verus! {

/// The first `/` of `s` is at `j` when none comes before it.
pub proof fn lemma_first_slash_at(s: Seq<char>, j: int)
    requires
        0 <= j <= s.len(),
        forall|k: int| 0 <= k < j ==> s[k] != '/',
        j == s.len() || s[j] == '/',
    ensures
        first_slash(s) == j,
    decreases j,
{
    if j > 0 {
        lemma_first_slash_at(s.skip(1), j - 1);
    }
}

} // verus!

verus! {

/// A line that the format keeps as it is: no newline in it, and no carriage
/// return at its end.
pub open spec fn plain_line(l: Seq<char>) -> bool {
    &&& forall|i: int| 0 <= i < l.len() ==> l[i] != '\n'
    &&& !(l.len() > 0 && l.last() == '\r')
}

/// An item that reads back as written: a plain name that holds neither
/// marker, and no `[x]` in the name of an open item.
pub open spec fn storable(e: Entry) -> bool {
    &&& plain_line(e.0)
    &&& !contains(e.0, open_marker())
    &&& !contains(e.0, done_marker())
    &&& !e.1 ==> !contains(e.0, check_mark())
}

proof fn lemma_split_nl_extend(j: Seq<char>, l: Seq<char>)
    requires
        forall|i: int| 0 <= i < l.len() ==> l[i] != '\n',
    ensures
        split_nl(j + l) == split_nl(j).update(
            split_nl(j).len() - 1,
            split_nl(j).last() + l,
        ),
        split_nl(j + l).len() == split_nl(j).len(),
    decreases l.len(),
{
    lemma_split_nl_len(j);
    if l.len() == 0 {
        assert(j + l =~= j);
        assert(split_nl(j).last() + l =~= split_nl(j).last());
        assert(split_nl(j).update(split_nl(j).len() - 1, split_nl(j).last()) =~= split_nl(j));
    } else {
        lemma_split_nl_extend(j, l.drop_last());
        assert((j + l).drop_last() =~= j + l.drop_last());
        assert((j + l).last() == l.last());
        assert((split_nl(j).last() + l.drop_last()).push(l.last()) =~= split_nl(j).last() + l);
        assert(split_nl(j + l) =~= split_nl(j).update(
            split_nl(j).len() - 1,
            split_nl(j).last() + l,
        ));
    }
}

proof fn lemma_split_nl_join(ls: Seq<Seq<char>>)
    requires
        forall|k: int| 0 <= k < ls.len() ==> plain_line(#[trigger] ls[k]),
    ensures
        split_nl(join_lines(ls)) == ls.push(Seq::<char>::empty()),
    decreases ls.len(),
{
    if ls.len() == 0 {
        assert(split_nl(Seq::<char>::empty()) =~= seq![Seq::<char>::empty()]);
        assert(ls.push(Seq::<char>::empty()) =~= seq![Seq::<char>::empty()]);
    } else {
        let front = ls.drop_last();
        lemma_split_nl_join(front);
        let x = join_lines(front) + ls.last();
        assert(plain_line(ls[ls.len() - 1]));
        lemma_split_nl_extend(join_lines(front), ls.last());
        assert(split_nl(x) =~= ls);
        assert((x + seq!['\n']).drop_last() =~= x);
        assert(join_lines(ls) == x + seq!['\n']);
        assert(split_nl(x + seq!['\n']) == split_nl(x).push(Seq::<char>::empty()));
    }
}

/// The lines of joined plain lines are those lines.
pub proof fn lemma_lines_of_join(ls: Seq<Seq<char>>)
    requires
        forall|k: int| 0 <= k < ls.len() ==> plain_line(#[trigger] ls[k]),
    ensures
        lines_of(join_lines(ls)) == ls,
{
    if ls.len() == 0 {
        assert(join_lines(ls) =~= Seq::<char>::empty());
    } else {
        lemma_split_nl_join(ls);
        assert(join_lines(ls).len() > 0);
        let p = ls.push(Seq::<char>::empty());
        assert forall|k: int| 0 <= k < ls.len() implies strip_cr(p[k]) == ls[k] by {
            assert(plain_line(ls[k]));
        }
        assert(Seq::new((p.len() - 1) as nat, |i: int| strip_cr(p[i])) =~= ls);
    }
}

proof fn lemma_decimal(n: nat)
    ensures
        decimal(n).len() >= 1,
        all_digits(decimal(n)),
        digits_value(decimal(n)) == n,
    decreases n,
{
    let d = n % 10;
    assert((((d + 48) as u8) as char) as u32 == d + 48);
    if n >= 10 {
        lemma_decimal(n / 10);
        assert(decimal(n).drop_last() =~= decimal(n / 10));
        assert((n / 10) * 10 + n % 10 == n);
    } else {
        assert(decimal(n).drop_last() =~= Seq::<char>::empty());
        assert(digits_value(Seq::<char>::empty()) == 0);
    }
}

proof fn lemma_parse_decimal(n: u32)
    ensures
        parse_u32_spec(decimal(n as nat)) == Some(n),
        forall|i: int|
            0 <= i < decimal(n as nat).len() ==> is_digit(#[trigger] decimal(n as nat)[i]),
{
    lemma_decimal(n as nat);
    assert(is_digit(decimal(n as nat)[0]));
    assert(unsigned_part(decimal(n as nat)) == decimal(n as nat));
}

proof fn lemma_parse_header(d: u32, s: u32)
    ensures
        parse_header(header_line(d, s)) == Some((d, s)),
        plain_line(header_line(d, s)),
{
    lemma_parse_decimal(d);
    lemma_parse_decimal(s);
    let a = decimal(d as nat);
    let h = header_line(d, s);
    assert forall|k: int| 0 <= k < a.len() implies h[k] != '/' by {
        assert(h[k] == a[k]);
        assert(is_digit(a[k]));
    }
    lemma_first_slash_at(h, a.len() as int);
    assert(h.take(a.len() as int) =~= a);
    assert(h.skip(a.len() as int + 1) =~= decimal(s as nat));
    assert forall|i: int| 0 <= i < h.len() implies h[i] != '\n' by {
        if i < a.len() {
            assert(is_digit(a[i]));
        } else if i > a.len() {
            assert(is_digit(decimal(s as nat)[i - a.len() - 1]));
        }
    }
    assert(is_digit(decimal(s as nat)[decimal(s as nat).len() - 1]));
}

proof fn lemma_remove_absent(s: Seq<char>, p: Seq<char>)
    requires
        !contains(s, p),
    ensures
        remove_all(s, p) == s,
    decreases s.len(),
{
    if p.len() > 0 && s.len() >= p.len() {
        assert(s.take(p.len() as int) != p) by {
            assert(s.subrange(0, p.len() as int) =~= s.take(p.len() as int));
            if s.take(p.len() as int) == p {
                assert(occurs_at(s, p, 0));
            }
        }
        assert forall|i: int| !occurs_at(s.skip(1), p, i) by {
            if occurs_at(s.skip(1), p, i) {
                assert(s.subrange(i + 1, i + 1 + p.len()) =~= s.skip(1).subrange(i, i + p.len()));
                assert(occurs_at(s, p, i + 1));
            }
        }
        lemma_remove_absent(s.skip(1), p);
        assert(s =~= seq![s[0]] + s.skip(1));
    }
}

proof fn lemma_remove_after_prefix(a: Seq<char>, b: Seq<char>, p: Seq<char>)
    requires
        p.len() > 0,
        forall|i: int| 0 <= i < a.len() ==> !occurs_at(a + b, p, i),
    ensures
        remove_all(a + b, p) == a + remove_all(b, p),
    decreases a.len(),
{
    if a.len() == 0 {
        assert(a + b =~= b);
        assert(a + remove_all(b, p) =~= remove_all(b, p));
    } else if (a + b).len() < p.len() {
        assert(remove_all(b, p) == b);
    } else {
        let s = a + b;
        assert(s.take(p.len() as int) != p) by {
            assert(s.subrange(0, p.len() as int) =~= s.take(p.len() as int));
            assert(!occurs_at(s, p, 0));
        }
        let a1 = a.skip(1);
        assert(s.skip(1) =~= a1 + b);
        assert forall|i: int| 0 <= i < a1.len() implies !occurs_at(a1 + b, p, i) by {
            if occurs_at(a1 + b, p, i) {
                assert(s.subrange(i + 1, i + 1 + p.len()) =~= (a1 + b).subrange(i, i + p.len()));
                assert(occurs_at(s, p, i + 1));
            }
        }
        lemma_remove_after_prefix(a1, b, p);
        assert(a =~= seq![a[0]] + a1);
        assert(seq![s[0]] + (a1 + remove_all(b, p)) =~= a + remove_all(b, p));
    }
}

proof fn lemma_item_round_trip(e: Entry)
    requires
        storable(e),
    ensures
        item_of_line(item_line(e)) == e,
        plain_line(item_line(e)),
{
    let name = e.0;
    let line = item_line(e);
    let om = open_marker();
    let dm = done_marker();
    if e.1 {
        assert(line.subrange(2, 5) =~= check_mark());
        assert(occurs_at(line, check_mark(), 2));
        assert forall|i: int| 0 <= i < dm.len() implies !occurs_at(dm + name, om, i) by {
            if occurs_at(dm + name, om, i) {
                assert((dm + name).subrange(i, i + 6)[0] == om[0]);
                assert((dm + name).subrange(i, i + 6)[3] == om[3]);
            }
        }
        lemma_remove_after_prefix(dm, name, om);
        lemma_remove_absent(name, om);
        assert(line.take(6) =~= dm);
        assert(line.skip(6) =~= name);
        lemma_remove_absent(name, dm);
    } else {
        assert forall|i: int| !occurs_at(line, check_mark(), i) by {
            if occurs_at(line, check_mark(), i) {
                let w = line.subrange(i, i + 3);
                assert(w[0] == '[' && w[1] == 'x');
                if i >= 6 {
                    assert(name.subrange(i - 6, i - 3) =~= w);
                    assert(occurs_at(name, check_mark(), i - 6));
                }
            }
        }
        assert(line.take(6) =~= om);
        assert(line.skip(6) =~= name);
        lemma_remove_absent(name, om);
        lemma_remove_absent(name, dm);
    }
    assert forall|i: int| 0 <= i < line.len() implies line[i] != '\n' by {
        if i >= 6 {
            assert(line[i] == name[i - 6]);
        }
    }
}

/// Reading back the text of a log gives the log that was written, header
/// counters included, when its key is a plain line and every item is
/// storable; writing that out again gives the same text.
pub proof fn lemma_log_round_trip(key: Seq<char>, done_count: u32, size: u32, items: Seq<Entry>)
    requires
        plain_line(key),
        forall|i: int| 0 <= i < items.len() ==> storable(#[trigger] items[i]),
    ensures
        parse_log(log_text(key, done_count, size, items)) == Some((key, done_count, size, items)),
        ({
            let (k, d, s, its) = parse_log(log_text(key, done_count, size, items)).unwrap();
            log_text(k, d, s, its) == log_text(key, done_count, size, items)
        }),
{
    let lines = items.map_values(|e: Entry| item_line(e));
    let ls = seq![key, header_line(done_count, size)] + lines;
    lemma_parse_header(done_count, size);
    assert forall|k: int| 0 <= k < ls.len() implies plain_line(#[trigger] ls[k]) by {
        if k >= 2 {
            lemma_item_round_trip(items[k - 2]);
        }
    }
    lemma_lines_of_join(ls);
    assert(ls.skip(2) =~= lines);
    assert forall|k: int| 0 <= k < items.len() implies item_of_line(lines[k]) == items[k] by {
        lemma_item_round_trip(items[k]);
    }
    assert(lines.map_values(|l: Seq<char>| item_of_line(l)) =~= items);
}

} // verus!

verus! {

/// One listed item: its number, `). `, its name, a newline.
pub open spec fn listed(n: nat, name: Seq<char>) -> Seq<char> {
    decimal(n) + seq![')', '.', ' '] + name + seq!['\n']
}

/// The items of `s` whose done flag is `done`, each under its ordinal.
pub open spec fn section(s: Seq<Entry>, done: bool) -> Seq<char>
    decreases s.len(),
{
    if s.len() == 0 {
        Seq::empty()
    } else {
        section(s.drop_last(), done) + if s.last().1 == done {
            listed((s.len() - 1) as nat, s.last().0)
        } else {
            Seq::empty()
        }
    }
}

/// The heading of the open items.
pub open spec fn todo_heading() -> Seq<char> {
    seq!['\n', 'T', 'o', 'd', 'o', '\n']
}

/// The heading of the done items.
pub open spec fn done_heading() -> Seq<char> {
    seq!['\n', 'D', 'o', 'n', 'e', '\n']
}

/// A day's items as shown: the open ones, then the done ones, each under
/// its ordinal.
pub open spec fn rendered(s: Seq<Entry>) -> Seq<char> {
    todo_heading() + section(s, false) + done_heading() + section(s, true)
}

/// The names of the items of `s` whose done flag is `done`, in order.
pub open spec fn picked(s: Seq<Entry>, done: bool) -> Seq<Seq<char>>
    decreases s.len(),
{
    if s.len() == 0 {
        Seq::empty()
    } else if s.last().1 == done {
        picked(s.drop_last(), done).push(s.last().0)
    } else {
        picked(s.drop_last(), done)
    }
}

/// The names listed under the numbers 0, 1, 2, ...
pub open spec fn numbered(names: Seq<Seq<char>>) -> Seq<char>
    decreases names.len(),
{
    if names.len() == 0 {
        Seq::empty()
    } else {
        numbered(names.drop_last()) + listed((names.len() - 1) as nat, names.last())
    }
}

/// The items of several days one after the other.
pub open spec fn concat_all(days: Seq<Seq<Entry>>) -> Seq<Entry>
    decreases days.len(),
{
    if days.len() == 0 {
        Seq::empty()
    } else {
        concat_all(days.drop_last()) + days.last()
    }
}

/// Several days' items as one view: first the open items of all days,
/// then the done ones, each part numbered afresh from 0.
pub open spec fn rendered_merged(days: Seq<Seq<Entry>>) -> Seq<char> {
    todo_heading() + numbered(picked(concat_all(days), false)) + done_heading() + numbered(
        picked(concat_all(days), true),
    )
}

} // verus!
