//! Reading the two-line schedule: a timestamp, then a comma-separated list
//! of bus periods in which `x` (or anything else that is no number) marks an
//! unused slot.
use vstd::prelude::*;
use vstd::string::StringSliceAdditionalSpecFns;

verus! {

/// One bus: it departs at every multiple of `period`, and its place in the
/// list (unused slots counted) is `offset`.
#[derive(Clone, Copy, Debug, PartialEq, Eq, Structural)]
pub struct Bus {
    pub period: u64,
    pub offset: u64,
}

impl Bus {
    /// A bus that departs at all: its period is positive.
    pub open spec fn wf(self) -> bool {
        self.period > 0
    }
}

/// What can go wrong in reading or solving a schedule.
#[derive(Clone, Copy, Debug, PartialEq, Eq, Structural)]
pub enum ScheduleError {
    /// A line is missing, or the timestamp is not a number.
    MalformedInput,
    /// The search for a common departure found none.
    NoSolutionFound,
}

/// An ASCII decimal digit.
pub open spec fn is_digit(c: u8) -> bool {
    48 <= c <= 57
}

/// The value of a string of decimal digits.
pub open spec fn decimal_value(t: Seq<u8>) -> int
    decreases t.len(),
{
    if t.len() == 0 {
        0
    } else {
        decimal_value(t.drop_last()) * 10 + (t.last() - 48)
    }
}

/// The number that `t` spells: one or more decimal digits, of a value that
/// fits in 64 bits.
pub open spec fn number_of(t: Seq<u8>) -> Option<u64> {
    if t.len() > 0 && (forall|i: int| 0 <= i < t.len() ==> is_digit(#[trigger] t[i]))
        && decimal_value(t) <= u64::MAX {
        Some(decimal_value(t) as u64)
    } else {
        None
    }
}

/// The first position at or after `from` that holds a line feed, or the end.
pub open spec fn next_newline(s: Seq<u8>, from: int) -> int
    decreases s.len() - from,
{
    if from >= s.len() {
        s.len() as int
    } else if s[from] == 10 {
        from
    } else {
        next_newline(s, from + 1)
    }
}

/// Where the text of the line that starts at `start` ends: before its line
/// feed, and before a carriage return that comes just ahead of that feed.
pub open spec fn line_text_end(s: Seq<u8>, start: int) -> int {
    let e = next_newline(s, start);
    if e < s.len() && e > start && s[e - 1] == 13 {
        e - 1
    } else {
        e
    }
}

/// The text of the first line.
pub open spec fn first_line(s: Seq<u8>) -> Seq<u8> {
    s.subrange(0, line_text_end(s, 0))
}

/// A second line exists when something follows the first line feed.
pub open spec fn has_second_line(s: Seq<u8>) -> bool {
    next_newline(s, 0) + 1 < s.len()
}

/// The text of the second line.
pub open spec fn second_line(s: Seq<u8>) -> Seq<u8> {
    let start = next_newline(s, 0) + 1;
    s.subrange(start, line_text_end(s, start))
}

/// The pieces of `t` between commas, in order; an empty `t` is one empty piece.
pub open spec fn split_commas(t: Seq<u8>) -> Seq<Seq<u8>>
    decreases t.len(),
{
    if t.len() == 0 {
        seq![Seq::empty()]
    } else {
        let prev = split_commas(t.drop_last());
        if t.last() == 44 {
            prev.push(Seq::empty())
        } else {
            prev.update(prev.len() - 1, prev.last().push(t.last()))
        }
    }
}

/// The buses that a list of slots names: one for each slot that spells a
/// positive number, with the slot's position as its offset.
pub open spec fn buses_of(toks: Seq<Seq<u8>>) -> Seq<Bus>
    decreases toks.len(),
{
    if toks.len() == 0 {
        Seq::empty()
    } else {
        let prev = buses_of(toks.drop_last());
        match number_of(toks.last()) {
            Some(d) => if d > 0 {
                prev.push(Bus { period: d, offset: (toks.len() - 1) as u64 })
            } else {
                prev
            },
            None => prev,
        }
    }
}

/// Whether the input has a numeric first line and a second line.
pub open spec fn input_ok(s: Seq<u8>) -> bool {
    number_of(first_line(s)) is Some && has_second_line(s)
}

/// The timestamp that the first line spells.
pub open spec fn timestamp_of(s: Seq<u8>) -> u64 {
    number_of(first_line(s))->Some_0
}

/// The buses that the second line names.
pub open spec fn schedule_of(s: Seq<u8>) -> Seq<Bus> {
    buses_of(split_commas(second_line(s)))
}

proof fn lemma_buses_wf(toks: Seq<Seq<u8>>)
    ensures
        forall|i: int| 0 <= i < buses_of(toks).len() ==> (#[trigger] buses_of(toks)[i]).wf(),
    decreases toks.len(),
{
    if toks.len() > 0 {
        lemma_buses_wf(toks.drop_last());
        let prev = buses_of(toks.drop_last());
        assert forall|i: int| 0 <= i < buses_of(toks).len() implies (#[trigger] buses_of(toks)[i]).wf() by {
            if i < prev.len() {
                assert(buses_of(toks)[i] == prev[i]);
            }
        }
    }
}

/// The number that `b[start..end]` spells.
fn parse_number(b: &[u8], start: usize, end: usize) -> (r: Option<u64>)
    requires
        start <= end <= b@.len(),
    ensures
        r == number_of(b@.subrange(start as int, end as int)),
{
    let ghost t = b@.subrange(start as int, end as int);
    let mut acc: u64 = 0;
    let mut too_big = false;
    let mut i: usize = start;
    while i < end
        invariant
            start <= i <= end <= b@.len(),
            t == b@.subrange(start as int, end as int),
            forall|k: int| 0 <= k < i - start ==> is_digit(#[trigger] t[k]),
            !too_big ==> acc == decimal_value(t.subrange(0, i - start)),
            too_big ==> decimal_value(t.subrange(0, i - start)) > u64::MAX,
        decreases end - i,
    {
        let c = b[i];
        if c < 48 || c > 57 {
            assert(!is_digit(t[i - start]));
            return None;
        }
        let ghost pre = t.subrange(0, i - start);
        let ghost next = t.subrange(0, i + 1 - start);
        assert(next.drop_last() =~= pre);
        assert(next.last() == c);
        let d = (c - 48) as u64;
        if !too_big {
            if acc > (u64::MAX - d) / 10 {
                too_big = true;
                assert(acc * 10 + d > u64::MAX) by (nonlinear_arith)
                    requires acc > (u64::MAX - d) / 10, d <= 9;
            } else {
                assert(acc * 10 + d <= u64::MAX) by (nonlinear_arith)
                    requires acc <= (u64::MAX - d) / 10, d <= 9;
                acc = acc * 10 + d;
            }
        } else {
            assert(decimal_value(pre) * 10 + d > u64::MAX) by (nonlinear_arith)
                requires decimal_value(pre) > u64::MAX, d >= 0;
        }
        i = i + 1;
    }
    assert(t.subrange(0, i - start) =~= t);
    if too_big || i == start {
        None
    } else {
        Some(acc)
    }
}

/// The first position at or after `from` that holds a line feed, or the end.
fn find_newline(b: &[u8], from: usize) -> (r: usize)
    requires
        from <= b@.len(),
    ensures
        r == next_newline(b@, from as int),
        from <= r <= b@.len(),
{
    let mut i: usize = from;
    while i < b.len()
        invariant
            from <= i <= b@.len(),
            next_newline(b@, from as int) == next_newline(b@, i as int),
        decreases b@.len() - i,
    {
        if b[i] == 10 {
            return i;
        }
        i = i + 1;
    }
    i
}

/// Where the text of the line that starts at `start` ends.
fn find_line_text_end(b: &[u8], start: usize) -> (r: usize)
    requires
        start <= b@.len(),
    ensures
        r == line_text_end(b@, start as int),
        start <= r <= b@.len(),
{
    let e = find_newline(b, start);
    if e < b.len() && e > start && b[e - 1] == 13 {
        e - 1
    } else {
        e
    }
}

/// The buses that the slots of `b[start..end]` name.
fn read_buses(b: &[u8], start: usize, end: usize) -> (r: Vec<Bus>)
    requires
        start <= end <= b@.len(),
    ensures
        r@ == buses_of(split_commas(b@.subrange(start as int, end as int))),
{
    let ghost line = b@.subrange(start as int, end as int);
    let ghost mut done: Seq<Seq<u8>> = Seq::empty();
    let mut out: Vec<Bus> = Vec::new();
    let mut slot: u64 = 0;
    let mut tok_start: usize = start;
    let mut i: usize = start;
    assert(line.subrange(0, 0) =~= Seq::<u8>::empty());
    assert(b@.subrange(start as int, start as int) =~= Seq::<u8>::empty());
    assert(done.push(Seq::<u8>::empty()) =~= seq![Seq::<u8>::empty()]);
    while i < end
        invariant
            start <= tok_start <= i <= end <= b@.len(),
            line == b@.subrange(start as int, end as int),
            split_commas(line.subrange(0, i - start)) == done.push(
                b@.subrange(tok_start as int, i as int),
            ),
            slot == done.len(),
            done.len() <= i - start,
            out@ == buses_of(done),
        decreases end - i,
    {
        let ghost pre = line.subrange(0, i - start);
        let ghost next = line.subrange(0, i + 1 - start);
        assert(next.drop_last() =~= pre);
        assert(next.last() == b@[i as int]);
        if b[i] == 44 {
            let n = parse_number(b, tok_start, i);
            let ghost cur = b@.subrange(tok_start as int, i as int);
            let ghost done2 = done.push(cur);
            assert(done2.drop_last() =~= done);
            match n {
                Some(d) => {
                    if d > 0 {
                        out.push(Bus { period: d, offset: slot });
                    }
                },
                None => {},
            }
            proof {
                done = done2;
            }
            slot = slot + 1;
            tok_start = i + 1;
            assert(b@.subrange(tok_start as int, i + 1) =~= Seq::<u8>::empty());
        } else {
            let ghost cur = b@.subrange(tok_start as int, i as int);
            assert(b@.subrange(tok_start as int, i + 1) =~= cur.push(b@[i as int]));
            assert(done.push(cur).update(done.len() as int, cur.push(b@[i as int])) =~= done.push(
                b@.subrange(tok_start as int, i + 1),
            ));
        }
        i = i + 1;
    }
    assert(line.subrange(0, i - start) =~= line);
    let n = parse_number(b, tok_start, end);
    let ghost cur = b@.subrange(tok_start as int, end as int);
    let ghost all = done.push(cur);
    assert(all.drop_last() =~= done);
    match n {
        Some(d) => {
            if d > 0 {
                out.push(Bus { period: d, offset: slot });
            }
        },
        None => {},
    }
    out
}

/// Reads a schedule: the timestamp on the first line, and the buses of the
/// second line in their order.
pub fn read_input(input: &str) -> (r: Result<(u64, Vec<Bus>), ScheduleError>)
    ensures
        match r {
            Ok((ts, buses)) => {
                &&& input_ok(input.spec_bytes())
                &&& ts == timestamp_of(input.spec_bytes())
                &&& buses@ == schedule_of(input.spec_bytes())
            },
            Err(e) => !input_ok(input.spec_bytes()) && e == ScheduleError::MalformedInput,
        },
        r is Ok ==> forall|i: int| 0 <= i < r->Ok_0.1@.len() ==> (#[trigger] r->Ok_0.1@[i]).wf(),
{
    let b = input.as_bytes();
    let e0 = find_line_text_end(b, 0);
    let ts = match parse_number(b, 0, e0) {
        Some(v) => v,
        None => {
            return Err(ScheduleError::MalformedInput);
        },
    };
    let nl = find_newline(b, 0);
    if nl >= b.len() || nl + 1 >= b.len() {
        return Err(ScheduleError::MalformedInput);
    }
    let ls = nl + 1;
    let le = find_line_text_end(b, ls);
    let buses = read_buses(b, ls, le);
    proof {
        lemma_buses_wf(split_commas(b@.subrange(ls as int, le as int)));
    }
    Ok((ts, buses))
}

} // verus!
