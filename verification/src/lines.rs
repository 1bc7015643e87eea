//! Text cut into lines.
//!
//! A line ends with `\n`, which is not part of it, and neither is a `\r` that
//! stands directly before that `\n`. What follows the last `\n` is a line of
//! its own unless it is empty.

use vstd::prelude::*;
use crate::text::{from_chars, strings, to_chars};

verus! {

/// The index of the first `\n` in `t`, or the length of `t` if there is none.
pub open spec fn first_newline(t: Seq<char>) -> int
    decreases t.len(),
{
    if t.len() == 0 || t[0] == '\n' {
        0
    } else {
        1 + first_newline(t.drop_first())
    }
}

/// `l` without a final `\r`.
pub open spec fn without_return(l: Seq<char>) -> Seq<char> {
    if l.len() > 0 && l.last() == '\r' {
        l.drop_last()
    } else {
        l
    }
}

/// The lines of `t`, first to last.
pub open spec fn lines_of(t: Seq<char>) -> Seq<Seq<char>>
    decreases t.len(),
{
    let n = first_newline(t);
    if t.len() == 0 {
        Seq::empty()
    } else if 0 <= n < t.len() {
        seq![without_return(t.subrange(0, n))] + lines_of(t.subrange(n + 1, t.len() as int))
    } else {
        seq![t]
    }
}

/// `first_newline` is the one index that holds a `\n` with none before it.
pub proof fn lemma_first_newline(t: Seq<char>, n: int)
    requires
        0 <= n <= t.len(),
        forall|j: int| 0 <= j < n ==> t[j] != '\n',
        n < t.len() ==> t[n] == '\n',
    ensures
        first_newline(t) == n,
    decreases t.len(),
{
    if n > 0 {
        let rest = t.drop_first();
        assert forall|j: int| 0 <= j < n - 1 implies rest[j] != '\n' by {
            assert(rest[j] == t[j + 1]);
        }
        lemma_first_newline(rest, n - 1);
    }
}

/// No line holds a `\n`, and there are no more lines than characters.
pub proof fn lemma_lines_shape(t: Seq<char>)
    ensures
        lines_of(t).len() <= t.len(),
        forall|i: int, j: int|
            0 <= i < lines_of(t).len() && 0 <= j < lines_of(t)[i].len() ==> lines_of(t)[i][j]
                != '\n',
    decreases t.len(),
{
    let n = first_newline(t);
    lemma_first_newline_bounds(t);
    if t.len() > 0 && 0 <= n < t.len() {
        let rest = t.subrange(n + 1, t.len() as int);
        lemma_lines_shape(rest);
        let head = without_return(t.subrange(0, n));
        assert forall|i: int, j: int|
            0 <= i < lines_of(t).len() && 0 <= j < lines_of(t)[i].len() implies lines_of(t)[i][j]
            != '\n' by {
            if i == 0 {
                assert(lines_of(t)[0] == head);
                assert(head[j] == t[j]);
            } else {
                assert(lines_of(t)[i] == lines_of(rest)[i - 1]);
            }
        }
    }
}

/// `first_newline` stays within the text, and no `\n` stands before it.
pub proof fn lemma_first_newline_bounds(t: Seq<char>)
    ensures
        0 <= first_newline(t) <= t.len(),
        first_newline(t) < t.len() ==> t[first_newline(t)] == '\n',
        forall|j: int| 0 <= j < first_newline(t) ==> t[j] != '\n',
    decreases t.len(),
{
    if t.len() > 0 && t[0] != '\n' {
        let rest = t.drop_first();
        lemma_first_newline_bounds(rest);
        assert forall|j: int| 0 <= j < first_newline(t) implies t[j] != '\n' by {
            if j > 0 {
                assert(rest[j - 1] == t[j]);
            }
        }
    }
}

/// The lines of `text`.
pub fn split_lines(text: &str) -> (lines: Vec<String>)
    ensures
        strings(lines@) == lines_of(text@),
{
    let t = to_chars(text);
    let mut lines: Vec<String> = Vec::new();
    let mut start: usize = 0;
    let mut i: usize = 0;
    assert(t@.subrange(0, t@.len() as int) =~= t@);
    assert(strings(lines@) + lines_of(t@) =~= lines_of(t@));
    while i < t.len()
        invariant
            start <= i <= t.len(),
            forall|j: int| start <= j < i ==> t[j] != '\n',
            lines_of(t@) == strings(lines@) + lines_of(t@.subrange(start as int, t@.len() as int)),
        decreases t.len() - i,
    {
        if t[i] == '\n' {
            let end = if start < i && t[i - 1] == '\r' {
                i - 1
            } else {
                i
            };
            let line = from_chars(&t, start, end);
            proof {
                let rest = t@.subrange(start as int, t@.len() as int);
                lemma_first_newline(rest, i - start);
                assert(rest.subrange(0, i - start) =~= t@.subrange(start as int, i as int));
                assert(rest.subrange(i - start + 1, rest.len() as int) =~= t@.subrange(
                    i + 1,
                    t@.len() as int,
                ));
                assert(line@ =~= without_return(t@.subrange(start as int, i as int)));
                assert(strings(lines@.push(line)) =~= strings(lines@).push(line@));
                assert(strings(lines@) + (seq![line@] + lines_of(
                    t@.subrange(i + 1, t@.len() as int),
                )) =~= strings(lines@).push(line@) + lines_of(t@.subrange(i + 1, t@.len() as int)));
            }
            lines.push(line);
            start = i + 1;
        }
        i += 1;
    }
    if start < t.len() {
        let line = from_chars(&t, start, t.len());
        proof {
            let rest = t@.subrange(start as int, t@.len() as int);
            lemma_first_newline(rest, rest.len() as int);
            assert(strings(lines@.push(line)) =~= strings(lines@).push(line@));
            assert(strings(lines@) + seq![rest] =~= strings(lines@).push(rest));
        }
        lines.push(line);
    } else {
        assert(strings(lines@) + Seq::<Seq<char>>::empty() =~= strings(lines@));
    }
    lines
}

} // verus!
