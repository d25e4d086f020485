//! Splitting a text into its lines.
//!
//! A line ends at a newline character; a carriage return just before the
//! newline belongs to the line terminator and is dropped. Text after the
//! last newline forms a final line of its own, kept as it stands; text
//! that ends with a newline has no empty final line after it.

use vstd::prelude::*;

verus! {

/// Index of the first newline in `s`, or `s.len()` when `s` has none.
pub open spec fn first_nl(s: Seq<char>) -> nat
    decreases s.len(),
{
    if s.len() == 0 {
        0
    } else if s[0] == '\n' {
        0
    } else {
        1 + first_nl(s.drop_first())
    }
}

/// `first_nl` points at the first newline: it is in bounds, it finds a
/// newline when it is short of the length, and nothing before it is one.
pub proof fn lemma_first_nl(s: Seq<char>)
    ensures
        first_nl(s) <= s.len(),
        first_nl(s) < s.len() ==> s[first_nl(s) as int] == '\n',
        forall|j: int| 0 <= j < first_nl(s) ==> s[j] != '\n',
    decreases s.len(),
{
    if s.len() == 0 {
    } else if s[0] == '\n' {
    } else {
        lemma_first_nl(s.drop_first());
        assert forall|j: int| 0 <= j < first_nl(s) implies s[j] != '\n' by {
            if j > 0 {
                assert(s.drop_first()[j - 1] == s[j]);
            }
        }
        if first_nl(s) < s.len() {
            assert(s.drop_first()[first_nl(s) - 1] == s[first_nl(s) as int]);
        }
    }
}

/// The position with no newline before it that is a newline or the end
/// of `s` is exactly `first_nl(s)`.
pub proof fn lemma_first_nl_at(s: Seq<char>, i: int)
    requires
        0 <= i <= s.len(),
        forall|j: int| 0 <= j < i ==> s[j] != '\n',
        i < s.len() ==> s[i] == '\n',
    ensures
        first_nl(s) == i,
{
    lemma_first_nl(s);
    if first_nl(s) < i {
        assert(s[first_nl(s) as int] != '\n');
    }
    if i < first_nl(s) {
        assert(s[i] != '\n');
    }
}

/// A line as read from the text: a carriage return left at its end by a
/// carriage-return-newline terminator is dropped.
pub open spec fn strip_cr(l: Seq<char>) -> Seq<char> {
    if l.len() > 0 && l[l.len() - 1] == '\r' {
        l.drop_last()
    } else {
        l
    }
}

/// The lines of `s`, in the order they stand in `s`. Each newline ends a
/// line, whose trailing carriage return (if any) is dropped; text after
/// the last newline is a final line kept as it stands; empty text has no
/// lines.
pub open spec fn lines_of(s: Seq<char>) -> Seq<Seq<char>>
    decreases s.len(),
{
    if s.len() == 0 {
        Seq::empty()
    } else {
        let i = first_nl(s);
        if i < s.len() {
            seq![strip_cr(s.take(i as int))] + lines_of(s.skip(i as int + 1))
        } else {
            seq![s]
        }
    }
}

/// Appending one newline-terminated line to a text that is empty or ends
/// with a newline appends exactly one line to its line sequence.
pub proof fn lemma_lines_of_push_line(p: Seq<char>, l: Seq<char>)
    requires
        p.len() == 0 || p[p.len() - 1] == '\n',
        forall|j: int| 0 <= j < l.len() ==> l[j] != '\n',
    ensures
        lines_of(p + l + seq!['\n']) == lines_of(p).push(strip_cr(l)),
    decreases p.len(),
{
    let s = p + l + seq!['\n'];
    if p.len() == 0 {
        assert forall|j: int| 0 <= j < l.len() implies s[j] != '\n' by {
            assert(s[j] == l[j]);
        }
        assert(s.len() == l.len() + 1);
        assert(s[l.len() as int] == '\n');
        lemma_first_nl_at(s, l.len() as int);
        assert(s.take(l.len() as int) =~= l);
        assert(s.skip(l.len() as int + 1) =~= Seq::<char>::empty());
        assert(lines_of(s) == seq![strip_cr(s.take(l.len() as int))] + lines_of(
            s.skip(l.len() as int + 1),
        ));
        assert(lines_of(s) =~= lines_of(p).push(strip_cr(l)));
    } else {
        lemma_first_nl(p);
        let i = first_nl(p) as int;
        assert(p[p.len() - 1] == '\n');
        assert(i < p.len()) by {
            if i == p.len() {
                assert(p[p.len() - 1] != '\n');
            }
        }
        assert forall|j: int| 0 <= j < i implies s[j] != '\n' by {
            assert(s[j] == p[j]);
        }
        assert(s[i] == p[i]);
        lemma_first_nl_at(s, i);
        assert(s.take(i) =~= p.take(i));
        assert(s.skip(i + 1) =~= p.skip(i + 1) + l + seq!['\n']);
        let ps = p.skip(i + 1);
        assert(ps.len() == 0 || ps[ps.len() - 1] == '\n') by {
            if ps.len() > 0 {
                assert(ps[ps.len() - 1] == p[p.len() - 1]);
            }
        }
        lemma_lines_of_push_line(ps, l);
        assert(lines_of(s) == seq![strip_cr(s.take(i))] + lines_of(s.skip(i + 1)));
        assert(lines_of(p) == seq![strip_cr(p.take(i))] + lines_of(ps));
        assert(seq![strip_cr(p.take(i))] + lines_of(ps).push(strip_cr(l)) =~= (
        seq![strip_cr(p.take(i))] + lines_of(ps)).push(strip_cr(l)));
    }
}

/// Appending a final segment without a newline to a text that is empty or
/// ends with a newline appends exactly that segment as one more line.
pub proof fn lemma_lines_of_push_tail(p: Seq<char>, l: Seq<char>)
    requires
        p.len() == 0 || p[p.len() - 1] == '\n',
        l.len() > 0,
        forall|j: int| 0 <= j < l.len() ==> l[j] != '\n',
    ensures
        lines_of(p + l) == lines_of(p).push(l),
    decreases p.len(),
{
    let s = p + l;
    if p.len() == 0 {
        assert(s =~= l);
        lemma_first_nl_at(l, l.len() as int);
        assert(lines_of(s) =~= lines_of(p).push(l));
    } else {
        lemma_first_nl(p);
        let i = first_nl(p) as int;
        assert(i < p.len()) by {
            if i == p.len() {
                assert(p[p.len() - 1] != '\n');
            }
        }
        assert forall|j: int| 0 <= j < i implies s[j] != '\n' by {
            assert(s[j] == p[j]);
        }
        assert(s[i] == p[i]);
        lemma_first_nl_at(s, i);
        assert(s.take(i) =~= p.take(i));
        assert(s.skip(i + 1) =~= p.skip(i + 1) + l);
        let ps = p.skip(i + 1);
        assert(ps.len() == 0 || ps[ps.len() - 1] == '\n') by {
            if ps.len() > 0 {
                assert(ps[ps.len() - 1] == p[p.len() - 1]);
            }
        }
        lemma_lines_of_push_tail(ps, l);
        assert(lines_of(s) == seq![strip_cr(s.take(i))] + lines_of(s.skip(i + 1)));
        assert(lines_of(p) == seq![strip_cr(p.take(i))] + lines_of(ps));
        assert(seq![strip_cr(p.take(i))] + lines_of(ps).push(l) =~= (seq![strip_cr(p.take(i))]
            + lines_of(ps)).push(l));
    }
}

/// Split a text into its lines, in order: each newline ends a line, a
/// carriage return just before a newline is dropped, and text after the
/// last newline is a final line of its own.
pub fn split_lines(text: &str) -> (r: Vec<String>)
    ensures
        r@.map_values(|l: String| l@) == lines_of(text@),
{
    let n = text.unicode_len();
    let mut out: Vec<String> = Vec::new();
    let mut start: usize = 0;
    let mut i: usize = 0;
    proof {
        assert(text@.take(0) =~= Seq::<char>::empty());
        assert(out@.map_values(|l: String| l@) =~= lines_of(text@.take(0)));
    }
    while i < n
        invariant
            n as nat == text@.len(),
            start <= i <= n,
            start == 0 || text@[start - 1] == '\n',
            forall|j: int| start <= j < i ==> text@[j] != '\n',
            out@.map_values(|l: String| l@) == lines_of(text@.take(start as int)),
        decreases n - i,
    {
        let c = text.get_char(i);
        if c == '\n' {
            let end: usize = if i > start && text.get_char(i - 1) == '\r' {
                i - 1
            } else {
                i
            };
            let line = text.substring_char(start, end).to_owned();
            proof {
                let seg = text@.subrange(start as int, i as int);
                assert(line@ == strip_cr(seg)) by {
                    if i > start && text@[i - 1] == '\r' {
                        assert(seg[seg.len() - 1] == text@[i - 1]);
                        assert(seg.drop_last() =~= text@.subrange(start as int, i as int - 1));
                    }
                }
                assert forall|j: int| 0 <= j < seg.len() implies seg[j] != '\n' by {
                    assert(seg[j] == text@[start + j]);
                }
                lemma_lines_of_push_line(text@.take(start as int), seg);
                assert(text@.take(start as int) + seg + seq!['\n'] =~= text@.take(i as int + 1));
                assert(out@.push(line).map_values(|l: String| l@) =~= out@.map_values(
                    |l: String| l@,
                ).push(line@));
            }
            out.push(line);
            start = i + 1;
        }
        i = i + 1;
    }
    if start < n {
        let line = text.substring_char(start, n).to_owned();
        proof {
            let seg = text@.subrange(start as int, n as int);
            assert forall|j: int| 0 <= j < seg.len() implies seg[j] != '\n' by {
                assert(seg[j] == text@[start + j]);
            }
            lemma_lines_of_push_tail(text@.take(start as int), seg);
            assert(text@.take(start as int) + seg =~= text@);
            assert(out@.push(line).map_values(|l: String| l@) =~= out@.map_values(
                |l: String| l@,
            ).push(line@));
        }
        out.push(line);
    } else {
        proof {
            assert(text@.take(start as int) =~= text@);
        }
    }
    out
}

} // verus!
