//! The line word counter: one source in, one ordered run of counts out.
//!
//! Given one identifier and the text of one source, it emits one
//! (identifier, count) item per line of the text, in the order the lines
//! stand in the source.

use vstd::prelude::*;

use crate::lines::lines_of;
use crate::lines::split_lines;
use crate::words::count_words;
use crate::words::word_count;

verus! {

/// The word counts of the lines of `text`, one per line, in line order.
pub open spec fn line_counts(text: Seq<char>) -> Seq<nat> {
    lines_of(text).map_values(|l: Seq<char>| word_count(l))
}

/// The (identifier, count) items that one source contributes: one item
/// per line of its text, in line order, each carrying the source's
/// identifier.
pub open spec fn line_items(id: Seq<char>, text: Seq<char>) -> Seq<(Seq<char>, nat)> {
    lines_of(text).map_values(|l: Seq<char>| (id, word_count(l)))
}

/// Count the words on every line of one source, pairing each per-line
/// count with the source's identifier. One item per line, in the order
/// the lines stand in `text`.
pub fn count_line_words(id: &str, text: &str) -> (r: Vec<(String, usize)>)
    ensures
        r@.map_values(|p: (String, usize)| (p.0@, p.1 as nat)) == line_items(id@, text@),
{
    let lines = split_lines(text);
    let mut out: Vec<(String, usize)> = Vec::new();
    let mut i: usize = 0;
    proof {
        assert(out@.map_values(|p: (String, usize)| (p.0@, p.1 as nat)) =~= line_items(
            id@,
            text@,
        ).take(0));
    }
    while i < lines.len()
        invariant
            lines@.map_values(|l: String| l@) == lines_of(text@),
            i <= lines@.len(),
            out@.map_values(|p: (String, usize)| (p.0@, p.1 as nat)) == line_items(
                id@,
                text@,
            ).take(i as int),
        decreases lines@.len() - i,
    {
        let count = count_words(lines[i].as_str());
        let key = id.to_owned();
        proof {
            assert(lines@.map_values(|l: String| l@)[i as int] == lines_of(text@)[i as int]);
            assert(line_items(id@, text@)[i as int] == (id@, word_count(lines_of(text@)[i as int])));
            assert(out@.push((key, count)).map_values(|p: (String, usize)| (p.0@, p.1 as nat)) =~= out@.map_values(
                |p: (String, usize)| (p.0@, p.1 as nat),
            ).push((id@, count as nat)));
            assert(line_items(id@, text@).take(i as int + 1) =~= line_items(id@, text@).take(
                i as int,
            ).push(line_items(id@, text@)[i as int]));
        }
        out.push((key, count));
        i = i + 1;
    }
    proof {
        assert(line_items(id@, text@).take(lines@.len() as int) =~= line_items(id@, text@));
    }
    out
}

} // verus!
