//! Counting the words on one line.
//!
//! A word is a maximal run of non-whitespace characters; splitting a line
//! on runs of whitespace and discarding empty tokens yields exactly those
//! runs. An empty or all-whitespace line holds no word at all.

use vstd::prelude::*;

verus! {

/// The whitespace characters that separate words: the Unicode
/// `White_Space` set, the same set that splitting on whitespace uses.
pub open spec fn is_space(c: char) -> bool {
    ||| c == '\u{9}'
    ||| c == '\u{A}'
    ||| c == '\u{B}'
    ||| c == '\u{C}'
    ||| c == '\u{D}'
    ||| c == ' '
    ||| c == '\u{85}'
    ||| c == '\u{A0}'
    ||| c == '\u{1680}'
    ||| c == '\u{2000}'
    ||| c == '\u{2001}'
    ||| c == '\u{2002}'
    ||| c == '\u{2003}'
    ||| c == '\u{2004}'
    ||| c == '\u{2005}'
    ||| c == '\u{2006}'
    ||| c == '\u{2007}'
    ||| c == '\u{2008}'
    ||| c == '\u{2009}'
    ||| c == '\u{200A}'
    ||| c == '\u{2028}'
    ||| c == '\u{2029}'
    ||| c == '\u{202F}'
    ||| c == '\u{205F}'
    ||| c == '\u{3000}'
}

/// The number of maximal non-whitespace runs in `s`, given whether the
/// character just before `s` was whitespace (or the start of the line).
/// A run is counted at its first character: a non-whitespace character
/// whose predecessor is whitespace or the start of the line.
pub open spec fn word_count_from(s: Seq<char>, prev_space: bool) -> nat
    decreases s.len(),
{
    if s.len() == 0 {
        0
    } else {
        (if prev_space && !is_space(s[0]) {
            1nat
        } else {
            0nat
        }) + word_count_from(s.drop_first(), is_space(s[0]))
    }
}

/// The number of words on the line `s`: the number of maximal runs of
/// non-whitespace characters in `s`.
pub open spec fn word_count(s: Seq<char>) -> nat {
    word_count_from(s, true)
}

/// An empty or all-whitespace line holds no word.
pub proof fn lemma_word_count_all_space(s: Seq<char>, prev_space: bool)
    requires
        forall|i: int| 0 <= i < s.len() ==> is_space(#[trigger] s[i]),
    ensures
        word_count_from(s, prev_space) == 0,
    decreases s.len(),
{
    if s.len() > 0 {
        lemma_word_count_all_space(s.drop_first(), is_space(s[0]));
    }
}

/// Whether `c` is one of the whitespace characters that separate words.
pub fn is_space_char(c: char) -> (r: bool)
    ensures
        r == is_space(c),
{
    c == '\u{9}' || c == '\u{A}' || c == '\u{B}' || c == '\u{C}' || c == '\u{D}' || c == ' '
        || c == '\u{85}' || c == '\u{A0}' || c == '\u{1680}' || c == '\u{2000}' || c == '\u{2001}'
        || c == '\u{2002}' || c == '\u{2003}' || c == '\u{2004}' || c == '\u{2005}'
        || c == '\u{2006}' || c == '\u{2007}' || c == '\u{2008}' || c == '\u{2009}'
        || c == '\u{200A}' || c == '\u{2028}' || c == '\u{2029}' || c == '\u{202F}'
        || c == '\u{205F}' || c == '\u{3000}'
}

/// Whether two pieces of text hold the same characters.
pub fn str_eq(a: &str, b: &str) -> (r: bool)
    ensures
        r == (a@ == b@),
{
    let la = a.unicode_len();
    let lb = b.unicode_len();
    if la != lb {
        return false;
    }
    let mut i: usize = 0;
    while i < la
        invariant
            la as nat == a@.len(),
            lb as nat == b@.len(),
            la == lb,
            i <= la,
            forall|j: int| 0 <= j < i ==> a@[j] == b@[j],
        decreases la - i,
    {
        if a.get_char(i) != b.get_char(i) {
            return false;
        }
        i = i + 1;
    }
    proof {
        assert(a@ =~= b@);
    }
    true
}

/// Count the words on one line: the number of maximal whitespace-separated
/// tokens, with an all-whitespace or empty line counting zero.
pub fn count_words(line: &str) -> (count: usize)
    ensures
        count as nat == word_count(line@),
{
    let n = line.unicode_len();
    let mut count: usize = 0;
    let mut prev_space = true;
    let mut i: usize = 0;
    proof {
        assert(line@.skip(0) =~= line@);
    }
    while i < n
        invariant
            n as nat == line@.len(),
            i <= n,
            count <= i,
            word_count(line@) == count + word_count_from(line@.skip(i as int), prev_space),
        decreases n - i,
    {
        let c = line.get_char(i);
        proof {
            assert(line@.skip(i as int).len() > 0);
            assert(line@.skip(i as int)[0] == c);
            assert(line@.skip(i as int).drop_first() =~= line@.skip(i as int + 1));
        }
        if !is_space_char(c) {
            if prev_space {
                count = count + 1;
            }
            prev_space = false;
        } else {
            prev_space = true;
        }
        i = i + 1;
    }
    proof {
        assert(line@.skip(n as int) =~= Seq::<char>::empty());
    }
    count
}



} // verus!
