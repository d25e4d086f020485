//! Extension traits over collections of named text sources.
//!
//! Each trait adds the aggregation as a method on the collection itself,
//! as a convenience over calling the aggregator directly.

use vstd::prelude::*;

use crate::aggregate::concurrent_spec;
use crate::aggregate::sources_view;
use crate::aggregate::WordCountMap;

verus! {

/// Extension for a collection of text sources bound to string
/// identifiers: file contents under their paths, or any named readable
/// text.
pub trait FileProcessorStreamExt: Sized {
    /// The (identifier, text) pairs the collection supplies, in order.
    spec fn sources(&self) -> Seq<(Seq<char>, Seq<char>)>;

    /// Count the words on every line of every source and fold the
    /// counts into a mapping from each identifier to the word counts of
    /// its lines, in line order.
    fn count_line_words_concurrent(self) -> (r: WordCountMap)
        ensures
            r.wf(),
            r@ == concurrent_spec(self.sources()),
    ;
}

impl FileProcessorStreamExt for Vec<(String, String)> {
    open spec fn sources(&self) -> Seq<(Seq<char>, Seq<char>)> {
        sources_view(self@)
    }

    fn count_line_words_concurrent(self) -> (r: WordCountMap) {
        crate::aggregate::count_line_words_concurrent(&self)
    }
}

/// Extension for a stream of string-identified text sources, under the
/// name it carries where the sources are not files: network identifiers,
/// in-memory buffers, or any other named text.
pub trait StringMultiStreamExt: Sized {
    /// The (identifier, text) pairs the stream supplies, in order.
    spec fn stream_sources(&self) -> Seq<(Seq<char>, Seq<char>)>;

    /// Count the words on every line of every source and fold the
    /// counts into a mapping from each identifier to the word counts of
    /// its lines, in line order.
    fn count_line_words_concurrent(self) -> (r: WordCountMap)
        ensures
            r.wf(),
            r@ == concurrent_spec(self.stream_sources()),
    ;
}

impl StringMultiStreamExt for Vec<(String, String)> {
    open spec fn stream_sources(&self) -> Seq<(Seq<char>, Seq<char>)> {
        sources_view(self@)
    }

    fn count_line_words_concurrent(self) -> (r: WordCountMap) {
        crate::aggregate::count_line_words_concurrent(&self)
    }
}

} // verus!
