//! The concurrent aggregator's fold: merging (identifier, count) items
//! into a mapping from identifier to the ordered counts for that
//! identifier.
//!
//! Items from different sources may arrive in any interleaving; the fold
//! appends each arriving count to the entry of its identifier, creating
//! the entry on first sight. Whatever the interleaving, the entry of an
//! identifier holds exactly the counts of the items that carried it, in
//! arrival order; items of one source arrive in line order, so a source
//! with an identifier of its own keeps its line order in the result.
//!
//! Decode failures never reach the fold: a source is handed over as
//! already-decoded text, and a source that cannot be opened or decoded is
//! dropped at the boundary before aggregation, so it is simply absent
//! here.

use vstd::prelude::*;

use crate::counter::count_line_words;
use crate::counter::line_items;
use crate::words::str_eq;

verus! {

/// The counts of the items of `items` that carry the identifier `id`,
/// in arrival order.
pub open spec fn counts_for(items: Seq<(Seq<char>, nat)>, id: Seq<char>) -> Seq<nat> {
    items.filter(|it: (Seq<char>, nat)| it.0 == id).map_values(|it: (Seq<char>, nat)| it.1)
}

/// Whether some item of `items` carries the identifier `id`.
pub open spec fn has_id(items: Seq<(Seq<char>, nat)>, id: Seq<char>) -> bool {
    exists|j: int| 0 <= j < items.len() && (#[trigger] items[j]).0 == id
}

/// The mapping that folding `items` yields: one key per identifier seen,
/// holding the counts that arrived under it, in arrival order.
pub open spec fn aggregate_spec(items: Seq<(Seq<char>, nat)>) -> Map<Seq<char>, Seq<nat>> {
    Map::new(|id: Seq<char>| has_id(items, id), |id: Seq<char>| counts_for(items, id))
}

/// One more arriving item appends its count to the counts of its own
/// identifier and leaves every other identifier's counts as they were.
pub proof fn lemma_counts_for_push(items: Seq<(Seq<char>, nat)>, it: (Seq<char>, nat), id: Seq<char>)
    ensures
        counts_for(items.push(it), id) == (if it.0 == id {
            counts_for(items, id).push(it.1)
        } else {
            counts_for(items, id)
        }),
{
    reveal(Seq::filter);
    let pred = |x: (Seq<char>, nat)| x.0 == id;
    assert(items.push(it).drop_last() =~= items);
    assert(items.push(it).last() == it);
    if it.0 == id {
        assert(items.push(it).filter(pred) == items.filter(pred).push(it));
        assert(items.filter(pred).push(it).map_values(|x: (Seq<char>, nat)| x.1) =~= items.filter(
            pred,
        ).map_values(|x: (Seq<char>, nat)| x.1).push(it.1));
    } else {
        assert(items.push(it).filter(pred) == items.filter(pred));
    }
}

/// An identifier has an entry exactly when some item carried it.
pub proof fn lemma_has_id_iff_counts(items: Seq<(Seq<char>, nat)>, id: Seq<char>)
    ensures
        has_id(items, id) <==> counts_for(items, id).len() > 0,
    decreases items.len(),
{
    reveal(Seq::filter);
    if items.len() == 0 {
        assert(counts_for(items, id) =~= Seq::<nat>::empty());
    } else {
        let dl = items.drop_last();
        lemma_has_id_iff_counts(dl, id);
        lemma_counts_for_push(dl, items.last(), id);
        assert(dl.push(items.last()) =~= items);
        assert(has_id(items, id) <==> (has_id(dl, id) || items.last().0 == id)) by {
            if has_id(items, id) {
                let j = choose|j: int| 0 <= j < items.len() && (#[trigger] items[j]).0 == id;
                if j < items.len() - 1 {
                    assert(dl[j].0 == id);
                }
            }
            if has_id(dl, id) {
                let j = choose|j: int| 0 <= j < dl.len() && (#[trigger] dl[j]).0 == id;
                assert(items[j].0 == id);
            }
            if items.last().0 == id {
                assert(items[items.len() - 1].0 == id);
            }
        }
    }
}

/// Folding in one more item updates the mapping at that item's
/// identifier alone: the count is appended to the counts already
/// gathered for it, an absent identifier starting from no counts.
pub proof fn lemma_aggregate_push(items: Seq<(Seq<char>, nat)>, it: (Seq<char>, nat))
    ensures
        aggregate_spec(items.push(it)) == aggregate_spec(items).insert(
            it.0,
            counts_for(items, it.0).push(it.1),
        ),
{
    let m1 = aggregate_spec(items.push(it));
    let m2 = aggregate_spec(items).insert(it.0, counts_for(items, it.0).push(it.1));
    assert forall|k: Seq<char>| m1.dom().contains(k) <==> m2.dom().contains(k) by {
        if has_id(items.push(it), k) {
            let j = choose|j: int|
                0 <= j < items.push(it).len() && (#[trigger] items.push(it)[j]).0 == k;
            if j < items.len() {
                assert(items[j].0 == k);
            }
        }
        if has_id(items, k) {
            let j = choose|j: int| 0 <= j < items.len() && (#[trigger] items[j]).0 == k;
            assert(items.push(it)[j].0 == k);
        }
        assert(items.push(it)[items.len() as int] == it);
    }
    assert forall|k: Seq<char>| m1.dom().contains(k) implies m1[k] == m2[k] by {
        lemma_counts_for_push(items, it, k);
    }
    assert(m1 =~= m2);
}

/// Folding no items at all yields the empty mapping.
pub proof fn lemma_aggregate_empty()
    ensures
        aggregate_spec(Seq::<(Seq<char>, nat)>::empty()) == Map::<Seq<char>, Seq<nat>>::empty(),
{
    assert(aggregate_spec(Seq::<(Seq<char>, nat)>::empty()) =~= Map::<Seq<char>, Seq<nat>>::empty());
}

/// No two entries share an identifier.
pub open spec fn distinct_keys(entries: Seq<(String, Vec<usize>)>) -> bool {
    forall|i: int, j: int|
        0 <= i < j < entries.len() ==> (#[trigger] entries[i]).0@ != (#[trigger] entries[j]).0@
}

/// Whether some entry holds the identifier `k`.
pub open spec fn has_key(entries: Seq<(String, Vec<usize>)>, k: Seq<char>) -> bool {
    exists|i: int| 0 <= i < entries.len() && (#[trigger] entries[i]).0@ == k
}

/// The position of the entry holding the identifier `k`.
pub open spec fn key_at(entries: Seq<(String, Vec<usize>)>, k: Seq<char>) -> int {
    choose|i: int| 0 <= i < entries.len() && (#[trigger] entries[i]).0@ == k
}

/// With distinct identifiers, the entry found for `k` is the one at any
/// position known to hold `k`.
proof fn lemma_key_at_is(entries: Seq<(String, Vec<usize>)>, k: Seq<char>, i: int)
    requires
        distinct_keys(entries),
        0 <= i < entries.len(),
        entries[i].0@ == k,
    ensures
        has_key(entries, k),
        key_at(entries, k) == i,
{
    assert(has_key(entries, k));
    let i0 = key_at(entries, k);
    assert(0 <= i0 < entries.len() && entries[i0].0@ == k);
    if i0 < i {
        assert(entries[i0].0@ != entries[i].0@);
    } else if i < i0 {
        assert(entries[i].0@ != entries[i0].0@);
    }
}

/// The Result Mapping under construction: one entry per identifier seen
/// so far, holding the counts that arrived under that identifier, in
/// arrival order.
pub struct WordCountMap {
    entries: Vec<(String, Vec<usize>)>,
}

impl View for WordCountMap {
    type V = Map<Seq<char>, Seq<nat>>;

    closed spec fn view(&self) -> Map<Seq<char>, Seq<nat>> {
        Map::new(
            |k: Seq<char>| has_key(self.entries@, k),
            |k: Seq<char>|
                self.entries@[key_at(self.entries@, k)].1@.map_values(|c: usize| c as nat),
        )
    }
}

impl WordCountMap {
    /// Each identifier owns at most one entry.
    pub closed spec fn wf(&self) -> bool {
        distinct_keys(self.entries@)
    }

    /// The empty mapping, from which every aggregation starts.
    pub fn new() -> (r: WordCountMap)
        ensures
            r.wf(),
            r@ == Map::<Seq<char>, Seq<nat>>::empty(),
    {
        let r = WordCountMap { entries: Vec::new() };
        proof {
            assert(r@ =~= Map::<Seq<char>, Seq<nat>>::empty());
        }
        r
    }

    /// The position of the entry for `id`, if one exists yet.
    fn find_index(&self, id: &str) -> (r: Option<usize>)
        ensures
            match r {
                Some(j) => j < self.entries@.len() && self.entries@[j as int].0@ == id@,
                None => !has_key(self.entries@, id@),
            },
    {
        let n = self.entries.len();
        let mut j: usize = 0;
        while j < n
            invariant
                n == self.entries@.len(),
                j <= n,
                forall|t: int| 0 <= t < j ==> (#[trigger] self.entries@[t]).0@ != id@,
            decreases n - j,
        {
            if str_eq(self.entries[j].0.as_str(), id) {
                return Some(j);
            }
            j = j + 1;
        }
        None
    }

    /// The fold step of the aggregator: append one arriving count to the
    /// entry of its identifier, creating the entry on first sight.
    pub fn push_count(&mut self, id: &str, count: usize)
        requires
            old(self).wf(),
        ensures
            final(self).wf(),
            final(self)@ == old(self)@.insert(
                id@,
                (if old(self)@.contains_key(id@) {
                    old(self)@[id@]
                } else {
                    Seq::<nat>::empty()
                }).push(count as nat),
            ),
    {
        let ghost e = self.entries@;
        match self.find_index(id) {
            Some(j) => {
                let (k, mut v) = self.entries.remove(j);
                let ghost vold = v@;
                v.push(count);
                self.entries.push((k, v));
                proof {
                    let ep = self.entries@;
                    assert(ep.len() == e.len());
                    assert(k == e[j as int].0);
                    assert(vold == e[j as int].1@);
                    assert(forall|i: int|
                        0 <= i < j ==> #[trigger] e.remove(j as int)[i] == e[i]);
                    assert(forall|i: int|
                        j <= i < e.len() - 1 ==> #[trigger] e.remove(j as int)[i] == e[i + 1]);
                    assert(forall|i: int|
                        0 <= i < e.len() - 1 ==> #[trigger] ep[i] == e.remove(j as int)[i]);
                    assert(ep[e.len() - 1].0@ == id@);
                    assert(ep[e.len() - 1].1@ == vold.push(count));
                    assert forall|a: int, b: int|
                        0 <= a < b < ep.len() implies (#[trigger] ep[a]).0@ != (
                    #[trigger] ep[b]).0@ by {
                        let oa: int = if a < j { a } else { a + 1 };
                        if b < ep.len() - 1 {
                            let ob: int = if b < j { b } else { b + 1 };
                            assert(ep[a] == e[oa] && ep[b] == e[ob]);
                        } else {
                            assert(ep[a] == e[oa]);
                            if oa < j {
                                assert(e[oa].0@ != e[j as int].0@);
                            } else {
                                assert(e[j as int].0@ != e[oa].0@);
                            }
                        }
                    }
                    lemma_key_at_is(e, id@, j as int);
                    lemma_key_at_is(ep, id@, ep.len() - 1);
                    let m1 = Map::new(
                        |k: Seq<char>| has_key(ep, k),
                        |k: Seq<char>| ep[key_at(ep, k)].1@.map_values(|c: usize| c as nat),
                    );
                    let m2 = old(self)@.insert(id@, old(self)@[id@].push(count as nat));
                    assert forall|kk: Seq<char>| has_key(ep, kk) <==> has_key(e, kk) by {
                        if has_key(ep, kk) {
                            let i = choose|i: int|
                                0 <= i < ep.len() && (#[trigger] ep[i]).0@ == kk;
                            if i < ep.len() - 1 {
                                let oi: int = if i < j { i } else { i + 1 };
                                assert(e[oi].0@ == kk);
                            } else {
                                assert(e[j as int].0@ == kk);
                            }
                        }
                        if has_key(e, kk) {
                            let i = choose|i: int| 0 <= i < e.len() && (#[trigger] e[i]).0@ == kk;
                            if i == j {
                                assert(ep[ep.len() - 1].0@ == kk);
                            } else {
                                let ni: int = if i < j { i } else { i - 1 };
                                assert(ep[ni] == e[i]);
                                assert(ep[ni].0@ == kk);
                            }
                        }
                    }
                    assert forall|kk: Seq<char>| m1.dom().contains(kk) implies m1[kk] == m2[kk] by {
                        if kk == id@ {
                            assert(m1[kk] == ep[ep.len() - 1].1@.map_values(|c: usize| c as nat));
                            assert(vold.push(count).map_values(|c: usize| c as nat) =~= vold.map_values(
                                |c: usize| c as nat,
                            ).push(count as nat));
                        } else {
                            let i = choose|i: int| 0 <= i < e.len() && (#[trigger] e[i]).0@ == kk;
                            assert(i != j);
                            let ni: int = if i < j { i } else { i - 1 };
                            assert(ep[ni] == e[i]);
                            lemma_key_at_is(e, kk, i);
                            lemma_key_at_is(ep, kk, ni);
                        }
                    }
                    assert(m1 =~= m2);
                }
            },
            None => {
                let mut v: Vec<usize> = Vec::new();
                v.push(count);
                let key = id.to_owned();
                self.entries.push((key, v));
                proof {
                    let ep = self.entries@;
                    assert(ep.len() == e.len() + 1);
                    assert(forall|i: int| 0 <= i < e.len() ==> #[trigger] ep[i] == e[i]);
                    assert(ep[e.len() as int].0@ == id@);
                    assert(ep[e.len() as int].1@ == seq![count]);
                    assert forall|a: int, b: int|
                        0 <= a < b < ep.len() implies (#[trigger] ep[a]).0@ != (
                    #[trigger] ep[b]).0@ by {
                        if b == ep.len() - 1 {
                            assert(ep[a] == e[a]);
                            assert(!has_key(e, id@));
                            assert(e[a].0@ != id@);
                        }
                    }
                    lemma_key_at_is(ep, id@, e.len() as int);
                    let m1 = self@;
                    let m2 = old(self)@.insert(id@, Seq::<nat>::empty().push(count as nat));
                    assert forall|kk: Seq<char>|
                        has_key(ep, kk) <==> (has_key(e, kk) || kk == id@) by {
                        if has_key(ep, kk) {
                            let i = choose|i: int|
                                0 <= i < ep.len() && (#[trigger] ep[i]).0@ == kk;
                            if i < e.len() {
                                assert(e[i].0@ == kk);
                            }
                        }
                        if has_key(e, kk) {
                            let i = choose|i: int| 0 <= i < e.len() && (#[trigger] e[i]).0@ == kk;
                            assert(ep[i].0@ == kk);
                        }
                    }
                    assert forall|kk: Seq<char>| m1.dom().contains(kk) implies m1[kk] == m2[kk] by {
                        if kk == id@ {
                            assert(seq![count].map_values(|c: usize| c as nat) =~= Seq::<
                                nat,
                            >::empty().push(count as nat));
                        } else {
                            let i = choose|i: int| 0 <= i < e.len() && (#[trigger] e[i]).0@ == kk;
                            assert(ep[i] == e[i]);
                            lemma_key_at_is(e, kk, i);
                            lemma_key_at_is(ep, kk, i);
                        }
                    }
                    assert(m1 =~= m2);
                }
            },
        }
    }

    /// The counts gathered for `id`, in arrival order, if any arrived.
    pub fn get(&self, id: &str) -> (r: Option<&Vec<usize>>)
        requires
            self.wf(),
        ensures
            match r {
                Some(v) => self@.contains_key(id@) && v@.map_values(|c: usize| c as nat)
                    == self@[id@],
                None => !self@.contains_key(id@),
            },
    {
        match self.find_index(id) {
            Some(j) => {
                proof {
                    lemma_key_at_is(self.entries@, id@, j as int);
                }
                let e = &self.entries[j];
                Some(&e.1)
            },
            None => None,
        }
    }

    /// How many identifiers have an entry.
    pub fn len(&self) -> (r: usize)
        requires
            self.wf(),
        ensures
            r as nat == self@.dom().len(),
    {
        proof {
            lemma_distinct_dom_len(self.entries@);
            assert(self@.dom() =~= Set::new(|k: Seq<char>| has_key(self.entries@, k)));
        }
        self.entries.len()
    }

    /// The entries of the mapping: one per identifier, each holding that
    /// identifier's counts in arrival order.
    pub fn as_entries(&self) -> (r: &Vec<(String, Vec<usize>)>)
        requires
            self.wf(),
        ensures
            distinct_keys(r@),
            forall|i: int|
                0 <= i < r@.len() ==> self@.contains_key((#[trigger] r@[i]).0@) && r@[i].1@.map_values(
                    |c: usize| c as nat,
                ) == self@[r@[i].0@],
            forall|k: Seq<char>| self@.contains_key(k) ==> has_key(r@, k),
    {
        proof {
            assert forall|i: int|
                0 <= i < self.entries@.len() implies self@.contains_key(
                (#[trigger] self.entries@[i]).0@,
            ) && self.entries@[i].1@.map_values(|c: usize| c as nat) == self@[self.entries@[i].0@] by {
                lemma_key_at_is(self.entries@, self.entries@[i].0@, i);
            }
        }
        &self.entries
    }
}

/// With distinct identifiers, the mapping holds as many keys as there
/// are entries.
proof fn lemma_distinct_dom_len(entries: Seq<(String, Vec<usize>)>)
    requires
        distinct_keys(entries),
    ensures
        Set::new(|k: Seq<char>| has_key(entries, k)).finite(),
        Set::new(|k: Seq<char>| has_key(entries, k)).len() == entries.len(),
    decreases entries.len(),
{
    let s = Set::new(|k: Seq<char>| has_key(entries, k));
    if entries.len() == 0 {
        assert(s =~= Set::<Seq<char>>::empty());
    } else {
        let dl = entries.drop_last();
        let sd = Set::new(|k: Seq<char>| has_key(dl, k));
        lemma_distinct_dom_len(dl);
        let lastk = entries.last().0@;
        assert forall|k: Seq<char>| has_key(entries, k) <==> (has_key(dl, k) || k == lastk) by {
            if has_key(entries, k) {
                let i = choose|i: int| 0 <= i < entries.len() && (#[trigger] entries[i]).0@ == k;
                if i < entries.len() - 1 {
                    assert(dl[i].0@ == k);
                }
            }
            if has_key(dl, k) {
                let i = choose|i: int| 0 <= i < dl.len() && (#[trigger] dl[i]).0@ == k;
                assert(entries[i].0@ == k);
            }
            assert(entries[entries.len() - 1].0@ == lastk);
        }
        assert(!sd.contains(lastk)) by {
            if has_key(dl, lastk) {
                let i = choose|i: int| 0 <= i < dl.len() && (#[trigger] dl[i]).0@ == lastk;
                assert(entries[i].0@ != entries[entries.len() - 1].0@);
            }
        }
        assert(s =~= sd.insert(lastk));
    }
}


/// The item view of a fold input: each owned (identifier, count) pair as
/// its mathematical value.
pub open spec fn items_view(items: Seq<(String, usize)>) -> Seq<(Seq<char>, nat)> {
    items.map_values(|p: (String, usize)| (p.0@, p.1 as nat))
}

/// Fold a sequence of (identifier, count) items, in arrival order, into
/// the mapping from identifier to the counts that arrived under it.
/// This is the fan-in step of the aggregator: the items may interleave
/// the lines of many sources in any order.
pub fn aggregate(items: &Vec<(String, usize)>) -> (r: WordCountMap)
    ensures
        r.wf(),
        r@ == aggregate_spec(items_view(items@)),
{
    let mut r = WordCountMap::new();
    let mut i: usize = 0;
    proof {
        lemma_aggregate_empty();
        assert(items_view(items@.take(0)) =~= Seq::<(Seq<char>, nat)>::empty());
    }
    while i < items.len()
        invariant
            i <= items@.len(),
            r.wf(),
            r@ == aggregate_spec(items_view(items@.take(i as int))),
        decreases items@.len() - i,
    {
        let count = items[i].1;
        r.push_count(items[i].0.as_str(), count);
        proof {
            let iv = items_view(items@.take(i as int));
            let it = (items@[i as int].0@, items@[i as int].1 as nat);
            lemma_aggregate_push(iv, it);
            lemma_has_id_iff_counts(iv, it.0);
            if !has_id(iv, it.0) {
                assert(counts_for(iv, it.0) =~= Seq::<nat>::empty());
            }
            assert(items_view(items@.take(i as int + 1)) =~= iv.push(it));
        }
        i = i + 1;
    }
    proof {
        assert(items@.take(items@.len() as int) =~= items@);
    }
    r
}

/// The source view of an aggregation input: each owned (identifier,
/// text) pair as its mathematical value.
pub open spec fn sources_view(sources: Seq<(String, String)>) -> Seq<(Seq<char>, Seq<char>)> {
    sources.map_values(|p: (String, String)| (p.0@, p.1@))
}

/// The items that a whole collection of sources contributes, source by
/// source: within one source the items keep line order; the order across
/// sources is one of the interleavings the aggregator may see.
pub open spec fn all_items(sources: Seq<(Seq<char>, Seq<char>)>) -> Seq<(Seq<char>, nat)>
    decreases sources.len(),
{
    if sources.len() == 0 {
        Seq::empty()
    } else {
        all_items(sources.drop_last()) + line_items(sources.last().0, sources.last().1)
    }
}

/// The Result Mapping of a whole aggregation: every source's per-line
/// word counts, folded under the source's identifier.
pub open spec fn concurrent_spec(sources: Seq<(Seq<char>, Seq<char>)>) -> Map<Seq<char>, Seq<nat>> {
    aggregate_spec(all_items(sources))
}

/// Count the words on every line of every source and fold the counts
/// into one mapping: each identifier's entry holds the counts of its
/// source's lines, in that source's line order, with counts of sources
/// sharing an identifier appended after one another.
pub fn count_line_words_concurrent(sources: &Vec<(String, String)>) -> (r: WordCountMap)
    ensures
        r.wf(),
        r@ == concurrent_spec(sources_view(sources@)),
{
    let mut r = WordCountMap::new();
    let mut i: usize = 0;
    proof {
        lemma_aggregate_empty();
        assert(sources_view(sources@.take(0)) =~= Seq::<(Seq<char>, Seq<char>)>::empty());
    }
    while i < sources.len()
        invariant
            i <= sources@.len(),
            r.wf(),
            r@ == aggregate_spec(all_items(sources_view(sources@.take(i as int)))),
        decreases sources@.len() - i,
    {
        let src = &sources[i];
        let items = count_line_words(src.0.as_str(), src.1.as_str());
        let ghost base = all_items(sources_view(sources@.take(i as int)));
        let ghost src_items = line_items(sources@[i as int].0@, sources@[i as int].1@);
        proof {
            assert(base + src_items.take(0) =~= base);
        }
        let mut j: usize = 0;
        while j < items.len()
            invariant
                j <= items@.len(),
                r.wf(),
                items@.map_values(|p: (String, usize)| (p.0@, p.1 as nat)) == src_items,
                r@ == aggregate_spec(base + src_items.take(j as int)),
            decreases items@.len() - j,
        {
            let count = items[j].1;
            r.push_count(items[j].0.as_str(), count);
            proof {
                let iv = base + src_items.take(j as int);
                let it = src_items[j as int];
                assert(it == (items@[j as int].0@, items@[j as int].1 as nat));
                lemma_aggregate_push(iv, it);
                lemma_has_id_iff_counts(iv, it.0);
                if !has_id(iv, it.0) {
                    assert(counts_for(iv, it.0) =~= Seq::<nat>::empty());
                }
                assert(base + src_items.take(j as int + 1) =~= iv.push(it));
            }
            j = j + 1;
        }
        proof {
            let svn = sources_view(sources@.take(i as int + 1));
            assert(svn.drop_last() =~= sources_view(sources@.take(i as int)));
            assert(svn.last() == (sources@[i as int].0@, sources@[i as int].1@));
            assert(base + src_items.take(src_items.len() as int) =~= all_items(svn));
        }
        i = i + 1;
    }
    proof {
        assert(sources@.take(sources@.len() as int) =~= sources@);
    }
    r
}

} // verus!
