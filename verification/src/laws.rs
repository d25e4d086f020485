//! Laws of the aggregation, stated and proved once for all inputs.
//!
//! The aggregator gives no ordering across sources: the items of many
//! sources may reach the fold in any interleaving. These laws say what
//! nevertheless holds of every outcome: a single source keeps its line
//! order, distinct identifiers never mix whatever the interleaving, the
//! result is a function of the sources alone, and an identifier that no
//! source carries is absent.

use vstd::prelude::*;

use crate::aggregate::aggregate_spec;
use crate::aggregate::concurrent_spec;
use crate::aggregate::counts_for;
use crate::aggregate::has_id;
use crate::aggregate::all_items;
use crate::aggregate::lemma_counts_for_push;
use crate::aggregate::lemma_has_id_iff_counts;
use crate::aggregate::lemma_aggregate_empty;
use crate::counter::line_counts;
use crate::counter::line_items;
use crate::lines::lines_of;

verus! {

/// An identifier all of whose items carry it gathers every count, in
/// arrival order.
proof fn lemma_counts_for_all(items: Seq<(Seq<char>, nat)>, id: Seq<char>)
    requires
        forall|j: int| 0 <= j < items.len() ==> (#[trigger] items[j]).0 == id,
    ensures
        counts_for(items, id) == items.map_values(|it: (Seq<char>, nat)| it.1),
    decreases items.len(),
{
    if items.len() == 0 {
        reveal(Seq::filter);
        assert(counts_for(items, id) =~= items.map_values(|it: (Seq<char>, nat)| it.1));
    } else {
        let dl = items.drop_last();
        assert(forall|j: int| 0 <= j < dl.len() ==> (#[trigger] dl[j]).0 == id);
        lemma_counts_for_all(dl, id);
        lemma_counts_for_push(dl, items.last(), id);
        assert(dl.push(items.last()) =~= items);
        assert(items[items.len() - 1].0 == id);
        assert(dl.map_values(|it: (Seq<char>, nat)| it.1).push(items.last().1) =~= items.map_values(
            |it: (Seq<char>, nat)| it.1,
        ));
    }
}

/// A single source yields exactly its own per-line counts, one per line,
/// in line order: its entry exists exactly when the source has a line,
/// it lists the word count of every line in the order the lines stand in
/// the source, and no other identifier gains an entry.
pub proof fn lemma_single_source(id: Seq<char>, text: Seq<char>)
    ensures
        concurrent_spec(seq![(id, text)]).contains_key(id) <==> lines_of(text).len() > 0,
        lines_of(text).len() > 0 ==> concurrent_spec(seq![(id, text)])[id] == line_counts(text),
        forall|k: Seq<char>| k != id ==> !concurrent_spec(seq![(id, text)]).contains_key(k),
{
    let s = seq![(id, text)];
    let items = line_items(id, text);
    assert(s.drop_last() =~= Seq::<(Seq<char>, Seq<char>)>::empty());
    assert(all_items(Seq::<(Seq<char>, Seq<char>)>::empty()) == Seq::<(Seq<char>, nat)>::empty());
    assert(s.last() == (id, text));
    assert(all_items(s) =~= items);
    assert(forall|j: int| 0 <= j < items.len() ==> (#[trigger] items[j]).0 == id);
    lemma_counts_for_all(items, id);
    assert(items.map_values(|it: (Seq<char>, nat)| it.1) =~= line_counts(text));
    lemma_has_id_iff_counts(items, id);
    assert forall|k: Seq<char>| k != id implies !has_id(items, k) by {
        if has_id(items, k) {
            let j = choose|j: int| 0 <= j < items.len() && (#[trigger] items[j]).0 == k;
        }
    }
}

/// One sequence of items is an interleaving of two others: it deals the
/// items of both out in some order, keeping the relative order of each.
pub open spec fn is_interleaving(
    a: Seq<(Seq<char>, nat)>,
    b: Seq<(Seq<char>, nat)>,
    c: Seq<(Seq<char>, nat)>,
) -> bool
    decreases c.len(),
{
    if c.len() == 0 {
        a.len() == 0 && b.len() == 0
    } else {
        ||| (a.len() > 0 && a[0] == c[0] && is_interleaving(a.drop_first(), b, c.drop_first()))
        ||| (b.len() > 0 && b[0] == c[0] && is_interleaving(a, b.drop_first(), c.drop_first()))
    }
}

/// Reading one more item from the front: its count stands first in its
/// own identifier's counts, and no other identifier sees it.
proof fn lemma_counts_for_front(items: Seq<(Seq<char>, nat)>, id: Seq<char>)
    requires
        items.len() > 0,
    ensures
        counts_for(items, id) == (if items[0].0 == id {
            seq![items[0].1] + counts_for(items.drop_first(), id)
        } else {
            counts_for(items.drop_first(), id)
        }),
    decreases items.len(),
{
    let last = items.last();
    let dl = items.drop_last();
    lemma_counts_for_push(dl, last, id);
    assert(dl.push(last) =~= items);
    if items.len() == 1 {
        reveal(Seq::filter);
        assert(counts_for(dl, id) =~= Seq::<nat>::empty());
        assert(items.drop_first() =~= Seq::<(Seq<char>, nat)>::empty());
        assert(counts_for(items.drop_first(), id) =~= Seq::<nat>::empty());
        assert(items[0] == last);
        if items[0].0 == id {
            assert(counts_for(items, id) =~= seq![items[0].1] + counts_for(
                items.drop_first(),
                id,
            ));
        }
    } else {
        lemma_counts_for_front(dl, id);
        lemma_counts_for_push(dl.drop_first(), last, id);
        assert(dl.drop_first().push(last) =~= items.drop_first());
        assert(items[0] == dl[0]);
        if items[0].0 == id {
            if last.0 == id {
                assert(seq![items[0].1] + counts_for(dl.drop_first(), id).push(last.1) =~= (
                seq![items[0].1] + counts_for(dl.drop_first(), id)).push(last.1));
            }
        }
    }
}

/// In any interleaving of the items of two sources with distinct
/// identifiers, each identifier gathers exactly its own source's counts,
/// in that source's order.
proof fn lemma_interleaving_counts(
    a: Seq<(Seq<char>, nat)>,
    b: Seq<(Seq<char>, nat)>,
    c: Seq<(Seq<char>, nat)>,
    ida: Seq<char>,
    idb: Seq<char>,
)
    requires
        is_interleaving(a, b, c),
        forall|i: int| 0 <= i < a.len() ==> (#[trigger] a[i]).0 == ida,
        forall|i: int| 0 <= i < b.len() ==> (#[trigger] b[i]).0 == idb,
        ida != idb,
    ensures
        counts_for(c, ida).len() == a.len(),
        forall|i: int| 0 <= i < a.len() ==> counts_for(c, ida)[i] == (#[trigger] a[i]).1,
        counts_for(c, idb).len() == b.len(),
        forall|i: int| 0 <= i < b.len() ==> counts_for(c, idb)[i] == (#[trigger] b[i]).1,
    decreases c.len(),
{
    if c.len() == 0 {
        assert(a.len() == 0 && b.len() == 0);
        reveal(Seq::filter);
        assert(counts_for(c, ida) =~= Seq::<nat>::empty());
        assert(counts_for(c, idb) =~= Seq::<nat>::empty());
    } else {
        let rest = c.drop_first();
        lemma_counts_for_front(c, ida);
        lemma_counts_for_front(c, idb);
        if a.len() > 0 && a[0] == c[0] && is_interleaving(a.drop_first(), b, rest) {
            assert(forall|i: int|
                0 <= i < a.drop_first().len() ==> (#[trigger] a.drop_first()[i]).0 == ida);
            lemma_interleaving_counts(a.drop_first(), b, rest, ida, idb);
            assert(a[0].0 == ida);
            assert(counts_for(c, ida) == seq![c[0].1] + counts_for(rest, ida));
            assert forall|i: int| 0 <= i < a.len() implies counts_for(c, ida)[i] == (
            #[trigger] a[i]).1 by {
                if i > 0 {
                    assert(counts_for(rest, ida)[i - 1] == a.drop_first()[i - 1].1);
                }
            }
        } else {
            assert(b.len() > 0 && b[0] == c[0] && is_interleaving(a, b.drop_first(), rest));
            assert(forall|i: int|
                0 <= i < b.drop_first().len() ==> (#[trigger] b.drop_first()[i]).0 == idb);
            lemma_interleaving_counts(a, b.drop_first(), rest, ida, idb);
            assert(b[0].0 == idb);
            assert(counts_for(c, idb) == seq![c[0].1] + counts_for(rest, idb));
            assert forall|i: int| 0 <= i < b.len() implies counts_for(c, idb)[i] == (
            #[trigger] b[i]).1 by {
                if i > 0 {
                    assert(counts_for(rest, idb)[i - 1] == b.drop_first()[i - 1].1);
                }
            }
        }
    }
}

/// Two sources with distinct identifiers never mix: however their items
/// interleave on the way to the fold, each identifier's entry holds
/// exactly its own source's counts, in that source's order, and exists
/// exactly when that source contributed an item.
pub proof fn lemma_distinct_sources_independent(
    a: Seq<(Seq<char>, nat)>,
    b: Seq<(Seq<char>, nat)>,
    c: Seq<(Seq<char>, nat)>,
    ida: Seq<char>,
    idb: Seq<char>,
)
    requires
        is_interleaving(a, b, c),
        forall|i: int| 0 <= i < a.len() ==> (#[trigger] a[i]).0 == ida,
        forall|i: int| 0 <= i < b.len() ==> (#[trigger] b[i]).0 == idb,
        ida != idb,
    ensures
        aggregate_spec(c).contains_key(ida) <==> a.len() > 0,
        aggregate_spec(c).contains_key(idb) <==> b.len() > 0,
        a.len() > 0 ==> aggregate_spec(c)[ida].len() == a.len(),
        b.len() > 0 ==> aggregate_spec(c)[idb].len() == b.len(),
        forall|i: int| 0 <= i < a.len() ==> aggregate_spec(c)[ida][i] == (#[trigger] a[i]).1,
        forall|i: int| 0 <= i < b.len() ==> aggregate_spec(c)[idb][i] == (#[trigger] b[i]).1,
{
    lemma_interleaving_counts(a, b, c, ida, idb);
    lemma_has_id_iff_counts(c, ida);
    lemma_has_id_iff_counts(c, idb);
}

/// The aggregation is a function of the sources alone: running it twice
/// on the same sources yields identical Result Mappings.
pub proof fn lemma_aggregation_idempotent(
    sources: Seq<(Seq<char>, Seq<char>)>,
    m1: Map<Seq<char>, Seq<nat>>,
    m2: Map<Seq<char>, Seq<nat>>,
)
    requires
        m1 == concurrent_spec(sources),
        m2 == concurrent_spec(sources),
    ensures
        m1 == m2,
{
}

/// No sources at all yield the empty mapping, with no keys.
pub proof fn lemma_no_sources(sources: Seq<(Seq<char>, Seq<char>)>)
    requires
        sources.len() == 0,
    ensures
        concurrent_spec(sources) == Map::<Seq<char>, Seq<nat>>::empty(),
{
    assert(sources =~= Seq::<(Seq<char>, Seq<char>)>::empty());
    lemma_aggregate_empty();
    assert(all_items(sources) =~= Seq::<(Seq<char>, nat)>::empty());
}

/// Every item of an aggregation carries the identifier of one of its
/// sources.
proof fn lemma_all_items_ids(sources: Seq<(Seq<char>, Seq<char>)>, id: Seq<char>)
    requires
        forall|i: int| 0 <= i < sources.len() ==> (#[trigger] sources[i]).0 != id,
    ensures
        forall|j: int| 0 <= j < all_items(sources).len() ==> (#[trigger] all_items(sources)[j]).0
            != id,
    decreases sources.len(),
{
    if sources.len() > 0 {
        let dl = sources.drop_last();
        assert(forall|i: int| 0 <= i < dl.len() ==> (#[trigger] dl[i]).0 != id);
        lemma_all_items_ids(dl, id);
        let tail = line_items(sources.last().0, sources.last().1);
        assert(sources[sources.len() - 1].0 != id);
        assert(forall|j: int| 0 <= j < tail.len() ==> (#[trigger] tail[j]).0 == sources.last().0);
        assert forall|j: int|
            0 <= j < all_items(sources).len() implies (#[trigger] all_items(sources)[j]).0
            != id by {
            if j < all_items(dl).len() {
                assert(all_items(sources)[j] == all_items(dl)[j]);
            } else {
                assert(all_items(sources)[j] == tail[j - all_items(dl).len()]);
            }
        }
    }
}

/// An identifier that no source carries is absent from the result: it
/// has no entry at all.
pub proof fn lemma_absent_identifier(sources: Seq<(Seq<char>, Seq<char>)>, id: Seq<char>)
    requires
        forall|i: int| 0 <= i < sources.len() ==> (#[trigger] sources[i]).0 != id,
    ensures
        !concurrent_spec(sources).contains_key(id),
{
    lemma_all_items_ids(sources, id);
    if has_id(all_items(sources), id) {
        let j = choose|j: int|
            0 <= j < all_items(sources).len() && (#[trigger] all_items(sources)[j]).0 == id;
    }
}


/// Laying one item sequence after another is one of their interleavings.
proof fn lemma_append_is_interleaving(a: Seq<(Seq<char>, nat)>, b: Seq<(Seq<char>, nat)>)
    ensures
        is_interleaving(a, b, a + b),
    decreases a.len() + b.len(),
{
    let c = a + b;
    if a.len() > 0 {
        assert(c.len() > 0);
        assert(a[0] == c[0]);
        lemma_append_is_interleaving(a.drop_first(), b);
        assert(a.drop_first() + b =~= c.drop_first());
    } else if b.len() > 0 {
        assert(c.len() > 0);
        assert(b[0] == c[0]);
        lemma_append_is_interleaving(a, b.drop_first());
        assert(a + b.drop_first() =~= c.drop_first());
    } else {
        assert(c.len() == 0);
    }
}

/// Two sources with distinct identifiers, aggregated together, never
/// mix: each identifier's entry holds exactly the word counts of its own
/// source's lines, in that source's line order, and exists exactly when
/// that source has a line.
pub proof fn lemma_two_distinct_sources(
    id1: Seq<char>,
    t1: Seq<char>,
    id2: Seq<char>,
    t2: Seq<char>,
)
    requires
        id1 != id2,
    ensures
        concurrent_spec(seq![(id1, t1), (id2, t2)]).contains_key(id1) <==> lines_of(t1).len() > 0,
        concurrent_spec(seq![(id1, t1), (id2, t2)]).contains_key(id2) <==> lines_of(t2).len() > 0,
        lines_of(t1).len() > 0 ==> concurrent_spec(seq![(id1, t1), (id2, t2)])[id1]
            == line_counts(t1),
        lines_of(t2).len() > 0 ==> concurrent_spec(seq![(id1, t1), (id2, t2)])[id2]
            == line_counts(t2),
{
    let s = seq![(id1, t1), (id2, t2)];
    let a = line_items(id1, t1);
    let b = line_items(id2, t2);
    let c = all_items(s);
    assert(s.drop_last() =~= seq![(id1, t1)]);
    assert(seq![(id1, t1)].drop_last() =~= Seq::<(Seq<char>, Seq<char>)>::empty());
    assert(all_items(Seq::<(Seq<char>, Seq<char>)>::empty()) == Seq::<(Seq<char>, nat)>::empty());
    assert(seq![(id1, t1)].last() == (id1, t1));
    assert(all_items(seq![(id1, t1)]) =~= a);
    assert(s.last() == (id2, t2));
    assert(c =~= a + b);
    lemma_append_is_interleaving(a, b);
    assert(forall|i: int| 0 <= i < a.len() ==> (#[trigger] a[i]).0 == id1);
    assert(forall|i: int| 0 <= i < b.len() ==> (#[trigger] b[i]).0 == id2);
    lemma_distinct_sources_independent(a, b, c, id1, id2);
    if a.len() > 0 {
        assert forall|i: int| 0 <= i < a.len() implies aggregate_spec(c)[id1][i] == line_counts(
            t1,
        )[i] by {
            assert(a[i].1 == line_counts(t1)[i]);
        }
        assert(aggregate_spec(c)[id1] =~= line_counts(t1));
    }
    if b.len() > 0 {
        assert forall|i: int| 0 <= i < b.len() implies aggregate_spec(c)[id2][i] == line_counts(
            t2,
        )[i] by {
            assert(b[i].1 == line_counts(t2)[i]);
        }
        assert(aggregate_spec(c)[id2] =~= line_counts(t2));
    }
}

} // verus!
