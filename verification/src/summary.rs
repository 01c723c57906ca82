//! What it means for a table to summarise a sequence of records, and why
//! folding and merging arrive there however the records are partitioned.
use crate::gxf::RecordView;
use crate::utils::{fold_one, join, merge_maps, widen, Span};
use vstd::prelude::*;

verus! {

/// Record `i` of `records` carries the identifier `id`.
pub open spec fn about(records: Seq<RecordView>, i: int, id: Seq<char>) -> bool {
    0 <= i < records.len() && records[i].id == id
}

/// Some record carries the identifier `id`.
pub open spec fn mentions(records: Seq<RecordView>, id: Seq<char>) -> bool {
    exists|i: int| about(records, i, id)
}

/// Record `i` is the first that carries the identifier `id`.
pub open spec fn first_about(records: Seq<RecordView>, i: int, id: Seq<char>) -> bool {
    about(records, i, id) && forall|j: int| 0 <= j < i ==> !about(records, j, id)
}

/// `span` is the span of `id` over `records`: its start is the least start
/// and its end the greatest end among the records of `id`; its chromosome
/// and strand are those of one of them, and those of the first of them where
/// that one names a chromosome.
pub open spec fn is_summary(span: Span, records: Seq<RecordView>, id: Seq<char>) -> bool {
    &&& forall|i: int| #[trigger]
        about(records, i, id) ==> span.start <= records[i].start && records[i].end <= span.end
    &&& exists|i: int| #[trigger] about(records, i, id) && records[i].start == span.start
    &&& exists|i: int| #[trigger] about(records, i, id) && records[i].end == span.end
    &&& exists|i: int| #[trigger]
        about(records, i, id) && records[i].chr == span.chr && records[i].strand == span.strand
    &&& forall|i: int| #[trigger]
        first_about(records, i, id) && records[i].chr.len() > 0 ==> span.chr == records[i].chr
            && span.strand == records[i].strand
}

/// `table` holds exactly the identifiers of `records`, each with its span
/// over `records`.
pub open spec fn summarizes(table: Map<Seq<char>, Span>, records: Seq<RecordView>) -> bool {
    forall|id: Seq<char>|
        (#[trigger] table.contains_key(id) <==> mentions(records, id)) && (table.contains_key(id)
            ==> is_summary(table[id], records, id))
}

/// The table that holds the records folded in one after the other.
pub open spec fn fold_all(records: Seq<RecordView>) -> Map<Seq<char>, Span>
    decreases records.len(),
{
    if records.len() == 0 {
        Map::empty()
    } else {
        fold_one(fold_all(records.drop_last()), records.last())
    }
}

/// The tables merged into one, each into what the tables after it give.
pub open spec fn merge_all(tables: Seq<Map<Seq<char>, Span>>) -> Map<Seq<char>, Span>
    decreases tables.len(),
{
    if tables.len() == 0 {
        Map::empty()
    } else {
        merge_maps(tables.first(), merge_all(tables.drop_first()))
    }
}

/// Folding a record in loses no identifier, keeps the chromosome and strand
/// of every span, and moves no start up and no end down.
pub proof fn lemma_fold_only_widens(table: Map<Seq<char>, Span>, r: RecordView, id: Seq<char>)
    requires
        table.contains_key(id),
    ensures
        fold_one(table, r).contains_key(id),
        fold_one(table, r)[id].chr == table[id].chr,
        fold_one(table, r)[id].strand == table[id].strand,
        fold_one(table, r)[id].start <= table[id].start,
        fold_one(table, r)[id].end >= table[id].end,
{
}

/// Merging loses no identifier of either table, and moves no start up and no
/// end down.
pub proof fn lemma_merge_only_widens(
    first: Map<Seq<char>, Span>,
    other: Map<Seq<char>, Span>,
    id: Seq<char>,
)
    ensures
        first.contains_key(id) ==> merge_maps(first, other).contains_key(id) && merge_maps(
            first,
            other,
        )[id].start <= first[id].start && merge_maps(first, other)[id].end >= first[id].end,
        other.contains_key(id) ==> merge_maps(first, other).contains_key(id) && merge_maps(
            first,
            other,
        )[id].start <= other[id].start && merge_maps(first, other)[id].end >= other[id].end,
{
}

/// Every span of the table starts before it ends.
pub open spec fn proper(table: Map<Seq<char>, Span>) -> bool {
    forall|id: Seq<char>| #[trigger] table.contains_key(id) ==> table[id].start < table[id].end
}

/// A table that summarises records which all start before they end holds
/// only spans that start before they end.
pub proof fn lemma_summary_is_proper(table: Map<Seq<char>, Span>, records: Seq<RecordView>)
    requires
        summarizes(table, records),
        forall|i: int| 0 <= i < records.len() ==> (#[trigger] records[i]).start < records[i].end,
    ensures
        proper(table),
{
    assert forall|id: Seq<char>| #[trigger] table.contains_key(id) implies table[id].start
        < table[id].end by {
        let i = choose|i: int| #[trigger] about(records, i, id) && records[i].start == table[id].start;
        assert(about(records, i, id));
        assert(records[i].start < records[i].end);
    }
}

/// Folding one more record into a table that summarises `records` gives a
/// table that summarises `records` with that record at the end.
pub proof fn lemma_fold_one_summarizes(
    table: Map<Seq<char>, Span>,
    records: Seq<RecordView>,
    r: RecordView,
)
    requires
        summarizes(table, records),
    ensures
        summarizes(fold_one(table, r), records.push(r)),
{
    let next = fold_one(table, r);
    let longer = records.push(r);
    let n = records.len() as int;
    assert(about(longer, n, r.id));
    assert forall|id: Seq<char>|
        (#[trigger] next.contains_key(id) <==> mentions(longer, id)) && (next.contains_key(id)
            ==> is_summary(next[id], longer, id)) by {
        assert forall|i: int| about(records, i, id) implies about(longer, i, id) by {}
        assert forall|i: int| about(longer, i, id) && i != n implies about(records, i, id) by {}
        if mentions(records, id) {
            let w = choose|i: int| about(records, i, id);
            assert(about(longer, w, id));
        }
        if mentions(longer, id) && id != r.id {
            let w = choose|i: int| about(longer, i, id);
            assert(about(records, w, id));
        }
        if next.contains_key(id) {
            if id != r.id {
                lemma_summary_extends(table[id], records, r, id);
            } else if table.contains_key(id) {
                lemma_summary_widens(table[id], records, r);
            } else {
                assert forall|i: int| about(longer, i, id) implies i == n by {
                    if i != n {
                        assert(about(records, i, id));
                    }
                }
                assert(first_about(longer, n, id));
            }
        }
    }
}

/// A span over `records` is still the span of its identifier when a record
/// of another identifier follows.
pub proof fn lemma_summary_extends(
    span: Span,
    records: Seq<RecordView>,
    r: RecordView,
    id: Seq<char>,
)
    requires
        is_summary(span, records, id),
        r.id != id,
    ensures
        is_summary(span, records.push(r), id),
{
    let longer = records.push(r);
    assert forall|i: int| about(records, i, id) implies about(longer, i, id) && longer[i]
        == records[i] by {}
    assert forall|i: int| about(longer, i, id) implies about(records, i, id) by {}
    let a = choose|i: int| #[trigger] about(records, i, id) && records[i].start == span.start;
    assert(about(longer, a, id));
    let b = choose|i: int| #[trigger] about(records, i, id) && records[i].end == span.end;
    assert(about(longer, b, id));
    let c = choose|i: int| #[trigger]
        about(records, i, id) && records[i].chr == span.chr && records[i].strand == span.strand;
    assert(about(longer, c, id));
    assert forall|i: int| #[trigger]
        first_about(longer, i, id) && longer[i].chr.len() > 0 implies span.chr == longer[i].chr
        && span.strand == longer[i].strand by {
        assert(about(records, i, id));
        assert forall|j: int| 0 <= j < i implies !about(records, j, id) by {
            if about(records, j, id) {
                assert(about(longer, j, id));
            }
        }
        assert(first_about(records, i, id));
    }
}

/// A span over `records`, widened by a further record of its identifier, is
/// the span over `records` with that record at the end.
pub proof fn lemma_summary_widens(span: Span, records: Seq<RecordView>, r: RecordView)
    requires
        is_summary(span, records, r.id),
    ensures
        is_summary(widen(span, r), records.push(r), r.id),
{
    let id = r.id;
    let wider = widen(span, r);
    let longer = records.push(r);
    let n = records.len() as int;
    assert(about(longer, n, id));
    assert forall|i: int| about(records, i, id) implies about(longer, i, id) && longer[i]
        == records[i] by {}
    assert forall|i: int| about(longer, i, id) && i != n implies about(records, i, id) by {}
    let a = choose|i: int| #[trigger] about(records, i, id) && records[i].start == span.start;
    assert(about(longer, a, id));
    let b = choose|i: int| #[trigger] about(records, i, id) && records[i].end == span.end;
    assert(about(longer, b, id));
    let c = choose|i: int| #[trigger]
        about(records, i, id) && records[i].chr == span.chr && records[i].strand == span.strand;
    assert(about(longer, c, id));
    assert(exists|i: int| #[trigger] about(longer, i, id) && longer[i].start == wider.start) by {
        if r.start < span.start {
            assert(about(longer, n, id) && longer[n].start == wider.start);
        } else {
            assert(about(longer, a, id) && longer[a].start == wider.start);
        }
    }
    assert(exists|i: int| #[trigger] about(longer, i, id) && longer[i].end == wider.end) by {
        if r.end > span.end {
            assert(about(longer, n, id) && longer[n].end == wider.end);
        } else {
            assert(about(longer, b, id) && longer[b].end == wider.end);
        }
    }
    assert forall|i: int| #[trigger] about(longer, i, id) implies wider.start <= longer[i].start
        && longer[i].end <= wider.end by {
        if i != n {
            assert(about(records, i, id));
        }
    }
    assert forall|i: int| #[trigger]
        first_about(longer, i, id) && longer[i].chr.len() > 0 implies wider.chr == longer[i].chr
        && wider.strand == longer[i].strand by {
        if i == n {
            assert(about(longer, a, id));
        } else {
            assert(about(records, i, id));
            assert forall|j: int| 0 <= j < i implies !about(records, j, id) by {
                if about(records, j, id) {
                    assert(about(longer, j, id));
                }
            }
            assert(first_about(records, i, id));
        }
    }
}

/// Folding the records one after the other gives the table that summarises them.
pub proof fn lemma_fold_summarizes(records: Seq<RecordView>)
    ensures
        summarizes(fold_all(records), records),
    decreases records.len(),
{
    if records.len() == 0 {
        assert forall|id: Seq<char>| !mentions(records, id) by {}
    } else {
        let init = records.drop_last();
        lemma_fold_summarizes(init);
        lemma_fold_one_summarizes(fold_all(init), init, records.last());
        assert(init.push(records.last()) =~= records);
    }
}

/// A record of `a + b` is a record of `a`, or one of `b` moved up by the
/// length of `a`.
pub proof fn lemma_about_concat(a: Seq<RecordView>, b: Seq<RecordView>, id: Seq<char>)
    ensures
        forall|i: int| #[trigger] about(a, i, id) ==> about(a + b, i, id) && (a + b)[i] == a[i],
        forall|i: int| #[trigger]
            about(b, i, id) ==> about(a + b, a.len() + i, id) && (a + b)[a.len() + i] == b[i],
        forall|i: int| #[trigger]
            about(a + b, i, id) ==> if i < a.len() {
                about(a, i, id) && (a + b)[i] == a[i]
            } else {
                about(b, i - a.len(), id) && (a + b)[i] == b[i - a.len()]
            },
        mentions(a + b, id) <==> mentions(a, id) || mentions(b, id),
{
    let ab = a + b;
    assert forall|i: int| #[trigger] about(b, i, id) implies about(ab, a.len() + i, id) && ab[a.len()
        + i] == b[i] by {}
    if mentions(a, id) {
        let w = choose|i: int| about(a, i, id);
        assert(about(ab, w, id));
    }
    if mentions(b, id) {
        let w = choose|i: int| about(b, i, id);
        assert(about(ab, a.len() + w, id));
    }
    if mentions(ab, id) {
        let w = choose|i: int| about(ab, i, id);
        if w < a.len() {
            assert(about(a, w, id));
        } else {
            assert(about(b, w - a.len(), id));
        }
    }
}

/// A span over `a` is the span over `a + b` where `b` has no record of the
/// identifier.
pub proof fn lemma_summary_left(span: Span, a: Seq<RecordView>, b: Seq<RecordView>, id: Seq<char>)
    requires
        is_summary(span, a, id),
        !mentions(b, id),
    ensures
        is_summary(span, a + b, id),
{
    let ab = a + b;
    lemma_about_concat(a, b, id);
    assert forall|i: int| about(ab, i, id) implies i < a.len() by {
        if i >= a.len() {
            assert(about(b, i - a.len(), id));
        }
    }
    let s = choose|i: int| #[trigger] about(a, i, id) && a[i].start == span.start;
    assert(about(ab, s, id));
    let e = choose|i: int| #[trigger] about(a, i, id) && a[i].end == span.end;
    assert(about(ab, e, id));
    let c = choose|i: int| #[trigger]
        about(a, i, id) && a[i].chr == span.chr && a[i].strand == span.strand;
    assert(about(ab, c, id));
    assert forall|i: int| #[trigger] first_about(ab, i, id) && ab[i].chr.len() > 0 implies span.chr
        == ab[i].chr && span.strand == ab[i].strand by {
        assert(about(a, i, id));
        assert forall|j: int| 0 <= j < i implies !about(a, j, id) by {
            if about(a, j, id) {
                assert(about(ab, j, id));
            }
        }
        assert(first_about(a, i, id));
    }
}

/// A span over `b` is the span over `a + b` where `a` has no record of the
/// identifier.
pub proof fn lemma_summary_right(span: Span, a: Seq<RecordView>, b: Seq<RecordView>, id: Seq<char>)
    requires
        is_summary(span, b, id),
        !mentions(a, id),
    ensures
        is_summary(span, a + b, id),
{
    let ab = a + b;
    let n = a.len() as int;
    lemma_about_concat(a, b, id);
    assert forall|i: int| about(ab, i, id) implies i >= n by {
        if i < n {
            assert(about(a, i, id));
        }
    }
    let s = choose|i: int| #[trigger] about(b, i, id) && b[i].start == span.start;
    assert(about(ab, n + s, id));
    let e = choose|i: int| #[trigger] about(b, i, id) && b[i].end == span.end;
    assert(about(ab, n + e, id));
    let c = choose|i: int| #[trigger]
        about(b, i, id) && b[i].chr == span.chr && b[i].strand == span.strand;
    assert(about(ab, n + c, id));
    assert forall|i: int| #[trigger] about(ab, i, id) implies span.start <= ab[i].start && ab[i].end
        <= span.end by {
        assert(about(b, i - n, id));
    }
    assert forall|i: int| #[trigger] first_about(ab, i, id) && ab[i].chr.len() > 0 implies span.chr
        == ab[i].chr && span.strand == ab[i].strand by {
        assert(about(b, i - n, id));
        assert forall|j: int| 0 <= j < i - n implies !about(b, j, id) by {
            if about(b, j, id) {
                assert(about(ab, n + j, id));
            }
        }
        assert(first_about(b, i - n, id));
    }
}

/// The span over `a` joined with the span over `b` is the span over `a + b`.
pub proof fn lemma_summary_join(
    first: Span,
    a: Seq<RecordView>,
    other: Span,
    b: Seq<RecordView>,
    id: Seq<char>,
)
    requires
        is_summary(first, a, id),
        is_summary(other, b, id),
    ensures
        is_summary(join(first, other), a + b, id),
{
    let ab = a + b;
    let n = a.len() as int;
    let both = join(first, other);
    lemma_about_concat(a, b, id);
    let sa = choose|i: int| #[trigger] about(a, i, id) && a[i].start == first.start;
    let sb = choose|i: int| #[trigger] about(b, i, id) && b[i].start == other.start;
    let ea = choose|i: int| #[trigger] about(a, i, id) && a[i].end == first.end;
    let eb = choose|i: int| #[trigger] about(b, i, id) && b[i].end == other.end;
    let ca = choose|i: int| #[trigger]
        about(a, i, id) && a[i].chr == first.chr && a[i].strand == first.strand;
    let cb = choose|i: int| #[trigger]
        about(b, i, id) && b[i].chr == other.chr && b[i].strand == other.strand;
    assert(about(ab, sa, id) && about(ab, n + sb, id));
    assert(about(ab, ea, id) && about(ab, n + eb, id));
    assert(about(ab, ca, id) && about(ab, n + cb, id));
    assert(exists|i: int| #[trigger] about(ab, i, id) && ab[i].start == both.start) by {
        if other.start < first.start {
            assert(about(ab, n + sb, id) && ab[n + sb].start == both.start);
        } else {
            assert(about(ab, sa, id) && ab[sa].start == both.start);
        }
    }
    assert(exists|i: int| #[trigger] about(ab, i, id) && ab[i].end == both.end) by {
        if other.end > first.end {
            assert(about(ab, n + eb, id) && ab[n + eb].end == both.end);
        } else {
            assert(about(ab, ea, id) && ab[ea].end == both.end);
        }
    }
    assert(exists|i: int| #[trigger]
        about(ab, i, id) && ab[i].chr == both.chr && ab[i].strand == both.strand) by {
        if first.chr.len() > 0 {
            assert(about(ab, ca, id) && ab[ca].chr == both.chr && ab[ca].strand == both.strand);
        } else {
            assert(about(ab, n + cb, id) && ab[n + cb].chr == both.chr && ab[n + cb].strand
                == both.strand);
        }
    }
    assert forall|i: int| #[trigger] about(ab, i, id) implies both.start <= ab[i].start && ab[i].end
        <= both.end by {
        if i < n {
            assert(about(a, i, id));
        } else {
            assert(about(b, i - n, id));
        }
    }
    assert forall|i: int| #[trigger] first_about(ab, i, id) && ab[i].chr.len() > 0 implies both.chr
        == ab[i].chr && both.strand == ab[i].strand by {
        if i >= n {
            assert(about(ab, sa, id));
        }
        assert(about(a, i, id));
        assert forall|j: int| 0 <= j < i implies !about(a, j, id) by {
            if about(a, j, id) {
                assert(about(ab, j, id));
            }
        }
        assert(first_about(a, i, id));
    }
}

/// Merging a table that summarises `a` with one that summarises `b` gives a
/// table that summarises `a` followed by `b`.
pub proof fn lemma_merge_summarizes(
    first: Map<Seq<char>, Span>,
    a: Seq<RecordView>,
    other: Map<Seq<char>, Span>,
    b: Seq<RecordView>,
)
    requires
        summarizes(first, a),
        summarizes(other, b),
    ensures
        summarizes(merge_maps(first, other), a + b),
{
    let merged = merge_maps(first, other);
    let ab = a + b;
    assert forall|id: Seq<char>|
        (#[trigger] merged.contains_key(id) <==> mentions(ab, id)) && (merged.contains_key(id)
            ==> is_summary(merged[id], ab, id)) by {
        lemma_about_concat(a, b, id);
        assert(first.contains_key(id) <==> mentions(a, id));
        assert(other.contains_key(id) <==> mentions(b, id));
        if first.contains_key(id) && other.contains_key(id) {
            lemma_summary_join(first[id], a, other[id], b, id);
        } else if first.contains_key(id) {
            lemma_summary_left(first[id], a, b, id);
        } else if other.contains_key(id) {
            lemma_summary_right(other[id], a, b, id);
        }
    }
}

/// Two tables that summarise the same records hold the same identifiers,
/// each with the same start and the same end.
pub proof fn lemma_extremes_agree(
    one: Map<Seq<char>, Span>,
    two: Map<Seq<char>, Span>,
    records: Seq<RecordView>,
)
    requires
        summarizes(one, records),
        summarizes(two, records),
    ensures
        same_extremes(one, two),
{
    assert forall|id: Seq<char>|
        (#[trigger] one.contains_key(id) <==> two.contains_key(id)) && (one.contains_key(id)
            ==> one[id].start == two[id].start && one[id].end == two[id].end) by {
        assert(one.contains_key(id) <==> mentions(records, id));
        assert(two.contains_key(id) <==> mentions(records, id));
        if one.contains_key(id) {
            let s1 = choose|i: int| #[trigger]
                about(records, i, id) && records[i].start == one[id].start;
            let s2 = choose|i: int| #[trigger]
                about(records, i, id) && records[i].start == two[id].start;
            let e1 = choose|i: int| #[trigger] about(records, i, id) && records[i].end == one[id].end;
            let e2 = choose|i: int| #[trigger] about(records, i, id) && records[i].end == two[id].end;
            assert(about(records, s1, id) && about(records, s2, id));
            assert(about(records, e1, id) && about(records, e2, id));
        }
    }
}

/// The two tables hold the same identifiers, each with the same start and
/// the same end.
pub open spec fn same_extremes(one: Map<Seq<char>, Span>, two: Map<Seq<char>, Span>) -> bool {
    forall|id: Seq<char>|
        (#[trigger] one.contains_key(id) <==> two.contains_key(id)) && (one.contains_key(id)
            ==> one[id].start == two[id].start && one[id].end == two[id].end)
}

/// However the records are cut into consecutive parts, folding each part and
/// merging the tables summarises all the records.
pub proof fn lemma_parts_summarize(parts: Seq<Seq<RecordView>>)
    ensures
        summarizes(merge_all(parts.map_values(|p: Seq<RecordView>| fold_all(p))), parts.flatten()),
    decreases parts.len(),
{
    let tables = parts.map_values(|p: Seq<RecordView>| fold_all(p));
    if parts.len() == 0 {
        assert forall|id: Seq<char>| !mentions(parts.flatten(), id) by {}
    } else {
        let rest = parts.drop_first();
        lemma_parts_summarize(rest);
        assert(tables.drop_first() =~= rest.map_values(|p: Seq<RecordView>| fold_all(p)));
        lemma_fold_summarizes(parts.first());
        lemma_merge_summarizes(
            fold_all(parts.first()),
            parts.first(),
            merge_all(tables.drop_first()),
            rest.flatten(),
        );
    }
}

/// Folding all the records into one table, and cutting them into any
/// consecutive parts that are folded apart and then merged, give every
/// identifier the same start and the same end.
pub proof fn lemma_partition_invariance(parts: Seq<Seq<RecordView>>)
    ensures
        same_extremes(
            merge_all(parts.map_values(|p: Seq<RecordView>| fold_all(p))),
            fold_all(parts.flatten()),
        ),
{
    lemma_parts_summarize(parts);
    lemma_fold_summarizes(parts.flatten());
    lemma_extremes_agree(
        merge_all(parts.map_values(|p: Seq<RecordView>| fold_all(p))),
        fold_all(parts.flatten()),
        parts.flatten(),
    );
}

} // verus!
