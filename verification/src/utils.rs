//! The table of coordinate spans: how one record is folded into a table, how
//! two tables are merged, and how a whole text is summarised in parallel.
use crate::gxf::{parse_chars_line, parse_line, Record, RecordView};
use crate::number::{decimal, push_decimal};
use crate::summary::{
    fold_all, lemma_fold_summarizes, lemma_merge_summarizes, lemma_summary_is_proper, mentions,
    proper, summarizes,
};
use crate::text::{same_text, split, to_chars};
use rayon::iter::ParallelIterator;
use rayon::str::ParallelString;
use vstd::prelude::*;
use vstd::string::StringExecFns;

verus! {

/// The span of one identifier: the chromosome and strand of the record that
/// was seen first, the least start and the greatest end.
#[derive(Debug, PartialEq)]
pub struct InnerProtRecord {
    pub chr: String,
    pub strand: char,
    pub start: u32,
    pub end: u32,
}

/// What an `InnerProtRecord` holds, with the chromosome as its characters.
pub struct Span {
    pub chr: Seq<char>,
    pub strand: char,
    pub start: u32,
    pub end: u32,
}

impl View for InnerProtRecord {
    type V = Span;

    open spec fn view(&self) -> Span {
        Span { chr: self.chr@, strand: self.strand, start: self.start, end: self.end }
    }
}

impl Default for InnerProtRecord {
    /// The span of nothing: no chromosome, a blank strand, and 0 to 0.
    fn default() -> (r: Self)
        ensures
            r@ == (Span { chr: Seq::empty(), strand: ' ', start: 0, end: 0 }),
    {
        InnerProtRecord { chr: String::new(), strand: ' ', start: 0, end: 0 }
    }
}

/// The table of spans, one for each identifier: a hash map.
#[verifier::external_body]
pub struct ProtRecord {
    inner: hashbrown::HashMap<String, InnerProtRecord>,
}

/// What a `ProtRecord` holds: the span that each of its identifiers is mapped to.
pub uninterp spec fn table_entries(t: ProtRecord) -> Map<Seq<char>, Span>;

impl View for ProtRecord {
    type V = Map<Seq<char>, Span>;

    open spec fn view(&self) -> Map<Seq<char>, Span> {
        table_entries(*self)
    }
}

/// `hashbrown::HashMap::new`: a table that holds nothing.
#[verifier::external_body]
fn table_new() -> (t: ProtRecord)
    ensures
        table_entries(t) == (Map::<Seq<char>, Span>::empty()),
{
    ProtRecord { inner: hashbrown::HashMap::new() }
}

/// `hashbrown::HashMap::insert`: afterwards the identifier is mapped to the
/// span, in place of what it was mapped to before, and every other identifier
/// is as it was.
#[verifier::external_body]
fn table_insert(t: &mut ProtRecord, id: String, span: InnerProtRecord)
    ensures
        table_entries(*final(t)) == table_entries(*old(t)).insert(id@, span@),
{
    t.inner.insert(id, span);
}

/// `hashbrown::HashMap::remove`: the span that the identifier was mapped to,
/// and `None` exactly where the table did not hold it; afterwards the table
/// does not hold the identifier, and every other identifier is as it was.
#[verifier::external_body]
fn table_remove(t: &mut ProtRecord, id: &String) -> (r: Option<InnerProtRecord>)
    ensures
        table_entries(*final(t)) == table_entries(*old(t)).remove(id@),
        r is Some == table_entries(*old(t)).contains_key(id@),
        r matches Some(span) ==> span@ == table_entries(*old(t))[id@],
{
    t.inner.remove(id)
}

/// `hashbrown::HashMap::get`: the span that the identifier is mapped to, and
/// `None` exactly where the table does not hold it.
#[verifier::external_body]
fn table_get<'a>(t: &'a ProtRecord, id: &String) -> (r: Option<&'a InnerProtRecord>)
    ensures
        r is Some == table_entries(*t).contains_key(id@),
        r matches Some(span) ==> span@ == table_entries(*t)[id@],
{
    t.inner.get(id)
}

/// The pairs are those of the table: no identifier comes twice, each comes
/// with the span that the table maps it to, and none of the table is left out.
pub open spec fn lists(pairs: Seq<(String, InnerProtRecord)>, table: Map<Seq<char>, Span>) -> bool {
    &&& forall|i: int|
        0 <= i < pairs.len() ==> table.contains_key((#[trigger] pairs[i]).0@) && table[pairs[i].0@]
            == pairs[i].1@
    &&& forall|i: int, j: int|
        0 <= i < j < pairs.len() ==> (#[trigger] pairs[i]).0@ != (#[trigger] pairs[j]).0@
    &&& forall|id: Seq<char>| #[trigger]
        table.contains_key(id) ==> exists|i: int|
            0 <= i < pairs.len() && (#[trigger] pairs[i]).0@ == id
}

/// `hashbrown::HashMap::into_iter`: every pair of the table once, in an
/// order that is not told.
#[verifier::external_body]
fn table_into_entries(t: ProtRecord) -> (v: Vec<(String, InnerProtRecord)>)
    ensures
        lists(v@, table_entries(t)),
{
    t.inner.into_iter().collect()
}

impl ProtRecord {
    /// A table that holds nothing.
    pub fn new() -> (t: Self)
        ensures
            t@ == (Map::<Seq<char>, Span>::empty()),
    {
        table_new()
    }

    /// The span of an identifier, if the table holds it.
    pub fn get(&self, id: &String) -> (r: Option<&InnerProtRecord>)
        ensures
            r is Some == self@.contains_key(id@),
            r matches Some(span) ==> span@ == self@[id@],
    {
        table_get(self, id)
    }

    /// The identifiers of the table with their spans, in no particular order.
    pub fn into_entries(self) -> (v: Vec<(String, InnerProtRecord)>)
        ensures
            lists(v@, self@),
    {
        table_into_entries(self)
    }
}

/// The span that one record alone gives its identifier.
pub open spec fn seed(r: RecordView) -> Span {
    Span { chr: r.chr, strand: r.strand, start: r.start, end: r.end }
}

/// The span `s`, grown to reach the start and the end of `r`.
pub open spec fn widen(s: Span, r: RecordView) -> Span {
    Span {
        chr: s.chr,
        strand: s.strand,
        start: if r.start < s.start {
            r.start
        } else {
            s.start
        },
        end: if r.end > s.end {
            r.end
        } else {
            s.end
        },
    }
}

/// The table after one more record: the first record of an identifier gives
/// it its span, each later one widens that span.
pub open spec fn fold_one(table: Map<Seq<char>, Span>, r: RecordView) -> Map<Seq<char>, Span> {
    if table.contains_key(r.id) {
        table.insert(r.id, widen(table[r.id], r))
    } else {
        table.insert(r.id, seed(r))
    }
}

/// Folds one record into a table.
pub fn fold_record(acc: ProtRecord, record: Record) -> (r: ProtRecord)
    ensures
        r@ == fold_one(acc@, record@),
{
    let ghost before = acc@;
    let ghost id = record@.id;
    let mut acc = acc;
    let Record { chr, feat: _, start, end, strand, attr } = record;
    let span = match table_remove(&mut acc, &attr.protein_id) {
        Some(seen) => InnerProtRecord {
            chr: seen.chr,
            strand: seen.strand,
            start: if start < seen.start {
                start
            } else {
                seen.start
            },
            end: if end > seen.end {
                end
            } else {
                seen.end
            },
        },
        None => InnerProtRecord { chr, strand, start, end },
    };
    table_insert(&mut acc, attr.protein_id, span);
    assert(acc@ =~= fold_one(before, record@)) by {
        assert(before.remove(id).insert(id, fold_one(before, record@)[id]) =~= fold_one(
            before,
            record@,
        ));
    }
    acc
}

/// One span out of two for the same identifier: the least start and the
/// greatest end, with the chromosome and strand of `first`, or of `other`
/// where `first` names no chromosome.
pub open spec fn join(first: Span, other: Span) -> Span {
    Span {
        chr: if first.chr.len() > 0 {
            first.chr
        } else {
            other.chr
        },
        strand: if first.chr.len() > 0 {
            first.strand
        } else {
            other.strand
        },
        start: if other.start < first.start {
            other.start
        } else {
            first.start
        },
        end: if other.end > first.end {
            other.end
        } else {
            first.end
        },
    }
}

/// `first` with `other` merged into it for the identifiers in `done`.
pub open spec fn merge_over(
    first: Map<Seq<char>, Span>,
    other: Map<Seq<char>, Span>,
    done: Set<Seq<char>>,
) -> Map<Seq<char>, Span> {
    Map::new(
        |id: Seq<char>| first.contains_key(id) || done.contains(id),
        |id: Seq<char>|
            if !done.contains(id) {
                first[id]
            } else if first.contains_key(id) {
                join(first[id], other[id])
            } else {
                other[id]
            },
    )
}

/// The two tables as one: an identifier of one table alone keeps its span,
/// one of both gets the two spans joined.
pub open spec fn merge_maps(first: Map<Seq<char>, Span>, other: Map<Seq<char>, Span>) -> Map<
    Seq<char>,
    Span,
> {
    merge_over(first, other, other.dom())
}

/// Joins two spans of one identifier.
fn join_spans(first: InnerProtRecord, other: InnerProtRecord) -> (r: InnerProtRecord)
    ensures
        r@ == join(first@, other@),
{
    let start = if other.start < first.start {
        other.start
    } else {
        first.start
    };
    let end = if other.end > first.end {
        other.end
    } else {
        first.end
    };
    if first.chr.as_str().is_empty() {
        InnerProtRecord { chr: other.chr, strand: other.strand, start, end }
    } else {
        InnerProtRecord { chr: first.chr, strand: first.strand, start, end }
    }
}

/// Merges the table `other` into `acc`.
pub fn merge(acc: ProtRecord, other: ProtRecord) -> (r: ProtRecord)
    ensures
        r@ == merge_maps(acc@, other@),
{
    let ghost first = acc@;
    let ghost second = other@;
    let mut acc = acc;
    let mut entries = table_into_entries(other);
    let ghost all = entries@;
    assert(lists(all, second));
    let ghost mut done = Set::<Seq<char>>::empty();
    assert(acc@ =~= merge_over(first, second, done));
    while entries.len() > 0
        invariant
            entries.len() <= all.len(),
            entries@ == all.take(entries.len() as int),
            forall|id: Seq<char>| done.contains(id) ==> second.contains_key(id),
            forall|i: int|
                0 <= i < all.len() ==> second.contains_key((#[trigger] all[i]).0@)
                    && second[all[i].0@] == all[i].1@,
            forall|i: int, j: int|
                0 <= i < j < all.len() ==> (#[trigger] all[i]).0@ != (#[trigger] all[j]).0@,
            forall|i: int| 0 <= i < all.len() ==> (done.contains((#[trigger] all[i]).0@) <==> i >= entries.len()),
            acc@ == merge_over(first, second, done),
        decreases entries.len(),
    {
        let ghost n = entries.len() - 1;
        let (id, span) = entries.pop().unwrap();
        assert(id@ == all[n].0@ && span@ == all[n].1@);
        let ghost before = acc@;
        let merged = match table_remove(&mut acc, &id) {
            Some(seen) => join_spans(seen, span),
            None => span,
        };
        let ghost key = id@;
        table_insert(&mut acc, id, merged);
        proof {
            assert(!done.contains(key));
            let grown = done.insert(key);
            assert(acc@ =~= merge_over(first, second, grown));
            assert forall|i: int| 0 <= i < all.len() implies (grown.contains(
                (#[trigger] all[i]).0@,
            ) <==> i >= n) by {
                if i < n {
                    assert(all[i].0@ != all[n].0@);
                } else if i > n {
                    assert(done.contains(all[i].0@));
                }
            }
            done = grown;
        }
    }
    proof {
        assert forall|id: Seq<char>| second.contains_key(id) implies done.contains(id) by {
            let i = choose|i: int| 0 <= i < all.len() && (#[trigger] all[i]).0@ == id;
            assert(done.contains(all[i].0@));
        }
        assert(done =~= second.dom());
    }
    acc
}

/// `line` without one carriage return at its end.
pub open spec fn strip_cr(line: Seq<char>) -> Seq<char> {
    if line.len() > 0 && line.last() == '\r' {
        line.drop_last()
    } else {
        line
    }
}

/// The lines of a text: the pieces between line feeds, without the last
/// piece where it is empty, each without a carriage return at its end.
pub open spec fn lines(text: Seq<char>) -> Seq<Seq<char>> {
    let pieces = split(text, '\n');
    let kept = if pieces.last().len() == 0 {
        pieces.drop_last()
    } else {
        pieces
    };
    kept.map_values(|line: Seq<char>| strip_cr(line))
}

/// The line starts with `#`.
pub open spec fn is_comment(line: Seq<char>) -> bool {
    line.len() > 0 && line.first() == '#'
}

/// The record that a line contributes: the one it stands for, where the line
/// is no comment, can be read, is of type `CDS` and starts before it ends.
pub open spec fn accept(line: Seq<char>, key: Seq<char>) -> Option<RecordView> {
    if is_comment(line) {
        None
    } else {
        match parse_line(line, key) {
            Ok(r) => if r.feat == "CDS"@ && r.start < r.end {
                Some(r)
            } else {
                None
            },
            Err(_) => None,
        }
    }
}

/// The records that the lines contribute, in the order of the lines.
pub open spec fn accepted(lines: Seq<Seq<char>>, key: Seq<char>) -> Seq<RecordView>
    decreases lines.len(),
{
    if lines.len() == 0 {
        Seq::empty()
    } else {
        match accept(lines.last(), key) {
            Some(r) => accepted(lines.drop_last(), key).push(r),
            None => accepted(lines.drop_last(), key),
        }
    }
}

/// The record that a line contributes to the table, if any.
pub fn accept_line(line: &str, key: &String) -> (r: Option<Record>)
    ensures
        match r {
            Some(record) => accept(line@, key@) == Some(record@),
            None => accept(line@, key@) is None,
        },
{
    let chars = to_chars(line);
    if chars.len() > 0 && chars[0] == '#' {
        return None;
    }
    match parse_chars_line(chars.as_slice(), key) {
        Ok(record) => if same_text(record.feat.as_str(), "CDS") && record.start < record.end {
            Some(record)
        } else {
            None
        },
        Err(_) => None,
    }
}

/// The records of lines that follow other lines come after the records of
/// those.
pub proof fn lemma_accepted_concat(a: Seq<Seq<char>>, b: Seq<Seq<char>>, key: Seq<char>)
    ensures
        accepted(a + b, key) == accepted(a, key) + accepted(b, key),
    decreases b.len(),
{
    if b.len() == 0 {
        assert(a + b =~= a);
        assert(accepted(a, key) + accepted(b, key) =~= accepted(a, key));
    } else {
        let init = b.drop_last();
        lemma_accepted_concat(a, init, key);
        assert((a + b).drop_last() =~= a + init);
        assert((a + b).last() == b.last());
        match accept(b.last(), key) {
            Some(r) => {
                assert((accepted(a, key) + accepted(init, key)).push(r) =~= accepted(a, key)
                    + accepted(init, key).push(r));
            },
            None => {},
        }
    }
}

/// A line that contributes no record can stand anywhere among the lines, or
/// be left out: the records are the same.
pub proof fn lemma_rejected_line(
    before: Seq<Seq<char>>,
    line: Seq<char>,
    after: Seq<Seq<char>>,
    key: Seq<char>,
)
    requires
        accept(line, key) is None,
    ensures
        accepted(before + seq![line] + after, key) == accepted(before + after, key),
{
    lemma_accepted_concat(before + seq![line], after, key);
    lemma_accepted_concat(before, seq![line], key);
    lemma_accepted_concat(before, after, key);
    assert(seq![line].last() == line);
    assert(seq![line].drop_last().len() == 0);
    assert(accepted(seq![line].drop_last(), key) =~= Seq::<RecordView>::empty());
    assert(accepted(seq![line], key) =~= Seq::<RecordView>::empty());
    assert(accepted(before, key) + Seq::<RecordView>::empty() =~= accepted(before, key));
}

/// A line that stands for a record of another type than `CDS`, or for one
/// that does not start before it ends, contributes nothing: with or without
/// it the records are the same, also where other lines carry its identifier.
pub proof fn lemma_filtered_record(
    before: Seq<Seq<char>>,
    line: Seq<char>,
    after: Seq<Seq<char>>,
    key: Seq<char>,
)
    requires
        parse_line(line, key) matches Ok(r) && (r.feat != "CDS"@ || r.start >= r.end),
    ensures
        accepted(before + seq![line] + after, key) == accepted(before + after, key),
{
    lemma_rejected_line(before, line, after, key);
}

/// A comment line contributes nothing, wherever it stands and whatever
/// follows its `#`: what it would stand for as a record is never asked.
pub proof fn lemma_comment_line(
    before: Seq<Seq<char>>,
    line: Seq<char>,
    after: Seq<Seq<char>>,
    key: Seq<char>,
)
    requires
        is_comment(line),
    ensures
        accept(line, key) is None,
        accepted(before + seq![line] + after, key) == accepted(before + after, key),
{
    lemma_rejected_line(before, line, after, key);
}

/// Every record that the lines contribute is of type `CDS` and starts before
/// it ends.
pub proof fn lemma_accepted_are_cds(lines: Seq<Seq<char>>, key: Seq<char>)
    ensures
        forall|i: int|
            0 <= i < accepted(lines, key).len() ==> (#[trigger] accepted(lines, key)[i]).feat
                == "CDS"@ && accepted(lines, key)[i].start < accepted(lines, key)[i].end,
    decreases lines.len(),
{
    if lines.len() > 0 {
        let init = accepted(lines.drop_last(), key);
        lemma_accepted_are_cds(lines.drop_last(), key);
        assert forall|i: int| 0 <= i < accepted(lines, key).len() implies (#[trigger] accepted(
            lines,
            key,
        )[i]).feat == "CDS"@ && accepted(lines, key)[i].start < accepted(lines, key)[i].end by {
            if i < init.len() {
                assert(accepted(lines, key)[i] == init[i]);
            }
        }
    }
}

/// Table `i` holds the records of part `i`, folded in one after the other.
pub open spec fn folded(tables: Seq<ProtRecord>, parts: Seq<Seq<RecordView>>) -> bool {
    tables.len() == parts.len() && forall|i: int|
        0 <= i < tables.len() ==> (#[trigger] tables[i])@ == fold_all(parts[i])
}

/// The tables hold `records`, cut into consecutive parts and each part folded.
pub open spec fn folded_in_parts(tables: Seq<ProtRecord>, records: Seq<RecordView>) -> bool {
    exists|parts: Seq<Seq<RecordView>>|
        #![trigger folded(tables, parts)]
        folded(tables, parts) && parts.flatten() == records
}

/// rayon's `par_lines`, `filter_map`, `fold` and `collect` into a `Vec`:
/// the lines of the text are cut into consecutive parts, as many and as long
/// as rayon sees fit; each part starts from an empty table and has the
/// records that its lines contribute folded in, in the order of the lines;
/// the tables come back in the order of the parts.
#[verifier::external_body]
fn fold_lines(s: &str, f: &String) -> (tables: Vec<ProtRecord>)
    ensures
        folded_in_parts(tables@, accepted(lines(s@), f@)),
{
    s.par_lines().filter_map(|line| accept_line(line, f)).fold(table_new, fold_record).collect()
}

/// Summarises the `CDS` records of a whole annotation text, with the values
/// of the attribute `f` as identifiers.
///
/// Comment lines, lines that cannot be read, records of another type and
/// records that do not start before they end contribute nothing. The table
/// holds each identifier of the other records with the least start and the
/// greatest end among its records, and with the chromosome and strand of the
/// first of them; where that one names no chromosome, with those of one of
/// them. Every span starts before it ends. The call never fails.
pub fn parallel_parse<'a>(s: &'a str, f: &'a String) -> (r: Result<ProtRecord, &'static str>)
    ensures
        r matches Ok(table) && summarizes(table@, accepted(lines(s@), f@)) && proper(table@),
{
    let mut tables = fold_lines(s, f);
    let ghost all = tables@;
    let ghost parts = choose|parts: Seq<Seq<RecordView>>|
        #![trigger folded(all, parts)]
        folded(all, parts) && parts.flatten() == accepted(lines(s@), f@);
    let mut acc = table_new();
    proof {
        assert(parts.skip(parts.len() as int).flatten() =~= Seq::<RecordView>::empty());
        assert forall|id: Seq<char>| !mentions(Seq::<RecordView>::empty(), id) by {}
    }
    while tables.len() > 0
        invariant
            tables.len() <= all.len(),
            tables@ == all.take(tables.len() as int),
            folded(all, parts),
            summarizes(acc@, parts.skip(tables.len() as int).flatten()),
        decreases tables.len(),
    {
        let ghost n = tables.len() - 1;
        let table = tables.pop().unwrap();
        proof {
            assert(table == all[n]);
            lemma_fold_summarizes(parts[n]);
            lemma_merge_summarizes(table@, parts[n], acc@, parts.skip(n + 1).flatten());
            assert(parts.skip(n).drop_first() =~= parts.skip(n + 1));
            assert(parts.skip(n).first() == parts[n]);
        }
        acc = merge(table, acc);
    }
    proof {
        assert(parts.skip(0) =~= parts);
        lemma_accepted_are_cds(lines(s@), f@);
        lemma_summary_is_proper(acc@, accepted(lines(s@), f@));
    }
    Ok(acc)
}

/// The line of the `.chrom` format for one identifier: the identifier, the
/// chromosome, the strand, the start and the end, with a tab between each two.
pub open spec fn chrom_line_text(id: Seq<char>, span: Span) -> Seq<char> {
    id + seq!['\t'] + span.chr + seq!['\t', span.strand, '\t'] + decimal(span.start as nat)
        + seq!['\t'] + decimal(span.end as nat)
}

/// Writes one identifier and its span as a line of the `.chrom` format,
/// without a line end.
pub fn chrom_line(id: &String, span: &InnerProtRecord) -> (r: String)
    ensures
        r@ == chrom_line_text(id@, span@),
{
    let mut r = id.clone();
    r.push('\t');
    r.append(span.chr.as_str());
    r.push('\t');
    r.push(span.strand);
    r.push('\t');
    push_decimal(&mut r, span.start);
    r.push('\t');
    push_decimal(&mut r, span.end);
    assert(r@ =~= chrom_line_text(id@, span@));
    r
}

} // verus!
