use gxf2chrom::attr::Attribute;
use gxf2chrom::gxf::Record;
use gxf2chrom::utils::{
    accept_line, chrom_line, fold_record, merge, parallel_parse, InnerProtRecord, ProtRecord,
};

fn table(text: &str, key: &str) -> ProtRecord {
    parallel_parse(text, &key.to_string()).unwrap()
}

fn sorted(table: ProtRecord) -> Vec<(String, InnerProtRecord)> {
    let mut entries = table.into_entries();
    entries.sort_by(|a, b| a.0.cmp(&b.0));
    entries
}

fn span(chr: &str, strand: char, start: u32, end: u32) -> InnerProtRecord {
    InnerProtRecord { chr: chr.to_string(), strand, start, end }
}

fn record(id: &str, chr: &str, strand: char, start: u32, end: u32) -> Record {
    Record {
        chr: chr.to_string(),
        feat: "CDS".to_string(),
        start,
        end,
        strand,
        attr: Attribute { protein_id: id.to_string() },
    }
}

fn fold(records: Vec<Record>) -> ProtRecord {
    let mut acc = ProtRecord::new();
    for r in records {
        acc = fold_record(acc, r);
    }
    acc
}

#[test]
fn two_cds_lines_of_one_gene_are_spanned() {
    let text = "chr1\tHAVANA\tCDS\t100\t200\t.\t+\t.\tgene_id \"A\";\nchr1\tHAVANA\tCDS\t150\t300\t.\t+\t.\tgene_id \"A\";";
    let t = table(text, "gene_id");
    assert_eq!(t.get(&"A".to_string()), Some(&span("chr1", '+', 99, 300)));
    assert_eq!(sorted(t), vec![("A".to_string(), span("chr1", '+', 99, 300))]);
}

#[test]
fn lines_without_the_key_give_an_empty_table() {
    let text = "chr1\tH\tCDS\t100\t200\t.\t+\t.\tgene_id \"A\";\nchr1\tH\tCDS\t150\t300\t.\t+\t.\tgene_id \"B\";\n";
    let t = table(text, "protein_id");
    assert_eq!(t.get(&"A".to_string()), None);
    assert_eq!(t.into_entries().len(), 0);
}

#[test]
fn line_without_the_key_is_left_out() {
    let text = "chr1\tH\tCDS\t100\t200\t.\t+\t.\tgene_id \"A\";\nchr1\tH\tCDS\t1\t900\t.\t+\t.\tname \"A\";\n";
    assert_eq!(sorted(table(text, "gene_id")), vec![("A".to_string(), span("chr1", '+', 99, 200))]);
}

#[test]
fn empty_text_gives_an_empty_table() {
    assert_eq!(table("", "gene_id").into_entries().len(), 0);
    assert_eq!(table("\n\n\n", "gene_id").into_entries().len(), 0);
}

#[test]
fn other_types_and_empty_intervals_contribute_nothing() {
    let text = "chr1\tH\tCDS\t100\t200\t.\t+\t.\tID=A\n\
                chr1\tH\texon\t1\t999\t.\t+\t.\tID=A\n\
                chr1\tH\tcds\t1\t999\t.\t+\t.\tID=A\n\
                chr1\tH\tCDS\t50\t49\t.\t+\t.\tID=A\n\
                chr1\tH\tCDS\t50\t10\t.\t+\t.\tID=A\n\
                chr1\tH\tCDS\t700\t600\t.\t+\t.\tID=B\n\
                chr1\tH\tgene\t1\t5\t.\t+\t.\tID=C\n";
    assert_eq!(sorted(table(text, "ID")), vec![("A".to_string(), span("chr1", '+', 99, 200))]);
}

#[test]
fn interval_of_one_base_contributes() {
    let text = "chr1\tH\tCDS\t50\t50\t.\t+\t.\tID=A\n";
    assert_eq!(sorted(table(text, "ID")), vec![("A".to_string(), span("chr1", '+', 49, 50))]);
}

#[test]
fn comment_lines_contribute_nothing() {
    let text = "#chr1\tH\tCDS\t1\t999\t.\t+\t.\tID=A\n\
                chr1\tH\tCDS\t100\t200\t.\t+\t.\tID=A\n\
                ##gff-version 3\n\
                #\n\
                chr1\tH\tCDS\t150\t300\t.\t+\t.\tID=A\n\
                #chr1\tH\tCDS\t1\t999\t.\t+\t.\tID=B";
    assert_eq!(sorted(table(text, "ID")), vec![("A".to_string(), span("chr1", '+', 99, 300))]);
}

#[test]
fn comment_line_is_not_accepted_though_it_reads_as_a_record() {
    let key = "ID".to_string();
    assert!(Record::parse("#chr1\tH\tCDS\t1\t999\t.\t+\t.\tID=A", &key).is_ok());
    assert_eq!(accept_line("#chr1\tH\tCDS\t1\t999\t.\t+\t.\tID=A", &key), None);
    assert_eq!(
        accept_line("chr1\tH\tCDS\t1\t999\t.\t+\t.\tID=A", &key),
        Some(record("A", "chr1", '+', 0, 999))
    );
}

#[test]
fn lines_that_cannot_be_read_are_dropped() {
    let text = "garbage\n\
                chr1\tH\tCDS\tx\t200\t.\t+\t.\tID=A\n\
                chr1\tH\tCDS\t0\t200\t.\t+\t.\tID=A\n\
                chr1\tH\tCDS\t1\t\t.\t+\t.\tID=A\n\
                chr1\tH\tCDS\t1\t200\t.\t+-\t.\tID=A\n\
                chr1\tH\tCDS\t1\t200\t.\t+\t.\tID=A;broken\n\
                chr1\tH\tCDS\t10\t20\t.\t-\t.\tID=A\n";
    assert_eq!(sorted(table(text, "ID")), vec![("A".to_string(), span("chr1", '-', 9, 20))]);
}

#[test]
fn carriage_returns_end_lines_too() {
    let text = "chr1\tH\tCDS\t100\t200\t.\t+\t.\tID=A\r\nchr2\tH\tCDS\t5\t6\t.\t-\t.\tID=B\r\n";
    assert_eq!(
        sorted(table(text, "ID")),
        vec![
            ("A".to_string(), span("chr1", '+', 99, 200)),
            ("B".to_string(), span("chr2", '-', 4, 6)),
        ]
    );
}

#[test]
fn first_record_gives_chromosome_and_strand() {
    let text = "chr1\tH\tCDS\t100\t200\t.\t+\t.\tID=A\n\
                chr2\tH\tCDS\t50\t120\t.\t-\t.\tID=A\n\
                chr3\tH\tCDS\t150\t400\t.\t.\t.\tID=A\n";
    assert_eq!(sorted(table(text, "ID")), vec![("A".to_string(), span("chr1", '+', 49, 400))]);
}

#[test]
fn many_identifiers_are_kept_apart() {
    let mut text = String::new();
    for i in 0..2000u32 {
        text.push_str(&format!("chr{}\tH\tCDS\t{}\t{}\t.\t+\t.\tID=g{}\n", i % 7, 1000 + i, 2000 + i, i % 250));
    }
    let t = sorted(table(&text, "ID"));
    assert_eq!(t.len(), 250);
    for (id, s) in &t {
        let k: u32 = id[1..].parse().unwrap();
        assert_eq!(s.start, 999 + k);
        assert_eq!(s.end, 2000 + 1750 + k);
        assert_eq!(s.chr, format!("chr{}", k % 7));
        assert_eq!(s.strand, '+');
    }
}

#[test]
fn folding_seeds_then_widens() {
    let t = fold(vec![
        record("A", "chr1", '+', 10, 20),
        record("B", "chr2", '-', 5, 6),
        record("A", "chr9", '-', 15, 30),
        record("A", "chr9", '-', 3, 4),
    ]);
    assert_eq!(
        sorted(t),
        vec![
            ("A".to_string(), span("chr1", '+', 3, 30)),
            ("B".to_string(), span("chr2", '-', 5, 6)),
        ]
    );
}

#[test]
fn folding_widens_a_span_without_chromosome_too() {
    let t = fold(vec![record("A", "", '+', 10, 20), record("A", "chr1", '-', 5, 30)]);
    assert_eq!(sorted(t), vec![("A".to_string(), span("", '+', 5, 30))]);
}

#[test]
fn merging_joins_common_identifiers() {
    let a = fold(vec![record("A", "chr1", '+', 10, 20), record("B", "chr2", '-', 5, 6)]);
    let b = fold(vec![record("A", "chr7", '-', 1, 15), record("C", "chr3", '.', 8, 9)]);
    assert_eq!(
        sorted(merge(a, b)),
        vec![
            ("A".to_string(), span("chr1", '+', 1, 20)),
            ("B".to_string(), span("chr2", '-', 5, 6)),
            ("C".to_string(), span("chr3", '.', 8, 9)),
        ]
    );
}

#[test]
fn merging_takes_chromosome_from_the_other_where_the_first_has_none() {
    let a = fold(vec![record("A", "", '+', 10, 20)]);
    let b = fold(vec![record("A", "chr7", '-', 1, 15)]);
    assert_eq!(sorted(merge(a, b)), vec![("A".to_string(), span("chr7", '-', 1, 20))]);
}

#[test]
fn merging_with_an_empty_table_changes_nothing() {
    let a = fold(vec![record("A", "chr1", '+', 10, 20)]);
    assert_eq!(sorted(merge(a, ProtRecord::new())), vec![("A".to_string(), span("chr1", '+', 10, 20))]);
    let b = fold(vec![record("A", "chr1", '+', 10, 20)]);
    assert_eq!(sorted(merge(ProtRecord::new(), b)), vec![("A".to_string(), span("chr1", '+', 10, 20))]);
}

fn records() -> Vec<Record> {
    vec![
        record("A", "chr1", '+', 100, 200),
        record("B", "chr2", '-', 50, 60),
        record("A", "chr1", '+', 90, 150),
        record("C", "chr3", '+', 1, 2),
        record("B", "chr2", '-', 55, 80),
        record("A", "chr1", '+', 120, 400),
        record("C", "chr3", '+', 0, 1),
    ]
}

#[test]
fn one_part_and_many_parts_give_the_same_spans() {
    let whole = sorted(fold(records()));
    for cut in [vec![0, 7], vec![3, 7], vec![1, 2, 3, 4, 5, 6, 7], vec![0, 0, 4, 4, 7], vec![6, 7]] {
        let mut rest = records();
        rest.reverse();
        let mut parts: Vec<ProtRecord> = Vec::new();
        let mut taken = 0;
        for end in cut {
            let mut part = Vec::new();
            while taken < end {
                part.push(rest.pop().unwrap());
                taken += 1;
            }
            parts.push(fold(part));
        }
        let mut acc = ProtRecord::new();
        while let Some(part) = parts.pop() {
            acc = merge(part, acc);
        }
        assert_eq!(sorted(acc), whole);
    }
    assert_eq!(
        whole,
        vec![
            ("A".to_string(), span("chr1", '+', 90, 400)),
            ("B".to_string(), span("chr2", '-', 50, 80)),
            ("C".to_string(), span("chr3", '+', 0, 2)),
        ]
    );
}

#[test]
fn parts_may_be_merged_in_any_order() {
    let a = || fold(vec![record("A", "chr1", '+', 100, 200), record("B", "chr2", '-', 50, 60)]);
    let b = || fold(vec![record("A", "chr1", '+', 90, 150)]);
    let c = || fold(vec![record("B", "chr2", '-', 55, 80), record("A", "chr1", '+', 120, 400)]);
    let expected = sorted(merge(a(), merge(b(), c())));
    assert_eq!(sorted(merge(merge(a(), b()), c())), expected);
    assert_eq!(sorted(merge(c(), merge(a(), b()))), expected);
    assert_eq!(sorted(merge(b(), merge(c(), a()))), expected);
}

#[test]
fn table_lookup_finds_what_was_folded() {
    let t = fold(vec![record("A", "chr1", '+', 10, 20)]);
    assert_eq!(t.get(&"A".to_string()), Some(&span("chr1", '+', 10, 20)));
    assert_eq!(t.get(&"B".to_string()), None);
    assert_eq!(ProtRecord::new().get(&"A".to_string()), None);
}

#[test]
fn default_span_is_empty() {
    assert_eq!(InnerProtRecord::default(), span("", ' ', 0, 0));
}

#[test]
fn chrom_line_has_five_tabbed_fields() {
    assert_eq!(chrom_line(&"A".to_string(), &span("chr1", '+', 99, 300)), "A\tchr1\t+\t99\t300");
    assert_eq!(chrom_line(&"".to_string(), &span("", '.', 0, 4294967295)), "\t\t.\t0\t4294967295");
}

#[test]
fn number_of_threads_does_not_change_the_table() {
    let mut text = String::from("# header\n");
    for i in 0..5000u32 {
        let kind = if i % 5 == 0 { "exon" } else { "CDS" };
        text.push_str(&format!(
            "chr{}\tsrc\t{}\t{}\t{}\t.\t{}\t.\tgene_id \"g{}\"; n \"{}\";\n",
            i % 3,
            kind,
            (i * 37) % 1000 + 1,
            (i * 91) % 1500,
            if i % 2 == 0 { '+' } else { '-' },
            i % 97,
            i
        ));
    }
    let expected = sorted(table(&text, "gene_id"));
    assert_eq!(expected.len(), 97);
    for threads in [1, 2, 3, 8] {
        let pool = rayon::ThreadPoolBuilder::new().num_threads(threads).build().unwrap();
        let got = pool.install(|| table(&text, "gene_id"));
        assert_eq!(sorted(got), expected);
    }
    let mut whole = ProtRecord::new();
    let key = "gene_id".to_string();
    for line in text.lines() {
        if let Some(r) = accept_line(line, &key) {
            whole = fold_record(whole, r);
        }
    }
    assert_eq!(sorted(whole), expected);
}
