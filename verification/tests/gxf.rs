use gxf2chrom::gxf::Record;

#[test]
fn test_record_gtf() {
    let line = "chr1\tunknown\texon\t11869\t12227\t.\t+\t.\tgene_id \"DDX11L1\"; gene_name \"DDX11L1\"; gene_source \"ensembl_havana\";
        gene_biotype \"transcribed_unprocessed_pseudogene\";".to_string();
    let feature = "gene_id".to_string();
    let record = Record::parse(&line, &feature).unwrap();
    assert_eq!(record.chr, "chr1");
    assert_eq!(record.feat, "exon");
    assert_eq!(record.start, 11868);
    assert_eq!(record.end, 12227);
    assert_eq!(record.strand, '+');
}

#[test]
fn test_record_gff() {
    let line = "chr1\tunknown\texon\t11869\t12227\t.\t+\t.\tID=ENSG00000223972;Name=DDX11L1;biotype=transcribed_unprocessed_pseudogene";
    let feature = "ID".to_string();
    let record = Record::parse(&line, &feature).unwrap();
    assert_eq!(record.chr, "chr1");
    assert_eq!(record.feat, "exon");
    assert_eq!(record.start, 11868);
    assert_eq!(record.end, 12227);
    assert_eq!(record.strand, '+');
}

#[test]
fn test_empty_line() {
    let line = "";
    let feature = "ID".to_string();
    let record = Record::parse(&line, &feature);
    assert_eq!(record, Err("Empty line"));
}
