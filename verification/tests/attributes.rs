use gxf2chrom::attr::{get_pair, Attribute, ParseError};

fn lookup(column: &str, key: &str) -> Result<Attribute, ParseError> {
    Attribute::parse(&column.to_string(), &key.to_string())
}

fn value(column: &str, key: &str) -> String {
    lookup(column, key).unwrap().protein_id
}

#[test]
fn empty_column_is_refused_as_empty() {
    assert_eq!(lookup("", "gene_id").unwrap_err(), ParseError::Empty);
}

#[test]
fn gtf_style_value_is_unquoted() {
    assert_eq!(value("gene_id \"A\"; gene_name \"B\";", "gene_name"), "B");
}

#[test]
fn gff_style_value_is_returned() {
    assert_eq!(value("ID=x1;Name=n1", "ID"), "x1");
    assert_eq!(value("ID=x1;Name=n1", "Name"), "n1");
}

#[test]
fn gff_style_value_may_be_quoted() {
    assert_eq!(value("ID=\"x1\";Name=\"n 1\"", "Name"), "n 1");
}

#[test]
fn styles_may_be_mixed() {
    let column = "gene_id \"G\"; ID=T; level 2";
    assert_eq!(value(column, "gene_id"), "G");
    assert_eq!(value(column, "ID"), "T");
    assert_eq!(value(column, "level"), "2");
}

#[test]
fn last_field_needs_no_semicolon() {
    assert_eq!(value("a=1;b=2", "b"), "2");
    assert_eq!(value("a \"1\"; b \"2\"", "b"), "2");
}

#[test]
fn last_field_without_semicolon_may_be_followed_by_whitespace() {
    assert_eq!(value("a=1;b=2 ", "b"), "2");
    assert_eq!(value("a=1;b=2\t\n", "b"), "2");
}

#[test]
fn repeated_key_gives_last_value() {
    assert_eq!(value("tag \"basic\"; tag \"Ensembl_canonical\";", "tag"), "Ensembl_canonical");
    assert_eq!(value("k=1;k=2;other=9;k=3", "k"), "3");
}

#[test]
fn empty_fields_are_passed_over() {
    assert_eq!(value(";;a=1;;b=2;;", "a"), "1");
    assert_eq!(value(";;a=1;;b=2;;", "b"), "2");
}

#[test]
fn whitespace_only_fields_are_passed_over() {
    assert_eq!(value(" ;a=1; \t ;b=2;  ", "b"), "2");
    assert_eq!(value(" ;a=1", "a"), "1");
}

#[test]
fn whitespace_only_column_misses_the_key() {
    assert_eq!(lookup("  ", "a").unwrap_err(), ParseError::MissingProtId("  ".to_string()));
    assert_eq!(lookup(";", "a").unwrap_err(), ParseError::MissingProtId(";".to_string()));
}

#[test]
fn field_without_separator_is_refused() {
    assert_eq!(
        lookup("a=1; lonely ;b=2", "b").unwrap_err(),
        ParseError::InvalidPair("lonely".to_string())
    );
}

#[test]
fn first_field_without_separator_is_reported() {
    assert_eq!(
        lookup("one;two;a=1", "a").unwrap_err(),
        ParseError::InvalidPair("one".to_string())
    );
}

#[test]
fn malformed_field_wins_over_missing_key() {
    assert_eq!(
        lookup("a=1;bad", "zzz").unwrap_err(),
        ParseError::InvalidPair("bad".to_string())
    );
}

#[test]
fn absent_key_returns_the_column() {
    let column = "a=1;b \"2\";";
    assert_eq!(
        lookup(column, "c").unwrap_err(),
        ParseError::MissingProtId(column.to_string())
    );
}

#[test]
fn key_ends_at_first_separator() {
    assert_eq!(value("a=b=c", "a"), "b=c");
    assert_eq!(value("note some text here", "note"), "some text here");
    assert_eq!(value("k =v", "k"), "=v");
}

#[test]
fn pair_is_trimmed_and_unquoted() {
    assert_eq!(
        get_pair("  gene_id \"X\"  ").unwrap(),
        ("gene_id".to_string(), "X".to_string())
    );
    assert_eq!(get_pair("k=v").unwrap(), ("k".to_string(), "v".to_string()));
}

#[test]
fn pair_loses_every_quote_at_its_ends() {
    assert_eq!(get_pair("k \"\"v\"\"").unwrap().1, "v");
    assert_eq!(get_pair("k \"a\"b\"").unwrap().1, "a\"b");
}

#[test]
fn pair_is_unquoted_before_it_is_trimmed() {
    assert_eq!(get_pair("k \" v \"").unwrap().1, "v");
    assert_eq!(get_pair("k  \"v\"").unwrap().1, "\"v");
}

#[test]
fn pair_may_have_an_empty_value_or_key() {
    assert_eq!(get_pair("k=").unwrap(), ("k".to_string(), "".to_string()));
    assert_eq!(get_pair("k \"\"").unwrap(), ("k".to_string(), "".to_string()));
    assert_eq!(get_pair("=v").unwrap(), ("".to_string(), "v".to_string()));
}

#[test]
fn pair_without_separator_is_returned_trimmed() {
    assert_eq!(
        get_pair("  word\t").unwrap_err(),
        ParseError::InvalidPair("word".to_string())
    );
    assert_eq!(get_pair("").unwrap_err(), ParseError::InvalidPair("".to_string()));
    assert_eq!(get_pair("   ").unwrap_err(), ParseError::InvalidPair("".to_string()));
}

#[test]
fn unicode_whitespace_is_trimmed() {
    assert_eq!(get_pair("\u{a0}k=v\u{3000}").unwrap(), ("k".to_string(), "v".to_string()));
    assert_eq!(get_pair("k=\u{2003}v").unwrap().1, "v");
}

#[test]
fn characters_outside_ascii_are_kept() {
    assert_eq!(value("name \"Ünï\u{1F600}\"; id=ß", "name"), "Ünï\u{1F600}");
    assert_eq!(value("name \"Ünï\"; id=ß", "id"), "ß");
}

#[test]
fn parse_error_messages() {
    assert_eq!(ParseError::Empty.message(), "Empty line, cannot parse attributes");
    assert_eq!(
        ParseError::Invalid("x".to_string()).message(),
        "Invalid GXF line: x"
    );
    assert_eq!(
        ParseError::InvalidPair("x".to_string()).message(),
        "Invalid attribute pair: x"
    );
    assert_eq!(
        ParseError::MissingProtId("a=1".to_string()).message(),
        "Missing gene_id attribute in: a=1"
    );
}
