//! The attribute column of an annotation line: `key "value";` and
//! `key=value;` pairs, of which one key is looked up.
use crate::text::{
    lemma_position, position, split, split_slice, to_chars, to_string, trim, trim_slice, unquote,
    unquote_slice, views,
};
use vstd::prelude::*;
use vstd::slice::slice_subrange;
use vstd::string::StringExecFns;

verus! {

/// The value that the attribute column gives to the requested key.
#[derive(Debug, PartialEq)]
pub struct Attribute {
    pub protein_id: String,
}

/// Why an attribute column yields no value.
#[derive(Debug, PartialEq, Eq)]
pub enum ParseError {
    /// The column is the empty string.
    Empty,
    /// The line is no annotation line.
    Invalid(String),
    /// A field, given here without surrounding whitespace, has neither a
    /// space nor `=` to part key from value.
    InvalidPair(String),
    /// No field of the column, given here as it was read, has the requested key.
    MissingProtId(String),
}

impl ParseError {
    /// The words that report the error.
    pub open spec fn text(self) -> Seq<char> {
        match self {
            ParseError::Empty => "Empty line, cannot parse attributes"@,
            ParseError::Invalid(line) => "Invalid GXF line: "@ + line@,
            ParseError::InvalidPair(word) => "Invalid attribute pair: "@ + word@,
            ParseError::MissingProtId(column) => "Missing gene_id attribute in: "@ + column@,
        }
    }

    /// The words that report the error.
    pub fn message(&self) -> (m: String)
        ensures
            m@ == self.text(),
    {
        match self {
            ParseError::Empty => String::from_str("Empty line, cannot parse attributes"),
            ParseError::Invalid(line) => String::from_str("Invalid GXF line: ").concat(
                line.as_str(),
            ),
            ParseError::InvalidPair(word) => String::from_str("Invalid attribute pair: ").concat(
                word.as_str(),
            ),
            ParseError::MissingProtId(column) => String::from_str(
                "Missing gene_id attribute in: ",
            ).concat(column.as_str()),
        }
    }
}

/// A space or `=`: what parts a key from its value.
pub open spec fn is_separator(c: char) -> bool {
    c == ' ' || c == '='
}

/// The predicate that holds of a separator.
pub open spec fn separator() -> spec_fn(char) -> bool {
    |c: char| is_separator(c)
}

/// The field holds nothing but whitespace.
pub open spec fn is_blank(field: Seq<char>) -> bool {
    trim(field).len() == 0
}

/// The field, once trimmed, holds a separator.
pub open spec fn has_pair(field: Seq<char>) -> bool {
    position(trim(field), separator()) < trim(field).len()
}

/// What stands before the first separator of the trimmed field.
pub open spec fn pair_key(field: Seq<char>) -> Seq<char> {
    trim(field).take(position(trim(field), separator()))
}

/// What stands after the first separator of the trimmed field, without the
/// double quotes at its ends and then without surrounding whitespace.
pub open spec fn pair_value(field: Seq<char>) -> Seq<char> {
    trim(unquote(trim(field).skip(position(trim(field), separator()) + 1)))
}

/// The index of the first separator in `s`, or the length of `s`.
fn find_separator(s: &[char]) -> (k: usize)
    ensures
        k == position(s@, separator()),
        k <= s@.len(),
{
    let mut k: usize = 0;
    while k < s.len() && s[k] != ' ' && s[k] != '='
        invariant
            k <= s.len(),
            forall|i: int| 0 <= i < k ==> !is_separator(#[trigger] s@[i]),
        decreases s.len() - k,
    {
        k += 1;
    }
    proof {
        lemma_position(s@, separator(), k as int);
    }
    k
}

/// Key and value of one field, or the trimmed field where it has no separator.
fn pair_of(field: &[char]) -> (r: Result<(String, String), ParseError>)
    ensures
        match r {
            Ok((key, value)) => has_pair(field@) && key@ == pair_key(field@) && value@
                == pair_value(field@),
            Err(ParseError::InvalidPair(word)) => !has_pair(field@) && word@ == trim(field@),
            Err(_) => false,
        },
{
    let t = trim_slice(field);
    let i = find_separator(t);
    if i == t.len() {
        return Err(ParseError::InvalidPair(to_string(t)));
    }
    let key = slice_subrange(t, 0, i);
    let value = trim_slice(unquote_slice(slice_subrange(t, i + 1, t.len())));
    Ok((to_string(key), to_string(value)))
}

/// Parts one attribute field into key and value at its first space or `=`.
///
/// The field is trimmed first. The key is what stands before the separator;
/// the value is the rest, without enclosing double quotes and then without
/// surrounding whitespace. A field without a separator is returned, trimmed,
/// in `InvalidPair`.
pub fn get_pair(line: &str) -> (r: Result<(String, String), ParseError>)
    ensures
        match r {
            Ok((key, value)) => has_pair(line@) && key@ == pair_key(line@) && value@
                == pair_value(line@),
            Err(ParseError::InvalidPair(word)) => !has_pair(line@) && word@ == trim(line@),
            Err(_) => false,
        },
{
    let chars = to_chars(line);
    pair_of(chars.as_slice())
}

/// The attributes of one column: a hash map from key to value.
#[verifier::external_body]
pub struct AttrMap {
    inner: hashbrown::HashMap<String, String>,
}

/// What an `AttrMap` holds: the value that each of its keys is mapped to.
pub uninterp spec fn attr_entries(m: AttrMap) -> Map<Seq<char>, Seq<char>>;

/// `hashbrown::HashMap::new`: a map that holds nothing.
#[verifier::external_body]
fn attrs_new() -> (m: AttrMap)
    ensures
        attr_entries(m) == (Map::<Seq<char>, Seq<char>>::empty()),
{
    AttrMap { inner: hashbrown::HashMap::new() }
}

/// `hashbrown::HashMap::insert`: afterwards the key is mapped to the value,
/// in place of what it was mapped to before, and every other key is as it was.
#[verifier::external_body]
fn attrs_insert(m: &mut AttrMap, key: String, value: String)
    ensures
        attr_entries(*final(m)) == attr_entries(*old(m)).insert(key@, value@),
{
    m.inner.insert(key, value);
}

/// `hashbrown::HashMap::get`: a copy of the value that the key is mapped to,
/// and `None` exactly where the map does not hold the key.
#[verifier::external_body]
fn attrs_get(m: &AttrMap, key: &String) -> (r: Option<String>)
    ensures
        r is Some == attr_entries(*m).contains_key(key@),
        r matches Some(value) ==> value@ == attr_entries(*m)[key@],
{
    m.inner.get(key).cloned()
}

/// The field is neither blank nor a pair.
pub open spec fn is_malformed(field: Seq<char>) -> bool {
    !is_blank(field) && !has_pair(field)
}

/// The field is a pair whose key is `key`.
pub open spec fn defines(field: Seq<char>, key: Seq<char>) -> bool {
    has_pair(field) && pair_key(field) == key
}

/// Field `i` is malformed and no field before it is.
pub open spec fn first_malformed(fields: Seq<Seq<char>>, i: int) -> bool {
    &&& 0 <= i < fields.len()
    &&& is_malformed(fields[i])
    &&& forall|j: int| 0 <= j < i ==> !is_malformed(#[trigger] fields[j])
}

/// No field is malformed.
pub open spec fn well_formed(fields: Seq<Seq<char>>) -> bool {
    forall|j: int| 0 <= j < fields.len() ==> !is_malformed(#[trigger] fields[j])
}

/// Field `i` defines `key` and no field after it does.
pub open spec fn last_definition(fields: Seq<Seq<char>>, key: Seq<char>, i: int) -> bool {
    &&& 0 <= i < fields.len()
    &&& defines(fields[i], key)
    &&& forall|j: int| i < j < fields.len() ==> !defines(#[trigger] fields[j], key)
}

/// No field defines `key`.
pub open spec fn undefined(fields: Seq<Seq<char>>, key: Seq<char>) -> bool {
    forall|j: int| 0 <= j < fields.len() ==> !defines(#[trigger] fields[j], key)
}

/// The map that the pairs among `fields` build when each is inserted in turn.
pub open spec fn attr_map(fields: Seq<Seq<char>>) -> Map<Seq<char>, Seq<char>>
    decreases fields.len(),
{
    if fields.len() == 0 {
        Map::empty()
    } else if has_pair(fields.last()) {
        attr_map(fields.drop_last()).insert(pair_key(fields.last()), pair_value(fields.last()))
    } else {
        attr_map(fields.drop_last())
    }
}

/// A key is in the map of the fields exactly where a field defines it, and is
/// mapped to the value of the last field that does.
pub proof fn lemma_attr_map(fields: Seq<Seq<char>>, key: Seq<char>)
    ensures
        attr_map(fields).contains_key(key) <==> !undefined(fields, key),
        forall|i: int| #[trigger]
            last_definition(fields, key, i) ==> attr_map(fields)[key] == pair_value(fields[i]),
    decreases fields.len(),
{
    if fields.len() > 0 {
        let init = fields.drop_last();
        let n = fields.len() - 1;
        lemma_attr_map(init, key);
        assert forall|j: int| 0 <= j < n implies init[j] == fields[j] by {}
        if defines(fields.last(), key) {
            assert(defines(fields[n], key));
        } else {
            if !undefined(init, key) {
                let j = choose|j: int| 0 <= j < init.len() && defines(#[trigger] init[j], key);
                assert(defines(fields[j], key));
            }
            if !undefined(fields, key) {
                let j = choose|j: int| 0 <= j < fields.len() && defines(#[trigger] fields[j], key);
                assert(defines(init[j], key));
            }
            assert forall|i: int| #[trigger] last_definition(fields, key, i) implies attr_map(
                fields,
            )[key] == pair_value(fields[i]) by {
                assert(i < n);
                assert forall|j: int| i < j < init.len() implies !defines(
                    #[trigger] init[j],
                    key,
                ) by {
                    assert(init[j] == fields[j]);
                }
                assert(last_definition(init, key, i));
            }
        }
    }
}

/// Where some field defines `key`, one of them is the last to do so.
pub proof fn lemma_last_definition(fields: Seq<Seq<char>>, key: Seq<char>)
    requires
        !undefined(fields, key),
    ensures
        exists|i: int| #[trigger] last_definition(fields, key, i),
    decreases fields.len(),
{
    let n = fields.len() - 1;
    if defines(fields[n], key) {
        assert(last_definition(fields, key, n));
    } else {
        let init = fields.drop_last();
        let j = choose|j: int| 0 <= j < fields.len() && defines(#[trigger] fields[j], key);
        assert(defines(init[j], key));
        lemma_last_definition(init, key);
        let i = choose|i: int| #[trigger] last_definition(init, key, i);
        assert forall|k: int| i < k < fields.len() implies !defines(#[trigger] fields[k], key) by {
            if k < n {
                assert(fields[k] == init[k]);
            }
        }
        assert(last_definition(fields, key, i));
    }
}

/// What the column gives to `key`: the value of the last field that defines
/// it, where the column is not empty, none of its fields is malformed, and
/// one defines the key.
pub open spec fn attribute_value(column: Seq<char>, key: Seq<char>) -> Option<Seq<char>> {
    let fields = split(column, ';');
    if column.len() > 0 && well_formed(fields) && !undefined(fields, key) {
        Some(pair_value(fields[choose|i: int| last_definition(fields, key, i)]))
    } else {
        None
    }
}

/// Where a key is repeated, the column gives it the value of the field that
/// defines it last.
pub proof fn lemma_last_definition_wins(column: Seq<char>, key: Seq<char>, i: int)
    requires
        column.len() > 0,
        well_formed(split(column, ';')),
        last_definition(split(column, ';'), key, i),
    ensures
        attribute_value(column, key) == Some(pair_value(split(column, ';')[i])),
{
    let fields = split(column, ';');
    let j = choose|j: int| last_definition(fields, key, j);
    assert(defines(fields[i], key));
    assert(i == j) by {
        if i < j {
            assert(!defines(fields[j], key));
        }
        if j < i {
            assert(!defines(fields[i], key));
        }
    }
}

/// The postcondition of a lookup of `key` in `column`.
pub open spec fn lookup_result(
    column: Seq<char>,
    key: Seq<char>,
    r: Result<Attribute, ParseError>,
) -> bool {
    match r {
        Ok(attr) => attribute_value(column, key) == Some(attr.protein_id@),
        Err(ParseError::Empty) => column.len() == 0,
        Err(ParseError::InvalidPair(word)) => {
            &&& column.len() > 0
            &&& exists|i: int|
                #![auto]
                first_malformed(split(column, ';'), i) && word@ == trim(split(column, ';')[i])
        },
        Err(ParseError::MissingProtId(whole)) => {
            &&& column.len() > 0
            &&& well_formed(split(column, ';'))
            &&& undefined(split(column, ';'), key)
            &&& whole@ == column
        },
        Err(ParseError::Invalid(_)) => false,
    }
}

/// Looks up `feat` among the fields of the attribute column.
pub(crate) fn parse_chars(column: &[char], feat: &String) -> (r: Result<Attribute, ParseError>)
    ensures
        lookup_result(column@, feat@, r),
{
    if column.len() == 0 {
        return Err(ParseError::Empty);
    }
    let fields = split_slice(column, ';');
    let ghost all = split(column@, ';');
    let mut attributes = attrs_new();
    let mut i: usize = 0;
    while i < fields.len()
        invariant
            i <= fields.len(),
            column@.len() > 0,
            all == split(column@, ';'),
            views(fields@) == all,
            attr_entries(attributes) == attr_map(all.take(i as int)),
            forall|j: int| 0 <= j < i ==> !is_malformed(#[trigger] all[j]),
        decreases fields.len() - i,
    {
        let word = fields[i];
        assert(word@ == all[i as int]);
        proof {
            assert(all.take(i + 1).drop_last() =~= all.take(i as int));
        }
        if trim_slice(word).len() > 0 {
            match pair_of(word) {
                Ok((key, value)) => {
                    attrs_insert(&mut attributes, key, value);
                },
                Err(e) => {
                    assert(first_malformed(all, i as int));
                    assert(e matches ParseError::InvalidPair(w) && w@ == trim(all[i as int]));
                    return Err(e);
                },
            }
        }
        i += 1;
    }
    proof {
        assert(all.take(i as int) =~= all);
        lemma_attr_map(all, feat@);
    }
    match attrs_get(&attributes, feat) {
        Some(value) => {
            proof {
                lemma_last_definition(all, feat@);
            }
            Ok(Attribute { protein_id: value })
        },
        None => Err(ParseError::MissingProtId(to_string(column))),
    }
}

impl Attribute {
    /// Looks up `feat` among the fields of the attribute column `line`.
    ///
    /// The fields are the pieces of `line` between semicolons; blank ones are
    /// passed over. The empty column is refused as `Empty`. The first field
    /// that is neither blank nor a pair is refused as `InvalidPair`. Otherwise
    /// the value of the last field whose key is `feat` is returned, and where
    /// there is none, `MissingProtId` with the column.
    pub fn parse(line: &String, feat: &String) -> (r: Result<Attribute, ParseError>)
        ensures
            lookup_result(line@, feat@, r),
    {
        let chars = to_chars(line.as_str());
        parse_chars(chars.as_slice(), feat)
    }
}

} // verus!
