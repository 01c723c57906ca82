//! Attribute columns as they are written, in the GTF and the GFF3 manner,
//! and what reading them gives back.
use crate::attr::{
    defines, has_pair, is_blank, is_malformed, last_definition, lemma_last_definition,
    lookup_result, pair_key, pair_value, separator, undefined, well_formed, Attribute, ParseError,
};
use crate::text::{
    all, concat_with, equals, is_whitespace, lemma_position, lemma_split_concat,
    lemma_strip_end, lemma_strip_nothing, lemma_strip_start, lemma_trim_blank,
    lemma_trim_padded, none, quote, split, unquote, whitespace,
};
use vstd::prelude::*;

verus! {

/// One field of an attribute column, as it is written between semicolons.
pub enum Field {
    /// Nothing but whitespace.
    Blank { space: Seq<char> },
    /// A key, a space or `=`, and a value that may stand in double quotes,
    /// with whitespace before and after: `key "value"`, `key value`,
    /// `key=value` or `key="value"`.
    Pair {
        lead: Seq<char>,
        key: Seq<char>,
        sep: char,
        quoted: bool,
        value: Seq<char>,
        trail: Seq<char>,
    },
}

impl Field {
    /// The value as it is written: in double quotes or bare.
    pub open spec fn written_value(self) -> Seq<char> {
        if self->quoted {
            seq!['"'] + self->value + seq!['"']
        } else {
            self->value
        }
    }

    /// The key, the separator and the written value.
    pub open spec fn body(self) -> Seq<char> {
        self->key + seq![self->sep] + self.written_value()
    }

    /// The characters of the field.
    pub open spec fn text(self) -> Seq<char> {
        match self {
            Field::Blank { space } => space,
            Field::Pair { lead, trail, .. } => lead + self.body() + trail,
        }
    }

    /// The field is written so that it can be read back: no semicolon in
    /// it; a key that is not empty and holds no whitespace and no `=`; a
    /// value that neither starts nor ends with whitespace or a double quote;
    /// and, after a space, a value that is quoted or not empty.
    pub open spec fn valid(self) -> bool {
        match self {
            Field::Blank { space } => all(space, whitespace()),
            Field::Pair { lead, key, sep, quoted, value, trail } => {
                &&& all(lead, whitespace())
                &&& all(trail, whitespace())
                &&& sep == ' ' || sep == '='
                &&& key.len() > 0
                &&& none(key, whitespace())
                &&& none(key, equals('='))
                &&& none(key, equals(';'))
                &&& none(value, equals(';'))
                &&& value.len() > 0 ==> !is_whitespace(value.first()) && !is_whitespace(
                    value.last(),
                ) && value.first() != '"' && value.last() != '"'
                &&& sep == ' ' && !quoted ==> value.len() > 0
            },
        }
    }

    /// The field gives `key` a value.
    pub open spec fn gives(self, key: Seq<char>) -> bool {
        self is Pair && self->key == key
    }
}

/// The text of each field.
pub open spec fn texts(fields: Seq<Field>) -> Seq<Seq<char>> {
    fields.map_values(|f: Field| f.text())
}

/// The column that the fields make, with a semicolon between each two.
pub open spec fn block(fields: Seq<Field>) -> Seq<char> {
    concat_with(texts(fields), ';')
}

/// The value that the last field with this key gives it, if any does.
pub open spec fn given(fields: Seq<Field>, key: Seq<char>) -> Option<Seq<char>>
    decreases fields.len(),
{
    if fields.len() == 0 {
        None
    } else if fields.last().gives(key) {
        Some(fields.last()->value)
    } else {
        given(fields.drop_last(), key)
    }
}

/// A valid field holds no semicolon. A blank one reads as blank. A pair
/// reads as a pair, with the key and the value that it was written with.
pub proof fn lemma_field_reads_back(f: Field)
    requires
        f.valid(),
    ensures
        none(f.text(), equals(';')),
        f is Blank ==> is_blank(f.text()) && !has_pair(f.text()),
        f is Pair ==> has_pair(f.text()) && pair_key(f.text()) == f->key && pair_value(f.text())
            == f->value,
{
    match f {
        Field::Blank { space } => {
            lemma_trim_blank(space);
        },
        Field::Pair { lead, key, sep, quoted, value, trail } => {
            let written = f.written_value();
            let core = f.body();
            let k = key.len() as int;
            assert(core.first() == key.first());
            assert(!is_whitespace(core.last())) by {
                if quoted {
                    assert(core.last() == '"');
                } else if value.len() > 0 {
                    assert(core.last() == value.last());
                } else {
                    assert(core.last() == sep);
                }
            }
            lemma_trim_padded(lead, core, trail);
            assert forall|i: int| 0 <= i < k implies !separator()(#[trigger] core[i]) by {
                assert(core[i] == key[i]);
                assert(!whitespace()(key[i]));
                assert(!equals('=')(key[i]));
            }
            assert(core[k] == sep);
            lemma_position(core, separator(), k);
            assert(core.take(k) =~= key);
            assert(core.skip(k + 1) =~= written);
            if quoted {
                if value.len() > 0 {
                    assert(written[0] == '"' && written[1] == value.first());
                    lemma_strip_start(written, quote(), 1);
                    let rest = written.skip(1);
                    assert(rest =~= value + seq!['"']);
                    assert(rest[value.len() - 1] == value.last());
                    lemma_strip_end(rest, quote(), value.len() as int);
                    assert(rest.take(value.len() as int) =~= value);
                } else {
                    assert(written =~= seq!['"', '"']);
                    lemma_strip_start(written, quote(), 2);
                    assert(written.skip(2) =~= Seq::<char>::empty());
                    assert(value =~= Seq::<char>::empty());
                }
            } else {
                lemma_strip_nothing(written, quote());
            }
            assert(unquote(written) == value);
            lemma_strip_nothing(value, whitespace());
            assert forall|i: int| 0 <= i < f.text().len() implies !equals(';')(
                #[trigger] f.text()[i],
            ) by {
                let t = f.text();
                let a = lead.len() as int;
                if i < a {
                    assert(t[i] == lead[i]);
                    assert(whitespace()(lead[i]));
                } else if i < a + k {
                    assert(t[i] == key[i - a]);
                    assert(!equals(';')(key[i - a]));
                } else if i == a + k {
                    assert(t[i] == sep);
                } else if i < a + core.len() {
                    let j = i - a - k - 1;
                    assert(t[i] == written[j]);
                    if quoted {
                        if 0 < j && j <= value.len() {
                            assert(written[j] == value[j - 1]);
                            assert(!equals(';')(value[j - 1]));
                        }
                    } else {
                        assert(!equals(';')(value[j]));
                    }
                } else {
                    assert(t[i] == trail[i - a - core.len()]);
                    assert(whitespace()(trail[i - a - core.len()]));
                }
            }
        },
    }
}

/// Among the texts of valid fields, `key` is defined exactly where a field
/// gives it a value, and the last text that defines it holds the value that
/// the last such field gives.
pub proof fn lemma_given(fields: Seq<Field>, key: Seq<char>)
    requires
        forall|i: int| 0 <= i < fields.len() ==> (#[trigger] fields[i]).valid(),
    ensures
        well_formed(texts(fields)),
        given(fields, key) is None <==> undefined(texts(fields), key),
        forall|i: int| #[trigger]
            last_definition(texts(fields), key, i) ==> given(fields, key) == Some(
                pair_value(texts(fields)[i]),
            ),
    decreases fields.len(),
{
    let written = texts(fields);
    assert forall|j: int| 0 <= j < written.len() implies !is_malformed(#[trigger] written[j]) by {
        lemma_field_reads_back(fields[j]);
    }
    if fields.len() > 0 {
        let n = fields.len() - 1;
        let init = fields.drop_last();
        let earlier = texts(init);
        assert(earlier =~= written.drop_last());
        lemma_given(init, key);
        lemma_field_reads_back(fields[n]);
        assert(written[n] == fields[n].text());
        if fields.last().gives(key) {
            assert(defines(written[n], key));
            assert forall|i: int| #[trigger] last_definition(written, key, i) implies given(
                fields,
                key,
            ) == Some(pair_value(written[i])) by {
                assert(i == n);
            }
        } else {
            assert(!defines(written[n], key));
            if !undefined(earlier, key) {
                let j = choose|j: int|
                    0 <= j < earlier.len() && defines(#[trigger] earlier[j], key);
                assert(defines(written[j], key));
            }
            if !undefined(written, key) {
                let j = choose|j: int| 0 <= j < written.len() && defines(#[trigger] written[j], key);
                assert(defines(earlier[j], key));
            }
            assert forall|i: int| #[trigger] last_definition(written, key, i) implies given(
                fields,
                key,
            ) == Some(pair_value(written[i])) by {
                assert(i < n);
                assert forall|j: int| i < j < earlier.len() implies !defines(
                    #[trigger] earlier[j],
                    key,
                ) by {
                    assert(earlier[j] == written[j]);
                }
                assert(last_definition(earlier, key, i));
            }
        }
    }
}

/// A column written from valid fields, in either manner or both, reads back:
/// a lookup of a key returns the value that the last field with that key
/// gives it, and where no field has the key, fails with `MissingProtId` and
/// the column.
pub proof fn lemma_block_reads_back(
    fields: Seq<Field>,
    key: Seq<char>,
    r: Result<Attribute, ParseError>,
)
    requires
        fields.len() >= 1,
        forall|i: int| 0 <= i < fields.len() ==> (#[trigger] fields[i]).valid(),
        block(fields).len() > 0,
        lookup_result(block(fields), key, r),
    ensures
        match given(fields, key) {
            Some(value) => r matches Ok(attr) && attr.protein_id@ == value,
            None => r matches Err(ParseError::MissingProtId(column)) && column@ == block(fields),
        },
{
    let written = texts(fields);
    assert forall|i: int| 0 <= i < written.len() implies none(#[trigger] written[i], equals(';')) by {
        lemma_field_reads_back(fields[i]);
    }
    lemma_split_concat(written, ';');
    lemma_given(fields, key);
    let pieces = split(block(fields), ';');
    assert(pieces == written);
    if !undefined(pieces, key) {
        let i = choose|i: int| last_definition(pieces, key, i);
        lemma_last_definition(pieces, key);
        assert(last_definition(pieces, key, i));
    }
}

} // verus!
