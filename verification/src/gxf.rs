//! One annotation line: nine or more tab-separated columns, of which six are
//! read into a `Record`.
use crate::attr::{attribute_value, parse_chars, Attribute};
use crate::number::{decimal_u32, parse_u32};
use crate::text::{split, split_slice, to_chars, to_string};
use vstd::prelude::*;

verus! {

/// One parsed annotation line. `start` is 0-based and inclusive, `end` is
/// exclusive; `attr` holds the value of the requested attribute.
#[derive(Debug, PartialEq)]
pub struct Record {
    pub chr: String,
    pub feat: String,
    pub start: u32,
    pub end: u32,
    pub strand: char,
    pub attr: Attribute,
}

/// What a `Record` holds, with each string as its characters.
pub struct RecordView {
    pub chr: Seq<char>,
    pub feat: Seq<char>,
    pub start: u32,
    pub end: u32,
    pub strand: char,
    pub id: Seq<char>,
}

impl View for Record {
    type V = RecordView;

    open spec fn view(&self) -> RecordView {
        RecordView {
            chr: self.chr@,
            feat: self.feat@,
            start: self.start,
            end: self.end,
            strand: self.strand,
            id: self.attr.protein_id@,
        }
    }
}

/// Why a line yields no record.
#[derive(Debug, Clone, Copy, PartialEq, Eq, Structural)]
pub enum LineError {
    /// The line is the empty string.
    Empty,
    /// The line has fewer than nine columns.
    FewFields,
    /// The attribute column does not give the requested key a value.
    Attribute,
    /// The start column is no decimal number from 1 to `u32::MAX`.
    Start,
    /// The end column is no decimal number up to `u32::MAX`.
    End,
    /// The strand column is not one character.
    Strand,
}

impl LineError {
    /// The error concerns the shape of the line: its number of columns, a
    /// coordinate or the strand.
    pub open spec fn is_structural(self) -> bool {
        self is FewFields || self is Start || self is End || self is Strand
    }

    /// The words that report the error.
    pub open spec fn text(self) -> Seq<char> {
        match self {
            LineError::Empty => "Empty line"@,
            LineError::FewFields => "Line has fewer fields than expected"@,
            LineError::Attribute => "Error parsing attribute"@,
            LineError::Start => "Invalid start coordinate"@,
            LineError::End => "Invalid end coordinate"@,
            LineError::Strand => "Invalid strand"@,
        }
    }

    /// The words that report the error.
    pub fn message(self) -> (m: &'static str)
        ensures
            m@ == self.text(),
    {
        match self {
            LineError::Empty => "Empty line",
            LineError::FewFields => "Line has fewer fields than expected",
            LineError::Attribute => "Error parsing attribute",
            LineError::Start => "Invalid start coordinate",
            LineError::End => "Invalid end coordinate",
            LineError::Strand => "Invalid strand",
        }
    }
}

/// What a line stands for, with `key` as the attribute that identifies it.
///
/// The columns are the pieces of the line between tabs. Column 0 is the
/// chromosome, 2 the feature type, 3 the 1-based start, 4 the end, 6 the
/// strand and 8 the attributes. The start is moved down by one, so that
/// `start..end` is the interval in 0-based, half-open terms.
pub open spec fn parse_line(line: Seq<char>, key: Seq<char>) -> Result<RecordView, LineError> {
    let columns = split(line, '\t');
    if line.len() == 0 {
        Err(LineError::Empty)
    } else if columns.len() < 9 {
        Err(LineError::FewFields)
    } else if attribute_value(columns[8], key) is None {
        Err(LineError::Attribute)
    } else if decimal_u32(columns[3]) is None || decimal_u32(columns[3]) == Some(0u32) {
        Err(LineError::Start)
    } else if decimal_u32(columns[4]) is None {
        Err(LineError::End)
    } else if columns[6].len() != 1 {
        Err(LineError::Strand)
    } else {
        Ok(
            RecordView {
                chr: columns[0],
                feat: columns[2],
                start: (decimal_u32(columns[3])->0 - 1) as u32,
                end: decimal_u32(columns[4])->0,
                strand: columns[6][0],
                id: attribute_value(columns[8], key)->0,
            },
        )
    }
}

/// A line that is not empty and has fewer than nine columns is refused for
/// its shape, whatever the columns hold.
pub proof fn lemma_few_fields(line: Seq<char>, key: Seq<char>)
    requires
        line.len() > 0,
        split(line, '\t').len() < 9,
    ensures
        parse_line(line, key) == Err::<RecordView, LineError>(LineError::FewFields),
        LineError::FewFields.is_structural(),
{
}

/// Reads one line, given as its characters.
pub fn parse_chars_line(line: &[char], feat: &String) -> (r: Result<Record, LineError>)
    ensures
        match r {
            Ok(record) => parse_line(line@, feat@) == Ok::<RecordView, LineError>(record@),
            Err(e) => parse_line(line@, feat@) == Err::<RecordView, LineError>(e),
        },
{
    if line.len() == 0 {
        return Err(LineError::Empty);
    }
    let columns = split_slice(line, '\t');
    let ghost all = split(line@, '\t');
    if columns.len() < 9 {
        return Err(LineError::FewFields);
    }
    assert(forall|i: int| 0 <= i < 9 ==> (#[trigger] columns@[i])@ == all[i]);
    let attr = match parse_chars(columns[8], feat) {
        Ok(attr) => attr,
        Err(_) => {
            return Err(LineError::Attribute);
        },
    };
    let start = match parse_u32(columns[3]) {
        Some(n) => n,
        None => {
            return Err(LineError::Start);
        },
    };
    if start == 0 {
        return Err(LineError::Start);
    }
    let end = match parse_u32(columns[4]) {
        Some(n) => n,
        None => {
            return Err(LineError::End);
        },
    };
    let strand = columns[6];
    if strand.len() != 1 {
        return Err(LineError::Strand);
    }
    Ok(
        Record {
            chr: to_string(columns[0]),
            feat: to_string(columns[2]),
            start: start - 1,
            end,
            strand: strand[0],
            attr,
        },
    )
}

impl Record {
    /// Reads one annotation line, with `feat` as the attribute that
    /// identifies the record.
    ///
    /// The line is refused where it is empty, has fewer than nine columns,
    /// gives `feat` no value in its attribute column, has a start that is no
    /// decimal number from 1 up, an end that is no decimal number, or a strand
    /// that is not one character: in this order, with the words of
    /// `LineError::text`.
    pub fn parse(line: &str, feat: &String) -> (r: Result<Self, &'static str>)
        ensures
            match r {
                Ok(record) => parse_line(line@, feat@) == Ok::<RecordView, LineError>(record@),
                Err(message) => parse_line(line@, feat@) matches Err(e) && message@ == e.text(),
            },
    {
        let chars = to_chars(line);
        match parse_chars_line(chars.as_slice(), feat) {
            Ok(record) => Ok(record),
            Err(e) => Err(e.message()),
        }
    }
}

} // verus!
