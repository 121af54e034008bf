//! Named numeric records and the two line grammars that produce them.
//!
//! One record is one named tuning option at a point in time. A text block
//! holds one record per line; fields are separated by the two characters
//! comma-space. The first field is the name. For the starting-configuration
//! grammar the value is the third field (the second carries a type tag) and
//! up to three further fields give optional bounds and step; for the result
//! grammar the value is the second field and no bounds are carried.

use vstd::prelude::*;

use crate::num::{dec_valid, dec_value, parse_dec};
use crate::text::{find_from, split_by, split_into_lines, split_lines, split_str};

verus! {

/// Mathematical model of one record: the name as characters and each number
/// as a signed count of billionths.
pub struct OptionModel {
    pub name: Seq<char>,
    pub value: int,
    pub min: Option<int>,
    pub max: Option<int>,
    pub step: Option<int>,
}

/// One named numeric tuning option.
///
/// Numbers are exact fixed-point values in billionths, as [`crate::num`]
/// defines them. Bounds and step are present only on records parsed from the
/// starting-configuration grammar.
#[derive(Debug)]
pub struct UciOption {
    pub name: String,
    pub value: i64,
    pub min: Option<i64>,
    pub max: Option<i64>,
    pub step: Option<i64>,
}

pub open spec fn opt_int(o: Option<i64>) -> Option<int> {
    match o {
        Some(v) => Some(v as int),
        None => None,
    }
}

impl View for UciOption {
    type V = OptionModel;

    open spec fn view(&self) -> OptionModel {
        OptionModel {
            name: self.name@,
            value: self.value as int,
            min: opt_int(self.min),
            max: opt_int(self.max),
            step: opt_int(self.step),
        }
    }
}

fn opt_i64_eq(a: &Option<i64>, b: &Option<i64>) -> (r: bool)
    ensures
        r == (opt_int(*a) == opt_int(*b)),
{
    match (a, b) {
        (Some(x), Some(y)) => *x == *y,
        (None, None) => true,
        _ => false,
    }
}

impl PartialEq for UciOption {
    fn eq(&self, other: &UciOption) -> (r: bool) {
        self.name.eq(&other.name) && self.value == other.value && opt_i64_eq(
            &self.min,
            &other.min,
        ) && opt_i64_eq(&self.max, &other.max) && opt_i64_eq(&self.step, &other.step)
    }
}

impl vstd::std_specs::cmp::PartialEqSpecImpl for UciOption {
    open spec fn obeys_eq_spec() -> bool {
        true
    }

    open spec fn eq_spec(&self, other: &UciOption) -> bool {
        self@ == other@
    }
}

impl Eq for UciOption {

}

/// Which of the two line grammars a block uses.
#[derive(Clone, Copy, Debug, PartialEq, Eq)]
pub enum IOSort {
    /// Starting configuration: `name, tag, value[, min[, max[, step]]]`.
    Input,
    /// Tuned result: `name, value`.
    Output,
}

/// The ways one line can fail to parse.
#[derive(Clone, Copy, Debug, PartialEq, Eq)]
pub enum Fault {
    /// The line's first field is empty: a record must be named.
    Name,
    /// The line has no field at the value position.
    Value,
    /// The field at the value position is not an acceptable numeral.
    Number,
}

/// A parse failure, annotated with the zero-based line index and the raw
/// line text.
pub struct LineError {
    pub line: int,
    pub text: Seq<char>,
    pub fault: Fault,
}

/// Every failure this library reports.
#[derive(Debug, PartialEq, Eq)]
pub enum Error {
    /// A line's first field is empty.
    MissingName { line: usize, text: String },
    /// A line lacks the mode's value field.
    MissingValue { line: usize, text: String },
    /// A line's value field is not an acceptable numeral.
    InvalidNumber { line: usize, text: String },
    /// The two record sequences differ in length or in some name.
    PairingMismatch,
    /// The fetched page lacks a required marker; the field names it.
    MalformedPage { missing: Missing },
}

/// The markers and delimiters a fetched page must contain.
#[derive(Clone, Copy, Debug, PartialEq, Eq)]
pub enum Missing {
    /// The closing `</html>` tag.
    HtmlClose,
    /// The `spsa-input` marker.
    InputMarker,
    /// The `>` that ends the tag holding the input block.
    InputTagEnd,
    /// The `<` that ends the input block.
    InputTextEnd,
    /// The `spsa-output` marker.
    OutputMarker,
    /// The `>` that ends the tag holding the output block.
    OutputTagEnd,
    /// The `<` that ends the output block.
    OutputTextEnd,
}

/// The two-character field separator: comma, space.
pub open spec fn field_sep() -> Seq<char> {
    seq![',', ' ']
}

pub open spec fn fields_of(l: Seq<char>) -> Seq<Seq<char>> {
    split_by(l, field_sep())
}

/// Position of the value field for each grammar.
pub open spec fn value_index(sort: IOSort) -> int {
    match sort {
        IOSort::Input => 2,
        IOSort::Output => 1,
    }
}

/// An optional trailing field: a value when present and numeric, silently
/// absent otherwise.
pub open spec fn opt_field(fs: Seq<Seq<char>>, k: int) -> Option<int> {
    if k < fs.len() && dec_valid(fs[k]) {
        Some(dec_value(fs[k]))
    } else {
        None
    }
}

/// What one line parses to under the given grammar.
pub open spec fn parse_line_spec(l: Seq<char>, sort: IOSort) -> Result<OptionModel, Fault> {
    let fs = fields_of(l);
    if fs[0].len() == 0 {
        Err(Fault::Name)
    } else if value_index(sort) >= fs.len() {
        Err(Fault::Value)
    } else if !dec_valid(fs[value_index(sort)]) {
        Err(Fault::Number)
    } else {
        Ok(
            OptionModel {
                name: fs[0],
                value: dec_value(fs[value_index(sort)]),
                min: match sort {
                    IOSort::Input => opt_field(fs, 3),
                    IOSort::Output => None,
                },
                max: match sort {
                    IOSort::Input => opt_field(fs, 4),
                    IOSort::Output => None,
                },
                step: match sort {
                    IOSort::Input => opt_field(fs, 5),
                    IOSort::Output => None,
                },
            },
        )
    }
}

/// What the lines from index `from` on parse to: the records in line order,
/// or the first line's failure.
pub open spec fn parse_lines_spec(ls: Seq<Seq<char>>, sort: IOSort, from: int) -> Result<
    Seq<OptionModel>,
    LineError,
>
    decreases ls.len() - from,
{
    if from < 0 || from >= ls.len() {
        Ok(Seq::empty())
    } else {
        match parse_line_spec(ls[from], sort) {
            Err(f) => Err(LineError { line: from, text: ls[from], fault: f }),
            Ok(m) => match parse_lines_spec(ls, sort, from + 1) {
                Err(e) => Err(e),
                Ok(rest) => Ok(seq![m] + rest),
            },
        }
    }
}

/// What a whole text block parses to under the given grammar.
pub open spec fn parse_spec(text: Seq<char>, sort: IOSort) -> Result<Seq<OptionModel>, LineError> {
    parse_lines_spec(split_lines(text), sort, 0)
}

/// The reported error carries the failing line's index, its raw text, and
/// the variant matching the fault.
pub open spec fn error_for(e: Error, le: LineError) -> bool {
    match le.fault {
        Fault::Name => e matches Error::MissingName { line, text } && line == le.line && text@
            == le.text,
        Fault::Value => e matches Error::MissingValue { line, text } && line == le.line && text@
            == le.text,
        Fault::Number => e matches Error::InvalidNumber { line, text } && line == le.line && text@
            == le.text,
    }
}

fn opt_parse(fields: &Vec<String>, k: usize) -> (r: Option<i64>)
    ensures
        opt_int(r) == opt_field(fields@.map_values(|x: String| x@), k as int),
{
    if k < fields.len() {
        match parse_dec(fields[k].as_str()) {
            Some(v) => Some(v),
            None => None,
        }
    } else {
        None
    }
}

/// Parses one line under the given grammar, exactly as [`parse_line_spec`].
fn parse_one(line: &str, sort: IOSort) -> (r: Result<UciOption, Fault>)
    ensures
        match parse_line_spec(line@, sort) {
            Ok(m) => r matches Ok(o) && o@ == m,
            Err(f) => r == Err::<UciOption, Fault>(f),
        },
{
    proof {
        reveal_strlit(", ");
        assert(", "@ =~= field_sep());
    }
    let fields = split_str(line, ", ");
    let ghost fs = fields_of(line@);
    proof {
        assert(fields@.map_values(|x: String| x@) =~= fs);
        crate::text::lemma_split_by_len(line@, field_sep());
        assert(fields@[0]@ == fs[0]);
    }
    if fields[0].as_str().unicode_len() == 0 {
        return Err(Fault::Name);
    }
    let vi: usize = match sort {
        IOSort::Input => 2,
        IOSort::Output => 1,
    };
    if vi >= fields.len() {
        return Err(Fault::Value);
    }
    let value = match parse_dec(fields[vi].as_str()) {
        Some(v) => v,
        None => {
            return Err(Fault::Number);
        },
    };
    let (min, max, step) = match sort {
        IOSort::Input => (opt_parse(&fields, 3), opt_parse(&fields, 4), opt_parse(&fields, 5)),
        IOSort::Output => (None, None, None),
    };
    let name = fields[0].clone();
    Ok(UciOption { name, value, min, max, step })
}

/// A run of lines that all parse yields the records pointwise; the converse
/// bookkeeping for the first failing line.
proof fn lemma_parse_lines_ok(ls: Seq<Seq<char>>, sort: IOSort, from: int)
    requires
        0 <= from <= ls.len(),
        forall|k: int| from <= k < ls.len() ==> parse_line_spec(#[trigger] ls[k], sort) is Ok,
    ensures
        parse_lines_spec(ls, sort, from) is Ok,
        parse_lines_spec(ls, sort, from)->Ok_0.len() == ls.len() - from,
        forall|t: int| 0 <= t < ls.len() - from ==> #[trigger] parse_lines_spec(
            ls,
            sort,
            from,
        )->Ok_0[t] == parse_line_spec(ls[from + t], sort)->Ok_0,
    decreases ls.len() - from,
{
    if from < ls.len() {
        lemma_parse_lines_ok(ls, sort, from + 1);
    }
}

/// The first failing line decides the whole block's failure.
proof fn lemma_parse_lines_err(ls: Seq<Seq<char>>, sort: IOSort, from: int, at: int)
    requires
        0 <= from <= at < ls.len(),
        forall|k: int| from <= k < at ==> parse_line_spec(#[trigger] ls[k], sort) is Ok,
        parse_line_spec(ls[at], sort) is Err,
    ensures
        parse_lines_spec(ls, sort, from) == Err::<Seq<OptionModel>, LineError>(
            LineError {
                line: at,
                text: ls[at],
                fault: parse_line_spec(ls[at], sort)->Err_0,
            },
        ),
    decreases at - from,
{
    if from < at {
        lemma_parse_lines_err(ls, sort, from + 1, at);
    }
}

/// Parses a whole text block into records, one per line and in line order.
///
/// Returns the records exactly as [`parse_spec`] describes them, or the
/// error for the first line that fails, annotated with its zero-based index
/// and raw text.
pub fn parse_from_input(text: &str, sort: IOSort) -> (r: Result<Vec<UciOption>, Error>)
    ensures
        match parse_spec(text@, sort) {
            Ok(ms) => r matches Ok(v) && v@.len() == ms.len() && (forall|i: int|
                0 <= i < ms.len() ==> #[trigger] v@[i]@ == ms[i]),
            Err(le) => r matches Err(e) && error_for(e, le),
        },
{
    let lines = split_into_lines(text);
    let ghost ls = split_lines(text@);
    proof {
        assert(lines@.map_values(|x: String| x@) =~= ls);
    }
    let mut out: Vec<UciOption> = Vec::new();
    let mut i: usize = 0;
    while i < lines.len()
        invariant
            ls == split_lines(text@),
            0 <= i <= lines@.len() == ls.len(),
            forall|k: int| 0 <= k < lines@.len() ==> lines@[k]@ == #[trigger] ls[k],
            out@.len() == i,
            forall|k: int| 0 <= k < i ==> parse_line_spec(#[trigger] ls[k], sort) is Ok,
            forall|k: int| 0 <= k < i ==> #[trigger] out@[k]@ == parse_line_spec(
                ls[k],
                sort,
            )->Ok_0,
        decreases lines@.len() - i,
    {
        match parse_one(lines[i].as_str(), sort) {
            Ok(o) => {
                out.push(o);
            },
            Err(f) => {
                proof {
                    lemma_parse_lines_err(ls, sort, 0, i as int);
                }
                let raw = lines[i].clone();
                return Err(
                    match f {
                        Fault::Name => Error::MissingName { line: i, text: raw },
                        Fault::Value => Error::MissingValue { line: i, text: raw },
                        Fault::Number => Error::InvalidNumber { line: i, text: raw },
                    },
                );
            },
        }
        i = i + 1;
    }
    proof {
        lemma_parse_lines_ok(ls, sort, 0);
    }
    Ok(out)
}

/// Law: a block that parses yields one record per line, in line order, and
/// each record's name is the text before the line's first comma-space (the
/// whole line when it has none).
pub proof fn lemma_record_per_line(text: Seq<char>, sort: IOSort)
    requires
        parse_spec(text, sort) is Ok,
    ensures
        parse_spec(text, sort)->Ok_0.len() == split_lines(text).len(),
        forall|i: int| 0 <= i < split_lines(text).len() ==> #[trigger] parse_spec(
            text,
            sort,
        )->Ok_0[i] == parse_line_spec(split_lines(text)[i], sort)->Ok_0,
        forall|i: int| 0 <= i < split_lines(text).len() ==> (#[trigger] parse_spec(
            text,
            sort,
        )->Ok_0[i]).name == {
            let l = split_lines(text)[i];
            let j = find_from(l, field_sep(), 0);
            if j < 0 {
                l
            } else {
                l.take(j)
            }
        },
{
    let ls = split_lines(text);
    assert forall|k: int| 0 <= k < ls.len() implies parse_line_spec(#[trigger] ls[k], sort)
        is Ok by {
        if parse_line_spec(ls[k], sort) is Err {
            lemma_parse_lines_err_any(ls, sort, 0, k);
        }
    }
    lemma_parse_lines_ok(ls, sort, 0);
}

/// A block with a failing line does not parse as a whole.
proof fn lemma_parse_lines_err_any(ls: Seq<Seq<char>>, sort: IOSort, from: int, at: int)
    requires
        0 <= from <= at < ls.len(),
        parse_line_spec(ls[at], sort) is Err,
    ensures
        parse_lines_spec(ls, sort, from) is Err,
    decreases at - from,
{
    if from < at && parse_line_spec(ls[from], sort) is Ok {
        lemma_parse_lines_err_any(ls, sort, from + 1, at);
    }
}

} // verus!
