//! The executable parser and the document types it produces, each proved
//! against the grammar in [`crate::grammar`].

use vstd::prelude::*;
use vstd::string::StrSliceExecFns;

use crate::field_map::FieldMap;
use crate::grammar::description_key;
use crate::grammar::failure_at;
use crate::grammar::field_end;
use crate::grammar::field_name_at;
use crate::grammar::field_starts_at;
use crate::grammar::field_value_at;
use crate::grammar::field_value_start;
use crate::grammar::fields_map;
use crate::grammar::fold_description;
use crate::grammar::is_continuation_at;
use crate::grammar::is_line_break_char;
use crate::grammar::is_name_char;
use crate::grammar::is_space_tab;
use crate::grammar::lemma_field_bounds;
use crate::grammar::lemma_value_end_stops;
use crate::grammar::line_ending_len;
use crate::grammar::name_end;
use crate::grammar::parse_from;
use crate::grammar::separator_end;
use crate::grammar::spec_parse;
use crate::grammar::value_end;
use crate::grammar::SpecField;

verus! {

/// The construct the parser expected at the position where it gave up.
#[derive(Debug, Clone, Copy, PartialEq, Eq, Structural)]
pub enum ParseErrorKind {
    /// A field name: at least one field-name character. Also reported for an
    /// empty input, a leading continuation line, and malformed trailing
    /// content where another field would have to begin.
    FieldName,
    /// The colon that separates a field name from its value.
    Separator,
}

/// A structural parse error: the input does not conform to the grammar.
/// `offset` is the position, in characters, at which parsing gave up.
#[derive(Debug, Clone, Copy, PartialEq, Eq, Structural)]
pub struct ParseError {
    pub offset: usize,
    pub kind: ParseErrorKind,
}

/// One fully parsed document: the header fields, and the verbatim body if a
/// blank line introduced one.
#[derive(Debug, Clone)]
pub struct RFC822ish {
    pub fields: FieldMap,
    pub body: Option<String>,
}

/// Field-name character test, the executable twin of [`is_name_char`].
fn name_char(c: char) -> (r: bool)
    ensures
        r == is_name_char(c),
{
    let u = c as u32;
    (0x21 <= u && u <= 0x39) || (0x3b <= u && u <= 0x7e)
}

/// Space-or-tab test, the executable twin of [`is_space_tab`].
fn space_tab(c: char) -> (r: bool)
    ensures
        r == is_space_tab(c),
{
    c == ' ' || c == '\t'
}

/// Line-break test, the executable twin of [`is_line_break_char`].
fn line_break(c: char) -> (r: bool)
    ensures
        r == is_line_break_char(c),
{
    c == '\r' || c == '\n'
}

/// Length of the line-ending token at `pos`, which must hold a line break.
fn line_ending_token_len(s: &str, n: usize, pos: usize) -> (r: usize)
    requires
        n == s@.len(),
        pos < n,
        is_line_break_char(s@[pos as int]),
    ensures
        r == line_ending_len(s@, pos as int),
        1 <= r && pos + r <= n,
{
    if s.get_char(pos) == '\r' && pos + 1 < n && s.get_char(pos + 1) == '\n' {
        2
    } else {
        1
    }
}

/// Advance over field-name characters starting at `from`.
fn scan_name(s: &str, n: usize, from: usize) -> (r: usize)
    requires
        n == s@.len(),
        from <= n,
    ensures
        r == name_end(s@, from as int),
        from <= r <= n,
{
    let mut pos = from;
    while pos < n && name_char(s.get_char(pos))
        invariant
            n == s@.len(),
            from <= pos <= n,
            name_end(s@, from as int) == name_end(s@, pos as int),
        decreases n - pos,
    {
        assert(name_end(s@, pos as int) == name_end(s@, pos as int + 1));
        pos = pos + 1;
    }
    pos
}

/// Advance over spaces and tabs starting at `from`.
fn scan_spaces(s: &str, n: usize, from: usize) -> (r: usize)
    requires
        n == s@.len(),
        from <= n,
    ensures
        r == separator_end(s@, from as int),
        from <= r <= n,
{
    let mut pos = from;
    while pos < n && space_tab(s.get_char(pos))
        invariant
            n == s@.len(),
            from <= pos <= n,
            separator_end(s@, from as int) == separator_end(s@, pos as int),
        decreases n - pos,
    {
        assert(separator_end(s@, pos as int) == separator_end(s@, pos as int + 1));
        pos = pos + 1;
    }
    pos
}

/// Advance to the end of the field value starting at `from`: past every
/// continuation marker, up to the first line ending not followed by a space
/// or tab, or to the end of the input.
fn scan_value(s: &str, n: usize, from: usize) -> (r: usize)
    requires
        n == s@.len(),
        from <= n,
    ensures
        r == value_end(s@, from as int),
        from <= r <= n,
{
    let mut pos = from;
    let mut done = false;
    while !done
        invariant
            n == s@.len(),
            from <= pos <= n,
            value_end(s@, from as int) == value_end(s@, pos as int),
            done ==> value_end(s@, pos as int) == pos,
        decreases n - pos, (if done { 0int } else { 1int }),
    {
        if pos == n {
            done = true;
        } else {
            let c = s.get_char(pos);
            if !line_break(c) {
                assert(value_end(s@, pos as int) == value_end(s@, pos as int + 1));
                pos = pos + 1;
            } else {
                let le = line_ending_token_len(s, n, pos);
                if pos + le < n && space_tab(s.get_char(pos + le)) {
                    assert(is_continuation_at(s@, pos as int));
                    pos = pos + le + 1;
                } else {
                    assert(!is_continuation_at(s@, pos as int));
                    done = true;
                }
            }
        }
    }
    pos
}

/// Parse one field at `from`: its name, its value (verbatim, continuation
/// markers included) and the position just past the value.
fn parse_field(s: &str, n: usize, from: usize) -> (r: Result<(String, String, usize), ParseError>)
    requires
        n == s@.len(),
        from <= n,
    ensures
        match r {
            Ok(f) => field_starts_at(s@, from as int) && f.0@ == field_name_at(s@, from as int)
                && f.1@ == field_value_at(s@, from as int) && f.2 == field_end(s@, from as int)
                && from < f.2 <= n,
            Err(e) => !field_starts_at(s@, from as int) && e.offset <= n && e.offset
                == failure_at(s@, from as int).0 && ((e.kind == ParseErrorKind::Separator)
                == failure_at(s@, from as int).1),
        },
{
    let ne = scan_name(s, n, from);
    if ne == from {
        return Err(ParseError { offset: from, kind: ParseErrorKind::FieldName });
    }
    if ne == n || s.get_char(ne) != ':' {
        return Err(ParseError { offset: ne, kind: ParseErrorKind::Separator });
    }
    let vs = scan_spaces(s, n, ne + 1);
    let ve = scan_value(s, n, vs);
    let name = s.substring_char(from, ne).to_owned();
    let value = s.substring_char(vs, ve).to_owned();
    Ok((name, value, ve))
}

/// When the field at `i` is the last one — the input ends at its value, or
/// exactly one line ending after it, or a blank line follows — `parse_from`
/// accepts and yields exactly that field, with the body the blank line
/// introduces, if any.
proof fn lemma_tail_last(s: Seq<char>, i: int, acc: Seq<SpecField>)
    requires
        0 <= i <= s.len(),
        field_starts_at(s, i),
        ({
            let j = field_end(s, i);
            j == s.len() || j + line_ending_len(s, j) == s.len() || is_line_break_char(
                s[j + line_ending_len(s, j)],
            )
        }),
    ensures
        parse_from(s, i) is Some,
        acc + parse_from(s, i)->Some_0.fields == acc.push(
            SpecField { name: field_name_at(s, i), value: field_value_at(s, i) },
        ),
        ({
            let j = field_end(s, i);
            if j == s.len() || j + line_ending_len(s, j) == s.len() {
                parse_from(s, i)->Some_0.body is None
            } else {
                let k = j + line_ending_len(s, j);
                parse_from(s, i)->Some_0.body == Some(
                    s.subrange(k + line_ending_len(s, k), s.len() as int),
                )
            }
        }),
{
    lemma_field_bounds(s, i);
    let fld = SpecField { name: field_name_at(s, i), value: field_value_at(s, i) };
    assert(acc + seq![fld] =~= acc.push(fld));
}

/// Unfolding step of `parse_from` past one field and its separating line
/// ending, when another field has to follow.
proof fn lemma_tail_step(s: Seq<char>, i: int, acc: Seq<SpecField>)
    requires
        0 <= i <= s.len(),
        field_starts_at(s, i),
        field_end(s, i) < s.len(),
        field_end(s, i) + line_ending_len(s, field_end(s, i)) < s.len(),
        !is_line_break_char(s[field_end(s, i) + line_ending_len(s, field_end(s, i))]),
    ensures
        ({
            let k = field_end(s, i) + line_ending_len(s, field_end(s, i));
            let fld = SpecField { name: field_name_at(s, i), value: field_value_at(s, i) };
            &&& (parse_from(s, i) is Some <==> parse_from(s, k) is Some)
            &&& parse_from(s, i) is Some ==> acc + parse_from(s, i)->Some_0.fields == acc.push(fld)
                + parse_from(s, k)->Some_0.fields
            &&& parse_from(s, i) is Some ==> parse_from(s, i)->Some_0.body == parse_from(
                s,
                k,
            )->Some_0.body
            &&& failure_at(s, i) == failure_at(s, k)
        }),
{
    lemma_field_bounds(s, i);
    let k = field_end(s, i) + line_ending_len(s, field_end(s, i));
    let fld = SpecField { name: field_name_at(s, i), value: field_value_at(s, i) };
    if parse_from(s, k) is Some {
        assert(acc + (seq![fld] + parse_from(s, k)->Some_0.fields) =~= acc.push(fld) + parse_from(
            s,
            k,
        )->Some_0.fields);
    }
}

/// Parse a complete metadata document.
///
/// Succeeds exactly on the inputs the grammar accepts, and then hands back
/// the field mapping and the body the grammar assigns to the input.
pub fn parse_metadata(data: &str) -> (r: Result<RFC822ish, ParseError>)
    ensures
        r is Ok <==> spec_parse(data@) is Some,
        r matches Ok(d) ==> {
            &&& d.fields@ == fields_map(spec_parse(data@)->Some_0.fields)
            &&& d.body.deep_view() == spec_parse(data@)->Some_0.body
        },
        r matches Err(e) ==> e.offset <= data@.len() && e.offset == failure_at(data@, 0).0 && ((
        e.kind == ParseErrorKind::Separator) == failure_at(data@, 0).1),
{
    let n = data.unicode_len();
    let mut fields = FieldMap::new();
    let mut pos: usize = 0;
    let ghost mut acc: Seq<SpecField> = Seq::empty();
    proof {
        if parse_from(data@, 0) is Some {
            assert(acc + parse_from(data@, 0)->Some_0.fields =~= parse_from(
                data@,
                0,
            )->Some_0.fields);
        }
    }
    loop
        invariant
            n == data@.len(),
            pos <= n,
            fields@ == fields_map(acc),
            parse_from(data@, pos as int) is None ==> spec_parse(data@) is None && failure_at(
                data@,
                pos as int,
            ) == failure_at(data@, 0),
            parse_from(data@, pos as int) is Some ==> {
                &&& spec_parse(data@) is Some
                &&& spec_parse(data@)->Some_0.fields == acc + parse_from(
                    data@,
                    pos as int,
                )->Some_0.fields
                &&& spec_parse(data@)->Some_0.body == parse_from(data@, pos as int)->Some_0.body
            },
        decreases n - pos,
    {
        let ghost start = pos as int;
        match parse_field(data, n, pos) {
            Err(e) => {
                return Err(e);
            },
            Ok((name, value, end)) => {
                let ghost fld = SpecField { name: name@, value: value@ };
                fields.append(name, value);
                proof {
                    assert(acc.push(fld).drop_last() =~= acc);
                    assert(fields@ == fields_map(acc.push(fld)));
                }
                if end == n {
                    proof {
                        lemma_tail_last(data@, start, acc);
                    }
                    return Ok(RFC822ish { fields, body: None });
                }
                proof {
                    lemma_field_bounds(data@, start);
                    lemma_value_end_stops(data@, field_value_start(data@, start));
                }
                let le = line_ending_token_len(data, n, end);
                let k = end + le;
                if k == n {
                    proof {
                        lemma_tail_last(data@, start, acc);
                    }
                    return Ok(RFC822ish { fields, body: None });
                }
                if line_break(data.get_char(k)) {
                    let le2 = line_ending_token_len(data, n, k);
                    let body = data.substring_char(k + le2, n).to_owned();
                    proof {
                        lemma_tail_last(data@, start, acc);
                    }
                    return Ok(RFC822ish { fields, body: Some(body) });
                }
                proof {
                    lemma_tail_step(data@, start, acc);
                    acc = acc.push(fld);
                }
                pos = k;
            },
        }
    }
}

impl RFC822ish {
    /// Parse a complete metadata document; see [`parse_metadata`].
    pub fn parse(data: &str) -> (r: Result<RFC822ish, ParseError>)
        ensures
            r is Ok <==> spec_parse(data@) is Some,
            r matches Ok(d) ==> {
                &&& d.fields@ == fields_map(spec_parse(data@)->Some_0.fields)
                &&& d.body.deep_view() == spec_parse(data@)->Some_0.body
            },
            r matches Err(e) ==> e.offset <= data@.len() && e.offset == failure_at(data@, 0).0 && ((
            e.kind == ParseErrorKind::Separator) == failure_at(data@, 0).1),
    {
        parse_metadata(data)
    }
}

/// The metadata-aware view of a document: every parsed field, with the body,
/// when one is present, folded in as one more `Description` value.
#[derive(Debug, Clone)]
pub struct CoreMetadata(FieldMap);

impl View for CoreMetadata {
    type V = Map<Seq<char>, Seq<Seq<char>>>;

    closed spec fn view(&self) -> Map<Seq<char>, Seq<Seq<char>>> {
        self.0@
    }
}

impl CoreMetadata {
    /// Fold a parsed document into its Core-Metadata view: append the body,
    /// if there is one, as one more value under `Description`, after any
    /// values a literal `Description:` header already contributed.
    pub fn from_document(doc: RFC822ish) -> (r: CoreMetadata)
        ensures
            r@ == fold_description(doc.fields@, doc.body.deep_view()),
    {
        let RFC822ish { mut fields, body } = doc;
        match body {
            Some(b) => {
                let key = "Description".to_owned();
                proof {
                    assert(key@ == description_key());
                }
                fields.append(key, b);
            },
            None => {},
        }
        CoreMetadata(fields)
    }

    /// Parse a metadata document and fold it, in one step.
    pub fn parse(data: &str) -> (r: Result<CoreMetadata, ParseError>)
        ensures
            r is Ok <==> spec_parse(data@) is Some,
            r matches Ok(c) ==> c@ == fold_description(
                fields_map(spec_parse(data@)->Some_0.fields),
                spec_parse(data@)->Some_0.body,
            ),
            r matches Err(e) ==> e.offset <= data@.len() && e.offset == failure_at(data@, 0).0 && ((
            e.kind == ParseErrorKind::Separator) == failure_at(data@, 0).1),
    {
        match RFC822ish::parse(data) {
            Ok(doc) => Ok(CoreMetadata::from_document(doc)),
            Err(e) => Err(e),
        }
    }

    /// The folded field mapping.
    pub fn fields(&self) -> (r: &FieldMap)
        ensures
            r@ == self@,
    {
        &self.0
    }
}

} // verus!
