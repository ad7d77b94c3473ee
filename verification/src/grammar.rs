//! The grammar of the metadata format, stated as specification functions
//! over sequences of characters.
//!
//! A document is one or more `name: value` fields separated by single line
//! endings, optionally followed by a blank line and a verbatim body. A field
//! value may span several physical lines: a line ending immediately followed
//! by a space or tab continues the value, and the line ending together with
//! that space or tab stays inside the value verbatim.

use vstd::prelude::*;

verus! {

/// True of the characters a field name may contain: printable ASCII except
/// space (0x20) and colon (0x3A), nothing above 0x7E.
pub open spec fn is_name_char(c: char) -> bool {
    (0x21 <= c as u32 && c as u32 <= 0x39) || (0x3b <= c as u32 && c as u32 <= 0x7e)
}

/// True of the two characters that may trigger or continue a separator or a
/// continuation line: space and horizontal tab.
pub open spec fn is_space_tab(c: char) -> bool {
    c == ' ' || c == '\t'
}

/// True of the two characters a line-ending token may start with.
pub open spec fn is_line_break_char(c: char) -> bool {
    c == '\r' || c == '\n'
}

/// Length of the line-ending token at position `i`: `"\r\n"` is a single
/// token of length two; `"\r"` alone and `"\n"` alone have length one.
pub open spec fn line_ending_len(s: Seq<char>, i: int) -> int
    recommends
        0 <= i < s.len(),
        is_line_break_char(s[i]),
{
    if s[i] == '\r' && i + 1 < s.len() && s[i + 1] == '\n' {
        2
    } else {
        1
    }
}

/// A continuation marker stands at `i`: a line-ending token immediately
/// followed by a space or tab.
pub open spec fn is_continuation_at(s: Seq<char>, i: int) -> bool
    recommends
        0 <= i < s.len(),
        is_line_break_char(s[i]),
{
    i + line_ending_len(s, i) < s.len() && is_space_tab(s[i + line_ending_len(s, i)])
}

/// Where a field-name scan starting at `i` stops: the first position at or
/// after `i` whose character is outside the field-name class.
pub open spec fn name_end(s: Seq<char>, i: int) -> int
    decreases s.len() - i
        when 0 <= i <= s.len()
{
    if i < s.len() && is_name_char(s[i]) {
        name_end(s, i + 1)
    } else {
        i
    }
}

/// Where the separator's run of spaces and tabs starting at `i` stops.
pub open spec fn separator_end(s: Seq<char>, i: int) -> int
    decreases s.len() - i
        when 0 <= i <= s.len()
{
    if i < s.len() && is_space_tab(s[i]) {
        separator_end(s, i + 1)
    } else {
        i
    }
}

/// Where the field value starting at `i` stops: at the first line ending not
/// immediately followed by a space or tab, or at end of input. Continuation
/// line endings and their triggering space or tab stay inside the value.
pub open spec fn value_end(s: Seq<char>, i: int) -> int
    decreases s.len() - i
        when 0 <= i <= s.len()
{
    if i == s.len() {
        i
    } else if !is_line_break_char(s[i]) {
        value_end(s, i + 1)
    } else if is_continuation_at(s, i) {
        value_end(s, i + line_ending_len(s, i) + 1)
    } else {
        i
    }
}

/// A syntactically valid field begins at `i`: at least one field-name
/// character, followed directly by a colon.
pub open spec fn field_starts_at(s: Seq<char>, i: int) -> bool
    recommends
        0 <= i <= s.len(),
{
    name_end(s, i) > i && name_end(s, i) < s.len() && s[name_end(s, i)] == ':'
}

/// First position of the value of the field that starts at `i` (just past
/// the colon and the separator's spaces and tabs).
pub open spec fn field_value_start(s: Seq<char>, i: int) -> int {
    separator_end(s, name_end(s, i) + 1)
}

/// Position just past the value of the field that starts at `i`.
pub open spec fn field_end(s: Seq<char>, i: int) -> int {
    value_end(s, field_value_start(s, i))
}

/// The name of the field that starts at `i`.
pub open spec fn field_name_at(s: Seq<char>, i: int) -> Seq<char> {
    s.subrange(i, name_end(s, i))
}

/// The value of the field that starts at `i`, verbatim.
pub open spec fn field_value_at(s: Seq<char>, i: int) -> Seq<char> {
    s.subrange(field_value_start(s, i), field_end(s, i))
}

/// One parsed field.
pub struct SpecField {
    pub name: Seq<char>,
    pub value: Seq<char>,
}

/// The abstract result of a successful parse: the fields in order of
/// appearance and the body, if one is present.
pub struct SpecDocument {
    pub fields: Seq<SpecField>,
    pub body: Option<Seq<char>>,
}

pub proof fn lemma_name_end_bounds(s: Seq<char>, i: int)
    requires
        0 <= i <= s.len(),
    ensures
        i <= name_end(s, i) <= s.len(),
    decreases s.len() - i,
{
    if i < s.len() && is_name_char(s[i]) {
        lemma_name_end_bounds(s, i + 1);
    }
}

pub proof fn lemma_separator_end_bounds(s: Seq<char>, i: int)
    requires
        0 <= i <= s.len(),
    ensures
        i <= separator_end(s, i) <= s.len(),
    decreases s.len() - i,
{
    if i < s.len() && is_space_tab(s[i]) {
        lemma_separator_end_bounds(s, i + 1);
    }
}

pub proof fn lemma_value_end_bounds(s: Seq<char>, i: int)
    requires
        0 <= i <= s.len(),
    ensures
        i <= value_end(s, i) <= s.len(),
    decreases s.len() - i,
{
    if i == s.len() {
    } else if !is_line_break_char(s[i]) {
        lemma_value_end_bounds(s, i + 1);
    } else if is_continuation_at(s, i) {
        lemma_value_end_bounds(s, i + line_ending_len(s, i) + 1);
    }
}

/// A name scan over a stretch of field-name characters stops exactly at the
/// first position outside the class (or at the end of the input).
pub proof fn lemma_name_end_scan(s: Seq<char>, i: int, j: int)
    requires
        0 <= i <= j <= s.len(),
        forall|k: int| i <= k < j ==> is_name_char(s[k]),
        j < s.len() ==> !is_name_char(s[j]),
    ensures
        name_end(s, i) == j,
    decreases j - i,
{
    if i < j {
        lemma_name_end_scan(s, i + 1, j);
    }
}

/// Every character a name scan passes over is a field-name character.
pub proof fn lemma_name_end_chars(s: Seq<char>, i: int)
    requires
        0 <= i <= s.len(),
    ensures
        forall|k: int| i <= k < name_end(s, i) ==> is_name_char(s[k]),
    decreases s.len() - i,
{
    if i < s.len() && is_name_char(s[i]) {
        lemma_name_end_chars(s, i + 1);
    }
}

/// A separator scan over a stretch of spaces and tabs stops exactly at the
/// first other character (or at the end of the input).
pub proof fn lemma_separator_end_scan(s: Seq<char>, i: int, j: int)
    requires
        0 <= i <= j <= s.len(),
        forall|k: int| i <= k < j ==> is_space_tab(s[k]),
        j < s.len() ==> !is_space_tab(s[j]),
    ensures
        separator_end(s, i) == j,
    decreases j - i,
{
    if i < j {
        lemma_separator_end_scan(s, i + 1, j);
    }
}

/// A value scan over characters free of line breaks stops exactly at the
/// first line ending that is not a continuation (or at the end of input).
pub proof fn lemma_value_end_scan(s: Seq<char>, i: int, j: int)
    requires
        0 <= i <= j <= s.len(),
        forall|k: int| i <= k < j ==> !is_line_break_char(s[k]),
        j < s.len() ==> is_line_break_char(s[j]) && !is_continuation_at(s, j),
    ensures
        value_end(s, i) == j,
    decreases j - i,
{
    if i < j {
        lemma_value_end_scan(s, i + 1, j);
    }
}

/// A value scan never stops in the middle of a line: if it stops before the
/// end of the input, it stops on a line ending that is not a continuation.
pub proof fn lemma_value_end_stops(s: Seq<char>, i: int)
    requires
        0 <= i <= s.len(),
    ensures
        value_end(s, i) < s.len() ==> is_line_break_char(s[value_end(s, i)])
            && !is_continuation_at(s, value_end(s, i)),
    decreases s.len() - i,
{
    if i == s.len() {
    } else if !is_line_break_char(s[i]) {
        lemma_value_end_stops(s, i + 1);
    } else if is_continuation_at(s, i) {
        lemma_value_end_stops(s, i + line_ending_len(s, i) + 1);
    }
}

/// Everything a caller needs about one parsed field: where its pieces lie
/// and that they are in bounds.
pub proof fn lemma_field_bounds(s: Seq<char>, i: int)
    requires
        0 <= i <= s.len(),
        field_starts_at(s, i),
    ensures
        i + 2 <= field_end(s, i) <= s.len(),
        i < name_end(s, i) < s.len(),
        name_end(s, i) + 1 <= field_value_start(s, i) <= s.len(),
        field_value_start(s, i) <= field_end(s, i),
{
    lemma_name_end_bounds(s, i);
    lemma_separator_end_bounds(s, name_end(s, i) + 1);
    lemma_value_end_bounds(s, field_value_start(s, i));
}

/// Parse the document tail that starts at position `i`: one or more fields
/// separated by single line endings; after the last field, either the input
/// ends (with or without one final line ending), or a second consecutive
/// line ending marks the start of the body, taken verbatim to the end.
pub open spec fn parse_from(s: Seq<char>, i: int) -> Option<SpecDocument>
    decreases s.len() - i
        when 0 <= i <= s.len()
        via parse_from_decreases
{
    if !field_starts_at(s, i) {
        None
    } else {
        let fld = SpecField { name: field_name_at(s, i), value: field_value_at(s, i) };
        let j = field_end(s, i);
        if j == s.len() {
            Some(SpecDocument { fields: seq![fld], body: None })
        } else {
            let k = j + line_ending_len(s, j);
            if k == s.len() {
                Some(SpecDocument { fields: seq![fld], body: None })
            } else if is_line_break_char(s[k]) {
                Some(
                    SpecDocument {
                        fields: seq![fld],
                        body: Some(s.subrange(k + line_ending_len(s, k), s.len() as int)),
                    },
                )
            } else {
                match parse_from(s, k) {
                    None => None,
                    Some(d) => Some(
                        SpecDocument { fields: seq![fld] + d.fields, body: d.body },
                    ),
                }
            }
        }
    }
}

#[via_fn]
proof fn parse_from_decreases(s: Seq<char>, i: int) {
    if field_starts_at(s, i) {
        lemma_field_bounds(s, i);
    }
}

/// The parse relation of the whole format: `None` exactly when the input is
/// structurally malformed (an empty input has no field and is malformed).
pub open spec fn spec_parse(s: Seq<char>) -> Option<SpecDocument> {
    parse_from(s, 0)
}

/// Where and why parsing the tail at `i` gives up, when it does: the offset
/// of the failure, and whether a separator (rather than a field name) was
/// the missing construct there. Meaningful only when `parse_from(s, i)` is
/// `None`; on an accepted tail it falls back to `(i, false)`.
pub open spec fn failure_at(s: Seq<char>, i: int) -> (int, bool)
    decreases s.len() - i
        when 0 <= i <= s.len()
        via failure_at_decreases
{
    if !field_starts_at(s, i) {
        if name_end(s, i) == i {
            (i, false)
        } else {
            (name_end(s, i), true)
        }
    } else {
        let j = field_end(s, i);
        if j == s.len() {
            (i, false)
        } else {
            let k = j + line_ending_len(s, j);
            if k == s.len() || is_line_break_char(s[k]) {
                (i, false)
            } else {
                failure_at(s, k)
            }
        }
    }
}

#[via_fn]
proof fn failure_at_decreases(s: Seq<char>, i: int) {
    if field_starts_at(s, i) {
        lemma_field_bounds(s, i);
    }
}

/// One accumulation step of the field mapping: record `value` as one more
/// value under `name`, after any values the name already has.
pub open spec fn append_value(
    m: Map<Seq<char>, Seq<Seq<char>>>,
    name: Seq<char>,
    value: Seq<char>,
) -> Map<Seq<char>, Seq<Seq<char>>> {
    let prev = if m.contains_key(name) {
        m[name]
    } else {
        Seq::empty()
    };
    m.insert(name, prev.push(value))
}

/// Fold a field list into the mapping from name to its ordered values.
/// Duplicate names accumulate in order of appearance.
pub open spec fn fields_map(flds: Seq<SpecField>) -> Map<Seq<char>, Seq<Seq<char>>>
    decreases flds.len(),
{
    if flds.len() == 0 {
        Map::empty()
    } else {
        append_value(fields_map(flds.drop_last()), flds.last().name, flds.last().value)
    }
}

/// The key under which a body is folded into the field mapping.
pub open spec fn description_key() -> Seq<char> {
    "Description"@
}

/// The Core-Metadata view of a parsed document: the body, when present, is
/// appended as one more value under the `Description` key; without a body
/// the mapping is returned unchanged.
pub open spec fn fold_description(
    fields: Map<Seq<char>, Seq<Seq<char>>>,
    body: Option<Seq<char>>,
) -> Map<Seq<char>, Seq<Seq<char>>> {
    match body {
        None => fields,
        Some(b) => append_value(fields, description_key(), b),
    }
}

} // verus!
