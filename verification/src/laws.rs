//! Laws of the format, each proved once and for all from the grammar: the
//! single-field round trip, the shape of the Core-Metadata fold, its
//! idempotence, and the well-formedness of every parsed field name.

use vstd::map::*;
use vstd::prelude::*;

use crate::grammar::append_value;
use crate::grammar::description_key;
use crate::grammar::field_end;
use crate::grammar::field_name_at;
use crate::grammar::field_starts_at;
use crate::grammar::field_value_at;
use crate::grammar::field_value_start;
use crate::grammar::fields_map;
use crate::grammar::fold_description;
use crate::grammar::is_continuation_at;
use crate::grammar::is_line_break_char;
use crate::grammar::is_name_char;
use crate::grammar::is_space_tab;
use crate::grammar::lemma_field_bounds;
use crate::grammar::lemma_name_end_chars;
use crate::grammar::lemma_name_end_scan;
use crate::grammar::lemma_separator_end_scan;
use crate::grammar::lemma_value_end_scan;
use crate::grammar::line_ending_len;
use crate::grammar::parse_from;
use crate::grammar::spec_parse;
use crate::grammar::SpecField;

verus! {

/// Round trip of a single field: a value free of line breaks that does not
/// begin with a space or tab comes back from `"Name: " + value + "\n"`
/// exactly as it went in, as the sole value of the sole field `Name`, with
/// no body. (A leading space or tab cannot round-trip: the separator, a
/// colon followed by every directly following space and tab, would swallow
/// it.)
pub proof fn lemma_single_field_round_trip(value: Seq<char>)
    requires
        forall|i: int| 0 <= i < value.len() ==> !is_line_break_char(#[trigger] value[i]),
        value.len() > 0 ==> !is_space_tab(value[0]),
    ensures
        ({
            let s = "Name: "@ + value + "\n"@;
            &&& spec_parse(s) is Some
            &&& fields_map(spec_parse(s)->Some_0.fields) == map!["Name"@ => seq![value]]
            &&& spec_parse(s)->Some_0.body is None
        }),
{
    reveal_strlit("Name: ");
    reveal_strlit("Name");
    reveal_strlit("\n");
    let s = "Name: "@ + value + "\n"@;
    let n = s.len() as int;
    assert(n == 7 + value.len());
    assert(s[0] == 'N' && s[1] == 'a' && s[2] == 'm' && s[3] == 'e' && s[4] == ':' && s[5] == ' ');
    assert(forall|k: int| 6 <= k < n - 1 ==> s[k] == value[k - 6]);
    assert(s[n - 1] == '\n');
    lemma_name_end_scan(s, 0, 4);
    assert(field_starts_at(s, 0));
    lemma_separator_end_scan(s, 5, 6);
    assert(field_value_start(s, 0) == 6);
    lemma_value_end_scan(s, 6, n - 1);
    assert(field_end(s, 0) == n - 1);
    assert(!is_continuation_at(s, n - 1));
    let fld = SpecField { name: field_name_at(s, 0), value: field_value_at(s, 0) };
    assert(fld.name =~= "Name"@);
    assert(fld.value =~= value);
    assert(line_ending_len(s, n - 1) == 1);
    assert(parse_from(s, 0) is Some);
    assert(parse_from(s, 0)->Some_0.fields == seq![fld]);
    assert(parse_from(s, 0)->Some_0.body is None);
    assert(seq![fld].drop_last() =~= Seq::<SpecField>::empty());
    assert(Seq::<Seq<char>>::empty().push(value) =~= seq![value]);
    assert(fields_map(Seq::<SpecField>::empty()) == Map::<Seq<char>, Seq<Seq<char>>>::empty());
    assert(seq![fld].last() == fld);
    assert(fields_map(seq![fld]) == append_value(
        Map::<Seq<char>, Seq<Seq<char>>>::empty(),
        "Name"@,
        value,
    ));
    assert(fields_map(seq![fld]) =~= map!["Name"@ => seq![value]]);
}

/// The Core-Metadata fold with a body present: `Description` becomes a key
/// if it was not one, the body stands as the last `Description` value after
/// everything a literal `Description:` header contributed, and every other
/// key is untouched.
pub proof fn lemma_description_folding(fields: Map<Seq<char>, Seq<Seq<char>>>, body: Seq<char>)
    ensures
        ({
            let folded = fold_description(fields, Some(body));
            &&& folded.contains_key(description_key())
            &&& !fields.contains_key(description_key()) ==> folded[description_key()]
                == seq![body]
            &&& fields.contains_key(description_key()) ==> folded[description_key()]
                == fields[description_key()].push(body)
            &&& forall|k: Seq<char>| #![auto] k != description_key() ==> (folded.contains_key(k)
                <==> fields.contains_key(k))
            &&& forall|k: Seq<char>| #![auto] k != description_key() && fields.contains_key(k)
                ==> folded[k] == fields[k]
        }),
{
    if !fields.contains_key(description_key()) {
        assert(Seq::<Seq<char>>::empty().push(body) =~= seq![body]);
    }
}

/// The Core-Metadata fold is idempotent: with no body it changes nothing,
/// so re-folding an already folded mapping (whose body is spent) hands the
/// same mapping back.
pub proof fn lemma_fold_idempotent(fields: Map<Seq<char>, Seq<Seq<char>>>, body: Option<Seq<char>>)
    ensures
        fold_description(fields, None) == fields,
        fold_description(fold_description(fields, body), None) == fold_description(fields, body),
{
}

/// Every field name the parser produces is non-empty and made of field-name
/// characters only — in particular it holds no line break and no colon.
pub proof fn lemma_parsed_names_wellformed(s: Seq<char>, i: int)
    requires
        0 <= i <= s.len(),
    ensures
        parse_from(s, i) matches Some(d) ==> forall|t: int| 0 <= t < d.fields.len()
            ==> (#[trigger] d.fields[t]).name.len() > 0 && forall|c: int|
            0 <= c < d.fields[t].name.len() ==> is_name_char(#[trigger] d.fields[t].name[c]),
    decreases s.len() - i,
{
    if parse_from(s, i) is Some {
        lemma_field_bounds(s, i);
        lemma_name_end_chars(s, i);
        let fld = SpecField { name: field_name_at(s, i), value: field_value_at(s, i) };
        assert(fld.name.len() > 0);
        assert(forall|c: int| 0 <= c < fld.name.len() ==> is_name_char(#[trigger] fld.name[c]));
        let j = field_end(s, i);
        if j != s.len() {
            let k = j + line_ending_len(s, j);
            if k != s.len() && !is_line_break_char(s[k]) {
                lemma_parsed_names_wellformed(s, k);
                let d = parse_from(s, i)->Some_0;
                let rest = parse_from(s, k)->Some_0.fields;
                assert(d.fields == seq![fld] + rest);
                assert(forall|t: int| 1 <= t < d.fields.len() ==> d.fields[t] == rest[t - 1]);
                assert(d.fields[0] == fld);
            }
        }
    }
}

/// The body, when present, is a verbatim suffix of the input.
pub proof fn lemma_body_verbatim(s: Seq<char>, i: int)
    requires
        0 <= i <= s.len(),
    ensures
        parse_from(s, i) matches Some(d) ==> (d.body matches Some(b) ==> exists|off: int|
            0 <= off <= s.len() && b == s.subrange(off, s.len() as int)),
    decreases s.len() - i,
{
    if parse_from(s, i) is Some {
        lemma_field_bounds(s, i);
        let j = field_end(s, i);
        if j != s.len() {
            let k = j + line_ending_len(s, j);
            if k != s.len() {
                if is_line_break_char(s[k]) {
                    let off = k + line_ending_len(s, k);
                    assert(0 <= off <= s.len());
                } else {
                    lemma_body_verbatim(s, k);
                }
            }
        }
    }
}

} // verus!
