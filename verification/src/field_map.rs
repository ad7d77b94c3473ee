//! The field mapping produced by the parser: each field name is bound to the
//! non-empty, ordered sequence of values recorded under it.
//!
//! The representation keeps every recorded `name: value` occurrence in order;
//! the abstract view is the mapping obtained by folding them up, so duplicate
//! names accumulate and never overwrite.

use vstd::prelude::*;

use crate::grammar::append_value;
use crate::grammar::fields_map;
use crate::grammar::SpecField;

verus! {

/// One recorded `name: value` occurrence.
#[derive(Debug, Clone)]
struct Pair {
    name: String,
    value: String,
}

/// A mapping from field name to the ordered sequence of values recorded
/// under it. Its abstract view is a `Map<Seq<char>, Seq<Seq<char>>>`.
#[derive(Debug, Clone)]
pub struct FieldMap {
    pairs: Vec<Pair>,
}

/// The field list a pair list stands for.
spec fn pairs_fields(ps: Seq<Pair>) -> Seq<SpecField> {
    ps.map_values(|p: Pair| SpecField { name: p.name@, value: p.value@ })
}

/// The values recorded under `name` by a field list, in order.
pub open spec fn values_under(flds: Seq<SpecField>, name: Seq<char>) -> Seq<Seq<char>>
    decreases flds.len(),
{
    if flds.len() == 0 {
        Seq::empty()
    } else {
        let rest = values_under(flds.drop_last(), name);
        if flds.last().name == name {
            rest.push(flds.last().value)
        } else {
            rest
        }
    }
}

/// The folded mapping agrees with `values_under`: a name is a key exactly
/// when some value was recorded under it, and it maps to those values.
pub proof fn lemma_fields_map_values(flds: Seq<SpecField>, name: Seq<char>)
    ensures
        fields_map(flds).contains_key(name) <==> values_under(flds, name).len() > 0,
        fields_map(flds).contains_key(name) ==> fields_map(flds)[name] == values_under(
            flds,
            name,
        ),
    decreases flds.len(),
{
    if flds.len() > 0 {
        lemma_fields_map_values(flds.drop_last(), name);
        if flds.last().name == name {
            if !fields_map(flds.drop_last()).contains_key(name) {
                assert(values_under(flds.drop_last(), name) =~= Seq::<Seq<char>>::empty());
            }
        }
    }
}

/// A value is recorded under `name` exactly when some field bears that name.
pub proof fn lemma_values_under_occurrence(flds: Seq<SpecField>, name: Seq<char>)
    ensures
        values_under(flds, name).len() > 0 <==> exists|i: int|
            0 <= i < flds.len() && flds[i].name == name,
    decreases flds.len(),
{
    if flds.len() > 0 {
        lemma_values_under_occurrence(flds.drop_last(), name);
        if flds.last().name == name {
            assert(flds[flds.len() - 1].name == name);
        } else {
            if values_under(flds.drop_last(), name).len() > 0 {
                let i = choose|i: int|
                    0 <= i < flds.drop_last().len() && flds.drop_last()[i].name == name;
                assert(flds[i].name == name);
            }
            if exists|i: int| 0 <= i < flds.len() && flds[i].name == name {
                let i = choose|i: int| 0 <= i < flds.len() && flds[i].name == name;
                assert(flds.drop_last()[i].name == name);
            }
        }
    }
}

/// True when one of the strings has the same characters as `key`.
fn holds_name(names: &Vec<String>, key: &String) -> (r: bool)
    ensures
        r == exists|i: int| 0 <= i < names@.len() && names@[i]@ == key@,
{
    let mut idx: usize = 0;
    while idx < names.len()
        invariant
            idx <= names@.len(),
            forall|i: int| 0 <= i < idx ==> names@[i]@ != key@,
        decreases names@.len() - idx,
    {
        if names[idx] == *key {
            assert(names@[idx as int]@ == key@);
            return true;
        }
        idx += 1;
    }
    false
}

impl View for FieldMap {
    type V = Map<Seq<char>, Seq<Seq<char>>>;

    closed spec fn view(&self) -> Map<Seq<char>, Seq<Seq<char>>> {
        fields_map(pairs_fields(self.pairs@))
    }
}

impl FieldMap {
    /// The empty mapping.
    pub fn new() -> (r: FieldMap)
        ensures
            r@ == Map::<Seq<char>, Seq<Seq<char>>>::empty(),
    {
        let r = FieldMap { pairs: Vec::new() };
        proof {
            assert(pairs_fields(r.pairs@) =~= Seq::<SpecField>::empty());
        }
        r
    }

    /// Record one more value under `name`, after any values it already has.
    pub fn append(&mut self, name: String, value: String)
        ensures
            final (self)@ == append_value(old(self)@, name@, value@),
    {
        let ghost old_fields = pairs_fields(self.pairs@);
        let ghost fld = SpecField { name: name@, value: value@ };
        self.pairs.push(Pair { name, value });
        proof {
            assert(pairs_fields(self.pairs@) =~= old_fields.push(fld));
            assert(pairs_fields(self.pairs@).drop_last() =~= old_fields);
            assert(pairs_fields(self.pairs@).last() == fld);
        }
    }

    /// The values recorded under `name`, in order of appearance, or `None`
    /// if nothing was recorded under it. The sequence handed back is never
    /// empty.
    pub fn get(&self, name: &str) -> (r: Option<Vec<String>>)
        ensures
            match r {
                Some(vs) => self@.contains_key(name@) && vs.deep_view() == self@[name@]
                    && vs@.len() > 0,
                None => !self@.contains_key(name@),
            },
    {
        let key = name.to_owned();
        let mut vs: Vec<String> = Vec::new();
        let mut idx: usize = 0;
        let ghost flds = pairs_fields(self.pairs@);
        while idx < self.pairs.len()
            invariant
                idx <= self.pairs@.len(),
                key@ == name@,
                flds == pairs_fields(self.pairs@),
                vs.deep_view() == values_under(flds.take(idx as int), name@),
            decreases self.pairs@.len() - idx,
        {
            proof {
                assert(flds.take(idx as int + 1).drop_last() =~= flds.take(idx as int));
                assert(flds.take(idx as int + 1).last() == flds[idx as int]);
            }
            let ghost prev_view = vs.deep_view();
            if self.pairs[idx].name == key {
                vs.push(self.pairs[idx].value.clone());
                proof {
                    assert(vs.deep_view() =~= prev_view.push(self.pairs@[idx as int].value@));
                }
            }
            idx += 1;
        }
        proof {
            assert(flds.take(idx as int) =~= flds);
            lemma_fields_map_values(flds, name@);
        }
        if vs.len() == 0 {
            proof {
                assert(vs.deep_view().len() == 0);
            }
            None
        } else {
            proof {
                assert(vs.deep_view().len() > 0);
            }
            Some(vs)
        }
    }

    /// The distinct field names, each exactly once, in order of first
    /// appearance. A name is handed back exactly when the mapping has it as
    /// a key.
    pub fn names(&self) -> (r: Vec<String>)
        ensures
            forall|k: Seq<char>| #[trigger] self@.contains_key(k) ==> exists|i: int|
                0 <= i < r@.len() && r@[i]@ == k,
            forall|i: int| 0 <= i < r@.len() ==> self@.contains_key(#[trigger] r@[i]@),
            forall|i: int, j: int| 0 <= i < j < r@.len() ==> r@[i]@ != r@[j]@,
    {
        let ghost flds = pairs_fields(self.pairs@);
        let mut r: Vec<String> = Vec::new();
        let mut idx: usize = 0;
        while idx < self.pairs.len()
            invariant
                idx <= self.pairs@.len(),
                flds == pairs_fields(self.pairs@),
                forall|i: int| 0 <= i < r@.len() ==> exists|p: int|
                    0 <= p < idx && flds[p].name == #[trigger] r@[i]@,
                forall|p: int| 0 <= p < idx ==> exists|i: int|
                    0 <= i < r@.len() && r@[i]@ == #[trigger] flds[p].name,
                forall|i: int, j: int| 0 <= i < j < r@.len() ==> r@[i]@ != r@[j]@,
            decreases self.pairs@.len() - idx,
        {
            let ghost old_names = r@;
            let name = self.pairs[idx].name.clone();
            proof {
                assert(name@ == flds[idx as int].name);
            }
            if !holds_name(&r, &name) {
                r.push(name);
                proof {
                    assert(forall|i: int| 0 <= i < old_names.len() ==> r@[i] == old_names[i]);
                    assert(r@[r@.len() - 1]@ == flds[idx as int].name);
                }
            }
            idx += 1;
        }
        proof {
            assert forall|k: Seq<char>| self@.contains_key(k) implies exists|i: int|
                0 <= i < r@.len() && r@[i]@ == k by {
                lemma_fields_map_values(flds, k);
                lemma_values_under_occurrence(flds, k);
                let p = choose|p: int| 0 <= p < flds.len() && flds[p].name == k;
                assert(exists|i: int| 0 <= i < r@.len() && r@[i]@ == flds[p].name);
            }
            assert forall|i: int| 0 <= i < r@.len() implies self@.contains_key(r@[i]@) by {
                lemma_fields_map_values(flds, r@[i]@);
                lemma_values_under_occurrence(flds, r@[i]@);
            }
        }
        r
    }
}

} // verus!
