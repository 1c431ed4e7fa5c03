//! The structured query that a caller hands to the search functions.

use crate::order::{
    lemma_sorted_unique, lemma_text_lt_irreflexive, lemma_text_lt_total, lemma_text_lt_transitive,
    precedes, strictly_sorted, text_less, text_lt,
};
use crate::text::to_chars;
use vstd::prelude::*;

verus! {

/// A value that a facet filter selects: a string or an integer.
#[derive(Debug, Clone, PartialEq, Eq, PartialOrd, Ord)]
pub enum FacetOriginalValue {
    String(String),
    Int(u64),
}

/// What a facet value holds, as plain values.
pub ghost enum FacetValue {
    Text(Seq<char>),
    Number(nat),
}

impl View for FacetOriginalValue {
    type V = FacetValue;

    open spec fn view(&self) -> FacetValue {
        match self {
            FacetOriginalValue::String(s) => FacetValue::Text(s@),
            FacetOriginalValue::Int(n) => FacetValue::Number(*n as nat),
        }
    }
}

/// Whether `a` comes before `b`: every string before every integer, strings
/// in the order of texts, integers by size.
pub open spec fn value_lt(a: FacetValue, b: FacetValue) -> bool {
    match (a, b) {
        (FacetValue::Text(x), FacetValue::Text(y)) => text_lt(x, y),
        (FacetValue::Text(_), FacetValue::Number(_)) => true,
        (FacetValue::Number(_), FacetValue::Text(_)) => false,
        (FacetValue::Number(x), FacetValue::Number(y)) => x < y,
    }
}

impl FacetOriginalValue {
    /// A copy of this value.
    pub fn duplicate(&self) -> (copy: FacetOriginalValue)
        ensures
            copy@ == self@,
    {
        match self {
            FacetOriginalValue::String(s) => FacetOriginalValue::String(s.clone()),
            FacetOriginalValue::Int(n) => FacetOriginalValue::Int(*n),
        }
    }

    /// Tests whether this value and `other` are the same.
    pub fn same_as(&self, other: &FacetOriginalValue) -> (same: bool)
        ensures
            same == (self@ == other@),
    {
        match (self, other) {
            (FacetOriginalValue::String(x), FacetOriginalValue::String(y)) => *x == *y,
            (FacetOriginalValue::Int(x), FacetOriginalValue::Int(y)) => *x == *y,
            _ => false,
        }
    }

    /// Tests whether this value comes before `other`.
    pub fn before(&self, other: &FacetOriginalValue) -> (less: bool)
        ensures
            less == value_lt(self@, other@),
    {
        match (self, other) {
            (FacetOriginalValue::String(x), FacetOriginalValue::String(y)) => text_less(
                &to_chars(x.as_str()),
                &to_chars(y.as_str()),
            ),
            (FacetOriginalValue::String(_), FacetOriginalValue::Int(_)) => true,
            (FacetOriginalValue::Int(_), FacetOriginalValue::String(_)) => false,
            (FacetOriginalValue::Int(x), FacetOriginalValue::Int(y)) => *x < *y,
        }
    }
}

/// Whether `values` stand in strictly rising order, so that none occurs
/// twice.
pub open spec fn values_sorted(values: Seq<FacetValue>) -> bool {
    forall|i: int, j: int| 0 <= i < j < values.len() ==> value_lt(values[i], values[j])
}

/// The models of a list of values.
pub open spec fn values_view(values: Seq<FacetOriginalValue>) -> Seq<FacetValue> {
    values.map_values(|v: FacetOriginalValue| v@)
}

/// No value comes before itself.
pub proof fn lemma_value_lt_irreflexive(a: FacetValue)
    ensures
        !value_lt(a, a),
{
    if let FacetValue::Text(x) = a {
        lemma_text_lt_irreflexive(x, 0);
    }
}

/// The order of values is transitive.
pub proof fn lemma_value_lt_transitive(a: FacetValue, b: FacetValue, c: FacetValue)
    requires
        value_lt(a, b),
        value_lt(b, c),
    ensures
        value_lt(a, c),
{
    if let (FacetValue::Text(x), FacetValue::Text(y), FacetValue::Text(z)) = (a, b, c) {
        lemma_text_lt_transitive(x, y, z, 0);
    }
}

/// Of two different values one comes before the other.
pub proof fn lemma_value_lt_total(a: FacetValue, b: FacetValue)
    requires
        !value_lt(a, b),
        !value_lt(b, a),
    ensures
        a == b,
{
    if let (FacetValue::Text(x), FacetValue::Text(y)) = (a, b) {
        assert(x.take(0) =~= y.take(0));
        lemma_text_lt_total(x, y, 0);
    }
}

/// Puts `value` into the sorted list `values`, unless it is there already.
fn insert_value(values: &mut Vec<FacetOriginalValue>, value: FacetOriginalValue)
    requires
        values_sorted(values_view(old(values)@)),
    ensures
        values_sorted(values_view(final(values)@)),
        forall|x: FacetValue|
            values_view(final(values)@).contains(x) <==> (values_view(old(values)@).contains(x)
                || x == value@),
{
    let ghost given = values_view(values@);
    let ghost v = value@;
    let mut p: usize = 0;
    while p < values.len() && values[p].before(&value)
        invariant
            p <= values.len(),
            values@ == old(values)@,
            given == values_view(values@),
            v == value@,
            forall|k: int| 0 <= k < p ==> value_lt(#[trigger] given[k], v),
        decreases values.len() - p,
    {
        p += 1;
    }
    if p < values.len() && values[p].same_as(&value) {
        assert(given[p as int] == v);
        return ;
    }
    values.insert(p, value);
    proof {
        let after = values_view(values@);
        assert(after =~= given.insert(p as int, v));
        assert forall|k: int| p <= k < given.len() implies value_lt(v, #[trigger] given[k]) by {
            if !value_lt(v, given[p as int]) {
                lemma_value_lt_total(v, given[p as int]);
            }
            if k > p {
                lemma_value_lt_transitive(v, given[p as int], given[k]);
            }
        }
        assert forall|i: int, j: int| 0 <= i < j < after.len() implies value_lt(
            after[i],
            after[j],
        ) by {
            let a = if i < p { i } else { i - 1 };
            let b = if j < p { j } else { j - 1 };
            if i != p && j != p {
                assert(after[i] == given[a] && after[j] == given[b]);
            } else if i == p {
                assert(after[j] == given[b]);
            } else {
                assert(after[i] == given[a]);
            }
        }
        assert forall|x: FacetValue| after.contains(x) <==> (given.contains(x) || x == v) by {
            if after.contains(x) {
                let k = choose|k: int| 0 <= k < after.len() && after[k] == x;
                if k < p {
                    assert(given[k] == x);
                } else if k > p {
                    assert(given[k - 1] == x);
                }
            }
            if given.contains(x) {
                let k = choose|k: int| 0 <= k < given.len() && given[k] == x;
                if k < p {
                    assert(after[k] == x);
                } else {
                    assert(after[k + 1] == x);
                }
            }
            if x == v {
                assert(after[p as int] == x);
            }
        }
    }
}

/// One filtered field with the values selected for it.
#[derive(Debug, Clone, PartialEq, Eq)]
struct FacetFilter {
    field: String,
    values: Vec<FacetOriginalValue>,
}

/// A filtered field and its selected values in rising order, as plain values.
pub ghost struct FilterModel {
    pub field: Seq<char>,
    pub values: Seq<FacetValue>,
}

impl View for FacetFilter {
    type V = FilterModel;

    closed spec fn view(&self) -> FilterModel {
        FilterModel { field: self.field@, values: values_view(self.values@) }
    }
}

/// Whether the fields of `filters` stand in strictly rising order, and the
/// values of each field too.
pub open spec fn canonical(filters: Seq<FilterModel>) -> bool {
    &&& forall|i: int, j: int|
        0 <= i < j < filters.len() ==> text_lt(
            (#[trigger] filters[i]).field,
            (#[trigger] filters[j]).field,
        )
    &&& forall|i: int| 0 <= i < filters.len() ==> values_sorted((#[trigger] filters[i]).values)
}

/// Whether `filters` names the field `field`.
pub open spec fn has_field(filters: Seq<FilterModel>, field: Seq<char>) -> bool {
    exists|i: int| 0 <= i < filters.len() && (#[trigger] filters[i]).field == field
}

/// The values that `filters` selects for `field`.
pub open spec fn field_values(filters: Seq<FilterModel>, field: Seq<char>) -> Set<FacetValue> {
    Set::new(
        |v: FacetValue|
            exists|i: int|
                0 <= i < filters.len() && (#[trigger] filters[i]).field == field
                    && filters[i].values.contains(v),
    )
}

/// The filters as a map from each field to the set of its values.
pub open spec fn filters_map(filters: Seq<FilterModel>) -> Map<Seq<char>, Set<FacetValue>> {
    Map::new(|f: Seq<char>| has_field(filters, f), |f: Seq<char>| field_values(filters, f))
}

/// The values that the map `filters` selects for `field`: none where it
/// does not name the field.
pub open spec fn selected(filters: Map<Seq<char>, Set<FacetValue>>, field: Seq<char>) -> Set<
    FacetValue,
> {
    if filters.dom().contains(field) {
        filters[field]
    } else {
        Set::empty()
    }
}

/// In canonical filters no field stands twice.
proof fn lemma_field_once(filters: Seq<FilterModel>, i: int, j: int)
    requires
        canonical(filters),
        0 <= i < filters.len(),
        0 <= j < filters.len(),
        filters[i].field == filters[j].field,
    ensures
        i == j,
{
    lemma_text_lt_irreflexive(filters[i].field, 0);
    if i < j {
        assert(text_lt(filters[i].field, filters[j].field));
    } else if j < i {
        assert(text_lt(filters[j].field, filters[i].field));
    }
}

/// In canonical filters the values of a field are those of its one entry.
proof fn lemma_entry_values(filters: Seq<FilterModel>, i: int)
    requires
        canonical(filters),
        0 <= i < filters.len(),
    ensures
        has_field(filters, filters[i].field),
        field_values(filters, filters[i].field) == filters[i].values.to_set(),
{
    let f = filters[i].field;
    assert forall|v: FacetValue| field_values(filters, f).contains(v) implies filters[i].values.contains(
        v,
    ) by {
        let j = choose|j: int|
            0 <= j < filters.len() && (#[trigger] filters[j]).field == f
                && filters[j].values.contains(v);
        lemma_field_once(filters, i, j);
    }
    assert(field_values(filters, f) =~= filters[i].values.to_set());
}

/// A field that falls between two neighbours of canonical filters is not
/// among them.
proof fn lemma_absent(filters: Seq<FilterModel>, p: int, key: Seq<char>)
    requires
        0 <= p <= filters.len(),
        forall|k: int| 0 <= k < p ==> text_lt((#[trigger] filters[k]).field, key),
        forall|k: int| p <= k < filters.len() ==> text_lt(key, (#[trigger] filters[k]).field),
    ensures
        !has_field(filters, key),
        field_values(filters, key) == Set::<FacetValue>::empty(),
{
    lemma_text_lt_irreflexive(key, 0);
    assert forall|k: int| 0 <= k < filters.len() implies (#[trigger] filters[k]).field != key by {
        if k < p {
            assert(text_lt(filters[k].field, key));
        } else {
            assert(text_lt(key, filters[k].field));
        }
    }
    assert(field_values(filters, key) =~= Set::<FacetValue>::empty());
}

/// Replacing the values of one entry changes the map at its field alone.
proof fn lemma_update_entry(filters: Seq<FilterModel>, p: int, values: Seq<FacetValue>)
    requires
        canonical(filters),
        0 <= p < filters.len(),
        values_sorted(values),
    ensures
        canonical(filters.update(p, FilterModel { field: filters[p].field, values })),
        filters_map(filters.update(p, FilterModel { field: filters[p].field, values }))
            == filters_map(filters).insert(filters[p].field, values.to_set()),
{
    let key = filters[p].field;
    let after = filters.update(p, FilterModel { field: key, values });
    assert forall|i: int, j: int| 0 <= i < j < after.len() implies text_lt(
        (#[trigger] after[i]).field,
        (#[trigger] after[j]).field,
    ) by {
        assert(after[i].field == filters[i].field && after[j].field == filters[j].field);
    }
    assert forall|i: int| 0 <= i < after.len() implies values_sorted(
        (#[trigger] after[i]).values,
    ) by {
        if i != p {
            assert(after[i] == filters[i]);
        }
    }
    lemma_entry_values(after, p);
    assert forall|f: Seq<char>| has_field(after, f) == (has_field(filters, f) || f == key) by {
        if has_field(after, f) {
            let i = choose|i: int| 0 <= i < after.len() && (#[trigger] after[i]).field == f;
            assert(filters[i].field == f);
        }
        if has_field(filters, f) {
            let i = choose|i: int| 0 <= i < filters.len() && (#[trigger] filters[i]).field == f;
            assert(after[i].field == f);
        }
    }
    assert forall|f: Seq<char>| f != key implies field_values(after, f) == field_values(
        filters,
        f,
    ) by {
        assert forall|v: FacetValue| field_values(after, f).contains(v) == field_values(
            filters,
            f,
        ).contains(v) by {
            if field_values(after, f).contains(v) {
                let i = choose|i: int|
                    0 <= i < after.len() && (#[trigger] after[i]).field == f
                        && after[i].values.contains(v);
                assert(filters[i] == after[i]);
            }
            if field_values(filters, f).contains(v) {
                let i = choose|i: int|
                    0 <= i < filters.len() && (#[trigger] filters[i]).field == f
                        && filters[i].values.contains(v);
                assert(after[i] == filters[i]);
            }
        }
        assert(field_values(after, f) =~= field_values(filters, f));
    }
    assert(filters_map(after) =~= filters_map(filters).insert(key, values.to_set()));
}

/// Putting a new entry at its place adds its field to the map.
proof fn lemma_insert_entry(
    filters: Seq<FilterModel>,
    p: int,
    key: Seq<char>,
    values: Seq<FacetValue>,
)
    requires
        canonical(filters),
        0 <= p <= filters.len(),
        forall|k: int| 0 <= k < p ==> text_lt((#[trigger] filters[k]).field, key),
        forall|k: int| p <= k < filters.len() ==> text_lt(key, (#[trigger] filters[k]).field),
        values_sorted(values),
    ensures
        canonical(filters.insert(p, FilterModel { field: key, values })),
        filters_map(filters.insert(p, FilterModel { field: key, values })) == filters_map(
            filters,
        ).insert(key, values.to_set()),
{
    let after = filters.insert(p, FilterModel { field: key, values });
    assert forall|i: int, j: int| 0 <= i < j < after.len() implies text_lt(
        (#[trigger] after[i]).field,
        (#[trigger] after[j]).field,
    ) by {
        let a = if i < p { i } else { i - 1 };
        let b = if j < p { j } else { j - 1 };
        if i != p && j != p {
            assert(after[i] == filters[a] && after[j] == filters[b]);
        } else if i == p {
            assert(after[j] == filters[b]);
        } else {
            assert(after[i] == filters[a]);
        }
    }
    assert forall|i: int| 0 <= i < after.len() implies values_sorted(
        (#[trigger] after[i]).values,
    ) by {
        if i < p {
            assert(after[i] == filters[i]);
        } else if i > p {
            assert(after[i] == filters[i - 1]);
        }
    }
    lemma_entry_values(after, p);
    lemma_absent(filters, p, key);
    assert forall|f: Seq<char>| has_field(after, f) == (has_field(filters, f) || f == key) by {
        if has_field(after, f) {
            let i = choose|i: int| 0 <= i < after.len() && (#[trigger] after[i]).field == f;
            if i < p {
                assert(filters[i].field == f);
            } else if i > p {
                assert(filters[i - 1].field == f);
            }
        }
        if has_field(filters, f) {
            let i = choose|i: int| 0 <= i < filters.len() && (#[trigger] filters[i]).field == f;
            if i < p {
                assert(after[i].field == f);
            } else {
                assert(after[i + 1].field == f);
            }
        }
    }
    assert forall|f: Seq<char>| f != key implies field_values(after, f) == field_values(
        filters,
        f,
    ) by {
        assert forall|v: FacetValue| field_values(after, f).contains(v) == field_values(
            filters,
            f,
        ).contains(v) by {
            if field_values(after, f).contains(v) {
                let i = choose|i: int|
                    0 <= i < after.len() && (#[trigger] after[i]).field == f
                        && after[i].values.contains(v);
                if i < p {
                    assert(filters[i] == after[i]);
                } else {
                    assert(filters[i - 1] == after[i]);
                }
            }
            if field_values(filters, f).contains(v) {
                let i = choose|i: int|
                    0 <= i < filters.len() && (#[trigger] filters[i]).field == f
                        && filters[i].values.contains(v);
                if i < p {
                    assert(after[i] == filters[i]);
                } else {
                    assert(after[i + 1] == filters[i]);
                }
            }
        }
        assert(field_values(after, f) =~= field_values(filters, f));
    }
    assert(filters_map(after) =~= filters_map(filters).insert(key, values.to_set()));
}

/// Taking one entry out takes its field out of the map.
proof fn lemma_remove_entry(filters: Seq<FilterModel>, p: int)
    requires
        canonical(filters),
        0 <= p < filters.len(),
    ensures
        canonical(filters.remove(p)),
        filters_map(filters.remove(p)) == filters_map(filters).remove(filters[p].field),
{
    let key = filters[p].field;
    let after = filters.remove(p);
    assert forall|i: int, j: int| 0 <= i < j < after.len() implies text_lt(
        (#[trigger] after[i]).field,
        (#[trigger] after[j]).field,
    ) by {
        let a = if i < p { i } else { i + 1 };
        let b = if j < p { j } else { j + 1 };
        assert(after[i] == filters[a] && after[j] == filters[b]);
    }
    assert forall|i: int| 0 <= i < after.len() implies values_sorted(
        (#[trigger] after[i]).values,
    ) by {
        let a = if i < p { i } else { i + 1 };
        assert(after[i] == filters[a]);
    }
    assert forall|f: Seq<char>| has_field(after, f) == (has_field(filters, f) && f != key) by {
        if has_field(after, f) {
            let i = choose|i: int| 0 <= i < after.len() && (#[trigger] after[i]).field == f;
            let a = if i < p { i } else { i + 1 };
            assert(filters[a].field == f);
            if f == key {
                lemma_field_once(filters, a, p);
            }
        }
        if has_field(filters, f) && f != key {
            let i = choose|i: int| 0 <= i < filters.len() && (#[trigger] filters[i]).field == f;
            if i < p {
                assert(after[i].field == f);
            } else {
                assert(after[i - 1].field == f);
            }
        }
    }
    assert forall|f: Seq<char>| f != key implies field_values(after, f) == field_values(
        filters,
        f,
    ) by {
        assert forall|v: FacetValue| field_values(after, f).contains(v) == field_values(
            filters,
            f,
        ).contains(v) by {
            if field_values(after, f).contains(v) {
                let i = choose|i: int|
                    0 <= i < after.len() && (#[trigger] after[i]).field == f
                        && after[i].values.contains(v);
                let a = if i < p { i } else { i + 1 };
                assert(filters[a] == after[i]);
            }
            if field_values(filters, f).contains(v) {
                let i = choose|i: int|
                    0 <= i < filters.len() && (#[trigger] filters[i]).field == f
                        && filters[i].values.contains(v);
                if i < p {
                    assert(after[i] == filters[i]);
                } else {
                    assert(after[i - 1] == filters[i]);
                }
            }
        }
        assert(field_values(after, f) =~= field_values(filters, f));
    }
    assert(filters_map(after) =~= filters_map(filters).remove(key));
}

/// A list of fields with the values chosen for each, as plain values.
pub open spec fn entries_view(entries: Seq<(String, Vec<FacetOriginalValue>)>) -> Seq<
    (Seq<char>, Seq<FacetValue>),
> {
    entries.map_values(|e: (String, Vec<FacetOriginalValue>)| (e.0@, values_view(e.1@)))
}

/// The filters that a list of fields with their values stands for: each
/// field is named, and has all the values that any entry gives it.
pub open spec fn gathered_filters(entries: Seq<(Seq<char>, Seq<FacetValue>)>) -> Map<
    Seq<char>,
    Set<FacetValue>,
>
    decreases entries.len(),
{
    if entries.len() == 0 {
        Map::empty()
    } else {
        let before = gathered_filters(entries.drop_last());
        let last = entries.last();
        before.insert(last.0, selected(before, last.0).union(last.1.to_set()))
    }
}

/// The facet filters of a query: for each filtered field the set of values
/// that a document may have in it. Fields and values are kept in one fixed
/// order, whatever the order in which they came.
#[derive(Debug, Clone, PartialEq, Eq)]
pub struct FacetFilters {
    entries: Vec<FacetFilter>,
}

impl View for FacetFilters {
    type V = Map<Seq<char>, Set<FacetValue>>;

    open spec fn view(&self) -> Map<Seq<char>, Set<FacetValue>> {
        filters_map(self.model())
    }
}

impl FacetFilters {
    /// The filters in the order in which they are written out.
    pub closed spec fn model(&self) -> Seq<FilterModel> {
        self.entries@.map_values(|e: FacetFilter| e@)
    }

    /// Whether the filters are in their fixed order.
    pub open spec fn wf(&self) -> bool {
        canonical(self.model())
    }

    /// No filters at all.
    pub fn new() -> (filters: FacetFilters)
        ensures
            filters.wf(),
            filters.model() == Seq::<FilterModel>::empty(),
            filters@ == Map::<Seq<char>, Set<FacetValue>>::empty(),
    {
        let filters = FacetFilters { entries: Vec::new() };
        proof {
            assert(filters.model() =~= Seq::<FilterModel>::empty());
            assert(filters@ =~= Map::<Seq<char>, Set<FacetValue>>::empty());
        }
        filters
    }

    /// The filters for a list of fields with their values, in any order
    /// and with any repetition.
    pub fn from_entries(entries: &Vec<(String, Vec<FacetOriginalValue>)>) -> (filters: FacetFilters)
        ensures
            filters.wf(),
            filters@ == gathered_filters(entries_view(entries@)),
    {
        let ghost all = entries_view(entries@);
        let mut filters = FacetFilters::new();
        let mut k: usize = 0;
        proof {
            assert(all.take(0) =~= Seq::<(Seq<char>, Seq<FacetValue>)>::empty());
        }
        while k < entries.len()
            invariant
                k <= entries.len(),
                all == entries_view(entries@),
                filters.wf(),
                filters@ == gathered_filters(all.take(k as int)),
            decreases entries.len() - k,
        {
            let ghost before = filters@;
            let ghost field = entries@[k as int].0@;
            let ghost vals = values_view(entries@[k as int].1@);
            proof {
                assert(all.take(k + 1).drop_last() =~= all.take(k as int));
                assert(all.take(k + 1).last() == (field, vals));
                assert(vals.take(0).to_set() =~= Set::<FacetValue>::empty());
                assert(selected(before, field).union(Set::<FacetValue>::empty()) =~= selected(
                    before,
                    field,
                ));
            }
            filters.select_field(entries[k].0.as_str());
            let values = &entries[k].1;
            let mut j: usize = 0;
            while j < values.len()
                invariant
                    j <= values.len(),
                    k < entries.len(),
                    values@ == entries@[k as int].1@,
                    field == entries@[k as int].0@,
                    vals == values_view(values@),
                    filters.wf(),
                    filters@ == before.insert(
                        field,
                        selected(before, field).union(vals.take(j as int).to_set()),
                    ),
                decreases values.len() - j,
            {
                let ghost had = selected(before, field).union(vals.take(j as int).to_set());
                let ghost v = values@[j as int]@;
                filters.insert(entries[k].0.as_str(), values[j].duplicate());
                proof {
                    assert(vals[j as int] == v);
                    assert(vals.take(j + 1) =~= vals.take(j as int).push(v));
                    assert forall|x: FacetValue| vals.take(j + 1).contains(x) <==> (vals.take(
                        j as int,
                    ).contains(x) || x == v) by {
                        let more = vals.take(j + 1);
                        let less = vals.take(j as int);
                        if more.contains(x) {
                            let i = choose|i: int| 0 <= i < more.len() && more[i] == x;
                            if i < j {
                                assert(less[i] == x);
                            }
                        }
                        if less.contains(x) {
                            let i = choose|i: int| 0 <= i < less.len() && less[i] == x;
                            assert(more[i] == x);
                        }
                        if x == v {
                            assert(more[j as int] == x);
                        }
                    }
                    assert forall|x: FacetValue|
                        selected(before, field).union(vals.take(j + 1).to_set()).contains(x)
                            == had.insert(v).contains(x) by {
                        assert(vals.take(j + 1).to_set().contains(x) == vals.take(j + 1).contains(
                            x,
                        ));
                        assert(vals.take(j as int).to_set().contains(x) == vals.take(
                            j as int,
                        ).contains(x));
                    }
                    assert(selected(before, field).union(vals.take(j + 1).to_set()) =~= had.insert(
                        v,
                    ));
                    assert(filters@ =~= before.insert(field, had.insert(v)));
                }
                j += 1;
            }
            proof {
                assert(vals.take(values.len() as int) =~= vals);
            }
            k += 1;
        }
        proof {
            assert(all.take(entries.len() as int) =~= all);
        }
        filters
    }

    /// The number of filtered fields.
    pub fn len(&self) -> (n: usize)
        ensures
            n == self.model().len(),
    {
        self.entries.len()
    }

    /// Tests whether the filters are in their fixed order.
    pub fn is_wf(&self) -> (ok: bool)
        ensures
            ok == self.wf(),
    {
        let ghost m = self.model();
        let mut k: usize = 0;
        while k < self.entries.len()
            invariant
                k <= self.entries.len(),
                m == self.model(),
                forall|i: int, j: int|
                    0 <= i < j < k ==> text_lt((#[trigger] m[i]).field, (#[trigger] m[j]).field),
                forall|i: int| 0 <= i < k ==> values_sorted((#[trigger] m[i]).values),
            decreases self.entries.len() - k,
        {
            let entry = &self.entries[k];
            assert(entry@ == m[k as int]);
            if k > 0 {
                let before = to_chars(self.entries[k - 1].field.as_str());
                let here = to_chars(entry.field.as_str());
                assert(before@ == m[k - 1].field);
                if !text_less(&before, &here) {
                    return false;
                }
                proof {
                    assert forall|i: int| 0 <= i < k implies text_lt(
                        (#[trigger] m[i]).field,
                        m[k as int].field,
                    ) by {
                        if i < k - 1 {
                            lemma_text_lt_transitive(m[i].field, m[k - 1].field, m[k as int].field, 0);
                        }
                    }
                }
            }
            let ghost vals = values_view(entry.values@);
            let mut n: usize = 1;
            while n < entry.values.len()
                invariant
                    1 <= n,
                    k < m.len(),
                    m == self.model(),
                    vals == values_view(entry.values@),
                    vals == m[k as int].values,
                    forall|i: int, j: int| 0 <= i < j < n ==> value_lt(vals[i], vals[j]),
                decreases entry.values.len() - n,
            {
                if !entry.values[n - 1].before(&entry.values[n]) {
                    assert(!value_lt(vals[n - 1], vals[n as int]));
                    assert(!values_sorted(m[k as int].values));
                    return false;
                }
                proof {
                    assert forall|i: int| 0 <= i < n implies value_lt(vals[i], vals[n as int]) by {
                        if i < n - 1 {
                            lemma_value_lt_transitive(vals[i], vals[n - 1], vals[n as int]);
                        }
                    }
                }
                n += 1;
            }
            k += 1;
        }
        true
    }

    /// The place of `key` among the fields: the number of fields that come
    /// before it, and whether the field at that place is `key` itself.
    fn position(&self, key: &Vec<char>) -> (place: (usize, bool))
        requires
            self.wf(),
        ensures
            place.0 <= self.model().len(),
            forall|k: int| 0 <= k < place.0 ==> text_lt((#[trigger] self.model()[k]).field, key@),
            place.1 ==> place.0 < self.model().len() && self.model()[place.0 as int].field == key@,
            forall|k: int|
                place.0 <= k < self.model().len() && !(place.1 && k == place.0) ==> text_lt(
                    key@,
                    (#[trigger] self.model()[k]).field,
                ),
    {
        let ghost m = self.model();
        let mut p: usize = 0;
        let mut found = false;
        let mut stop = false;
        while !stop && p < self.entries.len()
            invariant
                p <= self.entries.len(),
                m == self.model(),
                forall|k: int| 0 <= k < p ==> text_lt((#[trigger] m[k]).field, key@),
                !stop ==> !found,
                stop ==> p < m.len() && !text_lt(m[p as int].field, key@) && found == !text_lt(
                    key@,
                    m[p as int].field,
                ),
            decreases self.entries.len() - p + if stop { 0int } else { 1int },
        {
            let field = to_chars(self.entries[p].field.as_str());
            assert(field@ == m[p as int].field);
            if text_less(&field, key) {
                p += 1;
            } else {
                found = !text_less(key, &field);
                stop = true;
            }
        }
        proof {
            if found {
                assert(m[p as int].field.take(0) =~= key@.take(0));
                lemma_text_lt_total(m[p as int].field, key@, 0);
            }
            assert forall|k: int| p <= k < m.len() && !(found && k == p) implies text_lt(
                key@,
                (#[trigger] m[k]).field,
            ) by {
                if k > p {
                    assert(text_lt(m[p as int].field, m[k].field));
                    if !found {
                        lemma_text_lt_transitive(key@, m[p as int].field, m[k].field, 0);
                    }
                }
            }
        }
        (p, found)
    }

    /// Selects `value` for `field`, beside the values that are selected for
    /// it already.
    pub fn insert(&mut self, field: &str, value: FacetOriginalValue)
        requires
            old(self).wf(),
        ensures
            final(self).wf(),
            final(self)@ == old(self)@.insert(
                field@,
                selected(old(self)@, field@).insert(value@),
            ),
    {
        let ghost m = self.model();
        let ghost v = value@;
        let key = to_chars(field);
        let (p, found) = self.position(&key);
        if found {
            let mut entry = self.entries.remove(p);
            proof {
                lemma_entry_values(m, p as int);
                assert(entry@ == m[p as int]);
            }
            insert_value(&mut entry.values, value);
            let ghost values = values_view(entry.values@);
            self.entries.insert(p, entry);
            proof {
                assert(self.model() =~= m.update(
                    p as int,
                    FilterModel { field: m[p as int].field, values },
                ));
                lemma_update_entry(m, p as int, values);
                assert(values.to_set() =~= m[p as int].values.to_set().insert(v));
            }
        } else {
            let mut values: Vec<FacetOriginalValue> = Vec::new();
            values.push(value);
            let ghost held = values_view(values@);
            self.entries.insert(p, FacetFilter { field: String::from_str(field), values });
            proof {
                assert(held =~= seq![v]);
                assert(self.model() =~= m.insert(
                    p as int,
                    FilterModel { field: key@, values: held },
                ));
                lemma_absent(m, p as int, key@);
                lemma_insert_entry(m, p as int, key@, held);
                assert(held[0] == v);
                assert forall|x: FacetValue| held.contains(x) == (x == v) by {
                    if x == v {
                        assert(held[0] == x);
                    }
                }
                assert(held.to_set() =~= Set::<FacetValue>::empty().insert(v));
            }
        }
    }

    /// Names `field` among the filters and leaves its values as they are: a
    /// field that was not filtered yet gets the empty set.
    pub fn select_field(&mut self, field: &str)
        requires
            old(self).wf(),
        ensures
            final(self).wf(),
            final(self)@ == old(self)@.insert(field@, selected(old(self)@, field@)),
    {
        let ghost m = self.model();
        let key = to_chars(field);
        let (p, found) = self.position(&key);
        if found {
            proof {
                lemma_entry_values(m, p as int);
                assert(self@ =~= self@.insert(field@, selected(self@, field@)));
            }
        } else {
            let values: Vec<FacetOriginalValue> = Vec::new();
            let ghost held = values_view(values@);
            self.entries.insert(p, FacetFilter { field: String::from_str(field), values });
            proof {
                assert(held =~= Seq::<FacetValue>::empty());
                assert(self.model() =~= m.insert(
                    p as int,
                    FilterModel { field: key@, values: held },
                ));
                lemma_absent(m, p as int, key@);
                lemma_insert_entry(m, p as int, key@, held);
                assert(held.to_set() =~= Set::<FacetValue>::empty());
            }
        }
    }

    /// Drops `field` and its values from the filters.
    pub fn remove(&mut self, field: &str)
        requires
            old(self).wf(),
        ensures
            final(self).wf(),
            final(self)@ == old(self)@.remove(field@),
    {
        let ghost m = self.model();
        let key = to_chars(field);
        let (p, found) = self.position(&key);
        if found {
            self.entries.remove(p);
            proof {
                assert(self.model() =~= m.remove(p as int));
                lemma_remove_entry(m, p as int);
            }
        } else {
            proof {
                lemma_absent(m, p as int, key@);
                assert(self@ =~= self@.remove(field@));
            }
        }
    }

    /// Tests whether `field` is named among the filters.
    pub fn contains_field(&self, field: &str) -> (named: bool)
        requires
            self.wf(),
        ensures
            named == self@.dom().contains(field@),
    {
        let key = to_chars(field);
        let (p, found) = self.position(&key);
        proof {
            if found {
                lemma_entry_values(self.model(), p as int);
            } else {
                lemma_absent(self.model(), p as int, key@);
            }
        }
        found
    }

    /// The values selected for `field`, in rising order; none where the
    /// field is not filtered.
    pub fn values(&self, field: &str) -> (values: Vec<FacetOriginalValue>)
        requires
            self.wf(),
        ensures
            values_sorted(values_view(values@)),
            values_view(values@).to_set() == selected(self@, field@),
    {
        let ghost m = self.model();
        let key = to_chars(field);
        let (p, found) = self.position(&key);
        let mut values: Vec<FacetOriginalValue> = Vec::new();
        if found {
            let entry = &self.entries[p];
            proof {
                lemma_entry_values(m, p as int);
                assert(entry@ == m[p as int]);
            }
            let mut k: usize = 0;
            while k < entry.values.len()
                invariant
                    k <= entry.values.len(),
                    values@.len() == k,
                    values_view(values@) == values_view(entry.values@).take(k as int),
                decreases entry.values.len() - k,
            {
                let ghost held = values@;
                values.push(entry.values[k].duplicate());
                proof {
                    assert forall|i: int| 0 <= i < k implies values_view(values@)[i]
                        == values_view(entry.values@)[i] by {
                        assert(values@[i] == held[i]);
                        assert(values_view(held)[i] == values_view(entry.values@).take(k as int)[i]);
                    }
                    assert(values_view(values@) =~= values_view(entry.values@).take(k + 1));
                }
                k += 1;
            }
            proof {
                assert(values_view(entry.values@).take(entry.values.len() as int) =~= values_view(
                    entry.values@,
                ));
            }
        } else {
            proof {
                lemma_absent(m, p as int, key@);
                assert(values_view(values@).to_set() =~= Set::<FacetValue>::empty());
            }
        }
        values
    }

    /// The field at place `i` of the fixed order.
    pub fn field_at(&self, i: usize) -> (field: &String)
        requires
            i < self.model().len(),
        ensures
            field@ == self.model()[i as int].field,
    {
        &self.entries[i].field
    }

    /// The values of the field at place `i` of the fixed order.
    pub fn values_at(&self, i: usize) -> (values: &Vec<FacetOriginalValue>)
        requires
            i < self.model().len(),
        ensures
            values_view(values@) == self.model()[i as int].values,
    {
        &self.entries[i].values
    }

    /// The filtered fields, in rising order.
    pub fn fields(&self) -> (fields: Vec<String>)
        ensures
            fields@.len() == self.model().len(),
            forall|i: int| 0 <= i < fields@.len() ==> (#[trigger] fields@[i])@ == self.model()[i].field,
    {
        let mut fields: Vec<String> = Vec::new();
        let mut k: usize = 0;
        while k < self.entries.len()
            invariant
                k <= self.entries.len(),
                fields@.len() == k,
                forall|i: int| 0 <= i < k ==> (#[trigger] fields@[i])@ == self.model()[i].field,
            decreases self.entries.len() - k,
        {
            fields.push(self.entries[k].field.clone());
            k += 1;
        }
        fields
    }
}

/// The fixed order is the only one: canonical filters that stand for the
/// same map are the same sequence, entry by entry and value by value.
pub proof fn lemma_canonical_unique(a: Seq<FilterModel>, b: Seq<FilterModel>)
    requires
        canonical(a),
        canonical(b),
        filters_map(a) == filters_map(b),
    ensures
        a == b,
{
    let text_order = |x: Seq<char>, y: Seq<char>| text_lt(x, y);
    let value_order = |x: FacetValue, y: FacetValue| value_lt(x, y);
    let fa = a.map_values(|e: FilterModel| e.field);
    let fb = b.map_values(|e: FilterModel| e.field);
    assert forall|x: Seq<char>| !#[trigger] precedes(text_order, x, x) by {
        lemma_text_lt_irreflexive(x, 0);
    }
    assert forall|x: Seq<char>, y: Seq<char>, z: Seq<char>|
        #[trigger] precedes(text_order, x, y) && #[trigger] precedes(
            text_order,
            y,
            z,
        ) implies precedes(text_order, x, z) by {
        lemma_text_lt_transitive(x, y, z, 0);
    }
    assert(strictly_sorted(fa, text_order)) by {
        assert forall|i: int, j: int| 0 <= i < j < fa.len() implies precedes(
            text_order,
            fa[i],
            fa[j],
        ) by {
            assert(text_lt(a[i].field, a[j].field));
        }
    }
    assert(strictly_sorted(fb, text_order)) by {
        assert forall|i: int, j: int| 0 <= i < j < fb.len() implies precedes(
            text_order,
            fb[i],
            fb[j],
        ) by {
            assert(text_lt(b[i].field, b[j].field));
        }
    }
    assert forall|f: Seq<char>| fa.contains(f) <==> fb.contains(f) by {
        if fa.contains(f) {
            let i = choose|i: int| 0 <= i < fa.len() && fa[i] == f;
            assert(a[i].field == f);
            assert(has_field(a, f));
            assert(filters_map(a).dom().contains(f));
            assert(filters_map(b).dom().contains(f));
            assert(has_field(b, f));
            let k = choose|k: int| 0 <= k < b.len() && (#[trigger] b[k]).field == f;
            assert(fb[k] == f);
        }
        if fb.contains(f) {
            let i = choose|i: int| 0 <= i < fb.len() && fb[i] == f;
            assert(b[i].field == f);
            assert(has_field(b, f));
            assert(filters_map(b).dom().contains(f));
            assert(filters_map(a).dom().contains(f));
            assert(has_field(a, f));
            let k = choose|k: int| 0 <= k < a.len() && (#[trigger] a[k]).field == f;
            assert(fa[k] == f);
        }
    }
    lemma_sorted_unique(fa, fb, text_order);
    assert(a.len() == fa.len() && b.len() == fb.len());
    assert forall|x: FacetValue| !#[trigger] precedes(value_order, x, x) by {
        lemma_value_lt_irreflexive(x);
    }
    assert forall|x: FacetValue, y: FacetValue, z: FacetValue|
        #[trigger] precedes(value_order, x, y) && #[trigger] precedes(
            value_order,
            y,
            z,
        ) implies precedes(value_order, x, z) by {
        lemma_value_lt_transitive(x, y, z);
    }
    assert forall|i: int| 0 <= i < a.len() implies a[i] == b[i] by {
        let f = a[i].field;
        assert(fa[i] == f && fb[i] == b[i].field);
        lemma_entry_values(a, i);
        lemma_entry_values(b, i);
        assert(filters_map(a)[f] == filters_map(b)[f]);
        let va = a[i].values;
        let vb = b[i].values;
        assert(va.to_set() == vb.to_set());
        assert forall|x: FacetValue| va.contains(x) <==> vb.contains(x) by {
            assert(va.to_set().contains(x) == vb.to_set().contains(x));
        }
        assert(strictly_sorted(va, value_order)) by {
            assert forall|j: int, k: int| 0 <= j < k < va.len() implies precedes(
                value_order,
                va[j],
                va[k],
            ) by {
                assert(value_lt(va[j], va[k]));
            }
        }
        assert(strictly_sorted(vb, value_order)) by {
            assert forall|j: int, k: int| 0 <= j < k < vb.len() implies precedes(
                value_order,
                vb[j],
                vb[k],
            ) by {
                assert(value_lt(vb[j], vb[k]));
            }
        }
        lemma_sorted_unique(va, vb, value_order);
    }
    assert(a =~= b);
}

/// Filters in their fixed order are determined by what they select.
pub proof fn lemma_filters_determined(a: FacetFilters, b: FacetFilters)
    requires
        a.wf(),
        b.wf(),
        a@ == b@,
    ensures
        a.model() == b.model(),
{
    lemma_canonical_unique(a.model(), b.model());
}

/// Selecting values is independent of the order of selection.
pub proof fn lemma_insert_commutes(
    filters: Map<Seq<char>, Set<FacetValue>>,
    f1: Seq<char>,
    v1: FacetValue,
    f2: Seq<char>,
    v2: FacetValue,
)
    ensures
        ({
            let first = filters.insert(f1, selected(filters, f1).insert(v1));
            first.insert(f2, selected(first, f2).insert(v2))
        }) == ({
            let first = filters.insert(f2, selected(filters, f2).insert(v2));
            first.insert(f1, selected(first, f1).insert(v1))
        }),
{
    let a1 = filters.insert(f1, selected(filters, f1).insert(v1));
    let a2 = a1.insert(f2, selected(a1, f2).insert(v2));
    let b1 = filters.insert(f2, selected(filters, f2).insert(v2));
    let b2 = b1.insert(f1, selected(b1, f1).insert(v1));
    if f1 == f2 {
        assert(selected(filters, f1).insert(v1).insert(v2) =~= selected(filters, f1).insert(
            v2,
        ).insert(v1));
    }
    assert(a2 =~= b2);
}

/// A structured search: the text to look for, the collections to look in,
/// and the facet filters that narrow the result.
#[derive(Debug, Clone, PartialEq, Eq)]
pub struct SearchQuery {
    pub collection_datasets: Vec<String>,
    pub query_string: String,
    pub facet_filters: FacetFilters,
}

impl SearchQuery {
    /// Whether the filters of the query are in their fixed order.
    pub open spec fn wf(&self) -> bool {
        self.facet_filters.wf()
    }

    /// A query for `query_string` in all collections, without filters.
    pub fn new(query_string: String) -> (query: SearchQuery)
        ensures
            query.wf(),
            query.query_string == query_string,
            query.collection_datasets@.len() == 0,
            query.facet_filters@ == Map::<Seq<char>, Set<FacetValue>>::empty(),
    {
        SearchQuery {
            collection_datasets: Vec::new(),
            query_string,
            facet_filters: FacetFilters::new(),
        }
    }
}

impl Default for FacetFilters {
    fn default() -> (filters: FacetFilters)
        ensures
            filters.wf(),
            filters@ == Map::<Seq<char>, Set<FacetValue>>::empty(),
    {
        FacetFilters::new()
    }
}

impl Default for SearchQuery {
    fn default() -> (query: SearchQuery)
        ensures
            query.wf(),
            query.query_string@ == Seq::<char>::empty(),
            query.collection_datasets@.len() == 0,
            query.facet_filters@ == Map::<Seq<char>, Set<FacetValue>>::empty(),
    {
        SearchQuery::new(String::new())
    }
}

} // verus!
