//! Facet counts, reconciled with what the caller has selected.
//!
//! A facet lists the values of one field with the number of matching
//! documents for each. Values that the caller has selected stay in the list
//! even where the backend no longer reports them.

use crate::order::{
    lemma_sorted_unique, lemma_text_lt_irreflexive, lemma_text_lt_total, lemma_text_lt_transitive,
    precedes, strictly_sorted, text_less, text_lt,
};
use crate::search_query::{
    lemma_value_lt_irreflexive, lemma_value_lt_total, lemma_value_lt_transitive, selected,
    value_lt, values_view, FacetOriginalValue, FacetValue, SearchQuery,
};
use crate::search_result::{
    facet_items_view, FacetItemModel, SearchResultFacetItem, SearchResultFacets,
};
use crate::search_sql::{decimal_digits, push_decimal};
use crate::text::{same_text, to_chars};
use vstd::prelude::*;

verus! {

/// The value of a bucket as the backend sent it.
#[derive(Debug, Clone, PartialEq, Eq)]
pub enum RawFacetKey {
    /// A string.
    Text(String),
    /// A number, with its value where it is a non-negative integer that
    /// fits 64 bits.
    Number(Option<u64>),
    /// Anything else.
    Other,
}

/// One bucket of the backend's answer: a value and the number of distinct
/// documents that have it.
#[derive(Debug, Clone, PartialEq, Eq)]
pub struct RawFacetBucket {
    pub key: RawFacetKey,
    pub doc_count: u64,
}

/// Why a facet could not be made.
#[derive(Debug, Clone, Copy, PartialEq, Eq)]
pub enum FacetError {
    /// The backend sent a value that is neither a string nor a number.
    UnexpectedValueType,
}

/// The facet value that a raw value stands for: a string for itself, a
/// number for its integer value or for zero where it has none, anything
/// else for nothing.
pub open spec fn classified(key: RawFacetKey) -> Option<FacetValue> {
    match key {
        RawFacetKey::Text(s) => Some(FacetValue::Text(s@)),
        RawFacetKey::Number(Some(n)) => Some(FacetValue::Number(n as nat)),
        RawFacetKey::Number(None) => Some(FacetValue::Number(0)),
        RawFacetKey::Other => None,
    }
}

/// Classifies a raw value.
pub fn classify(key: &RawFacetKey) -> (value: Option<FacetOriginalValue>)
    ensures
        match value {
            Some(v) => classified(*key) == Some(v@),
            None => classified(*key) is None,
        },
{
    match key {
        RawFacetKey::Text(s) => Some(FacetOriginalValue::String(s.clone())),
        RawFacetKey::Number(Some(n)) => Some(FacetOriginalValue::Int(*n)),
        RawFacetKey::Number(None) => Some(FacetOriginalValue::Int(0)),
        RawFacetKey::Other => None,
    }
}

/// Whether every bucket of `rows` holds a string or a number.
pub open spec fn all_classified(rows: Seq<RawFacetBucket>) -> bool {
    forall|i: int| 0 <= i < rows.len() ==> classified((#[trigger] rows[i]).key) is Some
}

/// Whether some bucket of `rows` holds the value `value`.
pub open spec fn listed(rows: Seq<RawFacetBucket>, value: FacetValue) -> bool {
    exists|i: int| 0 <= i < rows.len() && classified((#[trigger] rows[i]).key) == Some(value)
}

/// The highest count among the buckets of `rows` that hold `value`, or zero
/// where none holds it.
pub open spec fn best_count(rows: Seq<RawFacetBucket>, value: FacetValue) -> nat
    decreases rows.len(),
{
    if rows.len() == 0 {
        0
    } else {
        let before = best_count(rows.drop_last(), value);
        let last = rows.last();
        if classified(last.key) == Some(value) && last.doc_count > before {
            last.doc_count as nat
        } else {
            before
        }
    }
}

/// The display strings that are known for integer values, as plain values.
pub open spec fn terms_view(terms: Seq<(u64, String)>) -> Seq<(nat, Seq<char>)> {
    terms.map_values(|t: (u64, String)| (t.0 as nat, t.1@))
}

/// The display string that `terms` gives for `id`: that of the last pair
/// with this id.
pub open spec fn term_of(terms: Seq<(nat, Seq<char>)>, id: nat) -> Option<Seq<char>>
    decreases terms.len(),
{
    if terms.len() == 0 {
        None
    } else if terms.last().0 == id {
        Some(terms.last().1)
    } else {
        term_of(terms.drop_last(), id)
    }
}

/// The display string of a value by itself: a string as it is, an integer
/// in decimal.
pub open spec fn own_display(value: FacetValue) -> Seq<char> {
    match value {
        FacetValue::Text(s) => s,
        FacetValue::Number(n) => decimal_digits(n),
    }
}

/// The display string of a value that the backend reports: for an integer
/// the string that `terms` gives for it, where it gives one; else the
/// value's own.
pub open spec fn display_of(value: FacetValue, terms: Option<Seq<(nat, Seq<char>)>>) -> Seq<char> {
    match (value, terms) {
        (FacetValue::Number(n), Some(t)) => match term_of(t, n) {
            Some(name) => name,
            None => own_display(value),
        },
        _ => own_display(value),
    }
}

/// `text` between double quotes, with the characters escaped that Rust
/// escapes when it prints a string for debugging.
pub uninterp spec fn debug_text(text: Seq<char>) -> Seq<char>;

/// Prints `text` for debugging with the `{:?}` format of `str`, whose
/// result depends on the text alone.
#[verifier::external_body]
fn debug_quote(text: &str) -> (out: String)
    ensures
        out@ == debug_text(text@),
{
    format!("{:?}", text)
}

/// A value as it is printed for debugging: the name of its kind, and in
/// brackets the quoted string or the integer in decimal.
pub open spec fn debug_form(value: FacetValue) -> Seq<char> {
    match value {
        FacetValue::Text(s) => "String("@ + debug_text(s) + ")"@,
        FacetValue::Number(n) => "Int("@ + decimal_digits(n) + ")"@,
    }
}

/// The display string of a value that is selected but not reported: it
/// says that the value is missing and names it.
pub open spec fn missing_display(value: FacetValue) -> Seq<char> {
    "Missing: "@ + debug_form(value)
}

/// The entry of a value that is selected but not reported: it counts no
/// documents and shows the value as missing.
pub open spec fn absent_item(value: FacetValue) -> FacetItemModel {
    FacetItemModel { display_string: missing_display(value), original_value: value, count: 0 }
}

/// The entry that a facet holds for `value`: with the highest count that
/// the backend reports for it, or with count zero where the backend does
/// not report it.
pub open spec fn expected_item(
    rows: Seq<RawFacetBucket>,
    terms: Option<Seq<(nat, Seq<char>)>>,
    value: FacetValue,
) -> FacetItemModel {
    if listed(rows, value) {
        FacetItemModel {
            display_string: display_of(value, terms),
            original_value: value,
            count: best_count(rows, value),
        }
    } else {
        absent_item(value)
    }
}

/// Whether `a` stands before `b` in a facet: the higher count first, among
/// equal counts the smaller display string, among equal display strings
/// the smaller value.
pub open spec fn facet_lt(a: FacetItemModel, b: FacetItemModel) -> bool {
    ||| a.count > b.count
    ||| a.count == b.count && text_lt(a.display_string, b.display_string)
    ||| a.count == b.count && a.display_string == b.display_string && value_lt(
        a.original_value,
        b.original_value,
    )
}

/// Whether `items` holds an entry for `value`.
pub open spec fn has_value(items: Seq<FacetItemModel>, value: FacetValue) -> bool {
    exists|k: int| 0 <= k < items.len() && (#[trigger] items[k]).original_value == value
}

/// Whether no two entries of `items` hold the same value.
pub open spec fn distinct_values(items: Seq<FacetItemModel>) -> bool {
    forall|i: int, j: int|
        0 <= i < j < items.len() ==> (#[trigger] items[i]).original_value != (
        #[trigger] items[j]).original_value
}

/// Whether `items` stand in the order of a facet.
pub open spec fn facet_sorted(items: Seq<FacetItemModel>) -> bool {
    forall|i: int, j: int| 0 <= i < j < items.len() ==> facet_lt(items[i], items[j])
}

/// Whether `items` is the facet for the buckets `rows` and the selection
/// `chosen`: it holds one entry for each value that is reported or
/// selected, and no other; each entry is the expected one; the entries are
/// in order.
pub open spec fn reconciled(
    items: Seq<FacetItemModel>,
    rows: Seq<RawFacetBucket>,
    chosen: Set<FacetValue>,
    terms: Option<Seq<(nat, Seq<char>)>>,
) -> bool {
    &&& facet_sorted(items)
    &&& distinct_values(items)
    &&& forall|v: FacetValue| has_value(items, v) <==> (listed(rows, v) || chosen.contains(v))
    &&& forall|k: int|
        0 <= k < items.len() ==> #[trigger] items[k] == expected_item(
            rows,
            terms,
            items[k].original_value,
        )
}

/// The display string that `terms` gives for `id`.
pub fn term_for(terms: &Vec<(u64, String)>, id: u64) -> (name: Option<String>)
    ensures
        match name {
            Some(n) => term_of(terms_view(terms@), id as nat) == Some(n@),
            None => term_of(terms_view(terms@), id as nat) is None,
        },
{
    let ghost all = terms_view(terms@);
    let mut k: usize = terms.len();
    proof {
        assert(all.take(k as int) =~= all);
    }
    while k > 0
        invariant
            k <= terms.len(),
            all == terms_view(terms@),
            term_of(all, id as nat) == term_of(all.take(k as int), id as nat),
        decreases k,
    {
        proof {
            assert(all.take(k as int).last() == (terms@[k - 1].0 as nat, terms@[k - 1].1@));
            assert(all.take(k as int).drop_last() =~= all.take(k - 1));
        }
        if terms[k - 1].0 == id {
            return Some(terms[k - 1].1.clone());
        }
        k -= 1;
    }
    None
}

/// The display string of `value` by itself.
pub fn own_display_string(value: &FacetOriginalValue) -> (display: String)
    ensures
        display@ == own_display(value@),
{
    match value {
        FacetOriginalValue::String(s) => s.clone(),
        FacetOriginalValue::Int(n) => {
            let mut display = String::new();
            push_decimal(&mut display, *n);
            assert(display@ =~= decimal_digits(*n as nat));
            display
        },
    }
}

/// The display string of a value that is selected but not reported.
pub fn missing_display_string(value: &FacetOriginalValue) -> (display: String)
    ensures
        display@ == missing_display(value@),
{
    let mut display = String::from_str("Missing: ");
    match value {
        FacetOriginalValue::String(s) => {
            let quoted = debug_quote(s.as_str());
            display.append("String(");
            display.append(quoted.as_str());
            display.append(")");
            assert(display@ =~= "Missing: "@ + ("String("@ + debug_text(s@) + ")"@));
        },
        FacetOriginalValue::Int(n) => {
            display.append("Int(");
            push_decimal(&mut display, *n);
            display.append(")");
            assert(display@ =~= "Missing: "@ + ("Int("@ + decimal_digits(*n as nat) + ")"@));
        },
    }
    display
}

/// The models of optional display strings for integer values.
pub open spec fn optional_terms(terms: Option<&Vec<(u64, String)>>) -> Option<
    Seq<(nat, Seq<char>)>,
> {
    match terms {
        Some(t) => Some(terms_view(t@)),
        None => None,
    }
}

/// The display string of a value that the backend reports.
pub fn display_string(value: &FacetOriginalValue, terms: Option<&Vec<(u64, String)>>) -> (display:
    String)
    ensures
        display@ == display_of(value@, optional_terms(terms)),
{
    match (value, terms) {
        (FacetOriginalValue::Int(n), Some(t)) => match term_for(t, *n) {
            Some(name) => name,
            None => own_display_string(value),
        },
        _ => own_display_string(value),
    }
}

/// Tests whether `a` stands before `b` in a facet.
pub fn facet_less(a: &SearchResultFacetItem, b: &SearchResultFacetItem) -> (less: bool)
    ensures
        less == facet_lt(a@, b@),
{
    if a.count != b.count {
        return a.count > b.count;
    }
    if same_text(a.display_string.as_str(), b.display_string.as_str()) {
        proof {
            lemma_text_lt_irreflexive(a.display_string@, 0);
        }
        return a.original_value.before(&b.original_value);
    }
    text_less(&to_chars(a.display_string.as_str()), &to_chars(b.display_string.as_str()))
}

/// The place of the entry for `value` among `items`.
fn find_value(items: &Vec<SearchResultFacetItem>, value: &FacetOriginalValue) -> (place: Option<
    usize,
>)
    ensures
        match place {
            Some(j) => j < items@.len() && items@[j as int].original_value@ == value@,
            None => !has_value(facet_items_view(items@), value@),
        },
{
    let mut j: usize = 0;
    while j < items.len()
        invariant
            j <= items.len(),
            forall|k: int| 0 <= k < j ==> (#[trigger] items@[k]).original_value@ != value@,
        decreases items.len() - j,
    {
        if items[j].original_value.same_as(value) {
            return Some(j);
        }
        j += 1;
    }
    proof {
        let view = facet_items_view(items@);
        assert forall|k: int| 0 <= k < view.len() implies (#[trigger] view[k]).original_value
            != value@ by {
            assert(view[k] == items@[k]@);
        }
    }
    None
}

/// Whether `items` holds exactly one entry for each value that is reported
/// or selected, each the expected one, in any order.
pub open spec fn gathered(
    items: Seq<FacetItemModel>,
    rows: Seq<RawFacetBucket>,
    chosen: Set<FacetValue>,
    terms: Option<Seq<(nat, Seq<char>)>>,
) -> bool {
    &&& distinct_values(items)
    &&& forall|v: FacetValue| has_value(items, v) <==> (listed(rows, v) || chosen.contains(v))
    &&& forall|k: int|
        0 <= k < items.len() ==> #[trigger] items[k] == expected_item(
            rows,
            terms,
            items[k].original_value,
        )
}

/// A value that no bucket holds has no count.
proof fn lemma_unlisted_count(rows: Seq<RawFacetBucket>, value: FacetValue)
    requires
        !listed(rows, value),
    ensures
        best_count(rows, value) == 0,
    decreases rows.len(),
{
    if rows.len() > 0 {
        assert(classified(rows[rows.len() - 1].key) != Some(value));
        assert forall|i: int| 0 <= i < rows.len() - 1 implies classified(
            (#[trigger] rows.drop_last()[i]).key,
        ) != Some(value) by {
            assert(rows.drop_last()[i] == rows[i]);
        }
        lemma_unlisted_count(rows.drop_last(), value);
    }
}

/// What one more bucket adds to the values that are listed.
proof fn lemma_listed_step(rows: Seq<RawFacetBucket>, k: int, value: FacetValue)
    requires
        0 <= k < rows.len(),
    ensures
        listed(rows.take(k + 1), value) <==> (listed(rows.take(k), value) || classified(
            rows[k].key,
        ) == Some(value)),
{
    let more = rows.take(k + 1);
    let less = rows.take(k);
    if listed(more, value) {
        let i = choose|i: int|
            0 <= i < more.len() && classified((#[trigger] more[i]).key) == Some(value);
        if i < k {
            assert(less[i] == more[i]);
        }
    }
    if listed(less, value) {
        let i = choose|i: int|
            0 <= i < less.len() && classified((#[trigger] less[i]).key) == Some(value);
        assert(more[i] == less[i]);
    }
    if classified(rows[k].key) == Some(value) {
        assert(more[k] == rows[k]);
    }
}

/// What one more bucket does to the expected entry of a value.
proof fn lemma_expected_step(
    rows: Seq<RawFacetBucket>,
    k: int,
    terms: Option<Seq<(nat, Seq<char>)>>,
    value: FacetValue,
)
    requires
        0 <= k < rows.len(),
    ensures
        classified(rows[k].key) != Some(value) ==> expected_item(rows.take(k + 1), terms, value)
            == expected_item(rows.take(k), terms, value),
        classified(rows[k].key) == Some(value) ==> expected_item(rows.take(k + 1), terms, value)
            == (FacetItemModel {
            display_string: display_of(value, terms),
            original_value: value,
            count: if rows[k].doc_count > best_count(rows.take(k), value) {
                rows[k].doc_count as nat
            } else {
                best_count(rows.take(k), value)
            },
        }),
{
    lemma_listed_step(rows, k, value);
    assert(rows.take(k + 1).drop_last() =~= rows.take(k));
    assert(rows.take(k + 1).last() == rows[k]);
}

/// Gathers the buckets of the backend's answer into facet entries: one
/// entry for each value, with the highest count that is reported for it.
///
/// Fails where a bucket holds a value that is neither a string nor a
/// number.
pub fn collect_buckets(rows: &Vec<RawFacetBucket>, terms: Option<&Vec<(u64, String)>>) -> (outcome:
    Result<Vec<SearchResultFacetItem>, FacetError>)
    ensures
        match outcome {
            Ok(items) => all_classified(rows@) && gathered(
                facet_items_view(items@),
                rows@,
                Set::empty(),
                optional_terms(terms),
            ),
            Err(_) => !all_classified(rows@),
        },
{
    let ghost names = optional_terms(terms);
    let ghost none = Set::<FacetValue>::empty();
    let mut items: Vec<SearchResultFacetItem> = Vec::new();
    let mut k: usize = 0;
    proof {
        assert(facet_items_view(items@) =~= Seq::<FacetItemModel>::empty());
    }
    while k < rows.len()
        invariant
            k <= rows.len(),
            names == optional_terms(terms),
            none == Set::<FacetValue>::empty(),
            all_classified(rows@.take(k as int)),
            gathered(facet_items_view(items@), rows@.take(k as int), none, names),
        decreases rows.len() - k,
    {
        let ghost seen = rows@.take(k as int);
        let ghost more = rows@.take(k + 1);
        let ghost before = facet_items_view(items@);
        let value = match classify(&rows[k].key) {
            Some(v) => v,
            None => {
                return Err(FacetError::UnexpectedValueType);
            },
        };
        let ghost v = value@;
        let count = rows[k].doc_count;
        proof {
            assert forall|i: int| 0 <= i < more.len() implies classified(
                (#[trigger] more[i]).key,
            ) is Some by {
                if i < k {
                    assert(more[i] == seen[i]);
                }
            }
            assert forall|w: FacetValue| true implies (listed(more, w) <==> (listed(seen, w) || w
                == v)) by {
                lemma_listed_step(rows@, k as int, w);
            }
        }
        match find_value(&items, &value) {
            Some(j) => {
                proof {
                    assert(before[j as int] == items@[j as int]@);
                    assert(has_value(before, v));
                    lemma_expected_step(rows@, k as int, names, v);
                }
                if count > items[j].count {
                    items[j].count = count;
                }
                proof {
                    let after = facet_items_view(items@);
                    assert(after.len() == before.len());
                    assert forall|i: int| 0 <= i < after.len() implies (#[trigger] after[i])
                        == expected_item(more, names, after[i].original_value) && after[i].original_value
                        == before[i].original_value by {
                        assert(after[i] == items@[i]@);
                        if i != j {
                            assert(after[i] == before[i]);
                            assert(before[i].original_value != before[j as int].original_value);
                            lemma_expected_step(rows@, k as int, names, after[i].original_value);
                        }
                    }
                    assert forall|w: FacetValue| has_value(after, w) <==> has_value(before, w) by {
                        if has_value(after, w) {
                            let i = choose|i: int|
                                0 <= i < after.len() && (#[trigger] after[i]).original_value == w;
                            assert(before[i].original_value == w);
                        }
                        if has_value(before, w) {
                            let i = choose|i: int|
                                0 <= i < before.len() && (#[trigger] before[i]).original_value
                                    == w;
                            assert(after[i].original_value == w);
                        }
                    }
                    assert(distinct_values(after)) by {
                        assert forall|a: int, b: int| 0 <= a < b < after.len() implies (
                        #[trigger] after[a]).original_value != (
                        #[trigger] after[b]).original_value by {
                            assert(before[a].original_value != before[b].original_value);
                        }
                    }
                }
            },
            None => {
                let display = display_string(&value, terms);
                items.push(SearchResultFacetItem { display_string: display, original_value: value, count });
                proof {
                    let after = facet_items_view(items@);
                    let fresh = after[before.len() as int];
                    assert(after =~= before.push(fresh));
                    assert(fresh.original_value == v);
                    assert(!listed(seen, v));
                    lemma_unlisted_count(seen, v);
                    lemma_expected_step(rows@, k as int, names, v);
                    assert forall|i: int| 0 <= i < after.len() implies (#[trigger] after[i])
                        == expected_item(more, names, after[i].original_value) by {
                        if i < before.len() {
                            assert(after[i] == before[i]);
                            assert(has_value(before, before[i].original_value));
                            lemma_expected_step(rows@, k as int, names, after[i].original_value);
                        }
                    }
                    assert forall|w: FacetValue| has_value(after, w) <==> (has_value(before, w)
                        || w == v) by {
                        if has_value(after, w) {
                            let i = choose|i: int|
                                0 <= i < after.len() && (#[trigger] after[i]).original_value == w;
                            if i < before.len() {
                                assert(before[i].original_value == w);
                            }
                        }
                        if has_value(before, w) {
                            let i = choose|i: int|
                                0 <= i < before.len() && (#[trigger] before[i]).original_value
                                    == w;
                            assert(after[i].original_value == w);
                        }
                        if w == v {
                            assert(after[before.len() as int].original_value == w);
                        }
                    }
                    assert(distinct_values(after)) by {
                        assert forall|a: int, b: int| 0 <= a < b < after.len() implies (
                        #[trigger] after[a]).original_value != (
                        #[trigger] after[b]).original_value by {
                            assert(after[a] == before[a]);
                            if b < before.len() {
                                assert(after[b] == before[b]);
                            } else {
                                assert(has_value(before, before[a].original_value));
                            }
                        }
                    }
                }
            },
        }
        k += 1;
    }
    proof {
        assert(rows@.take(rows.len() as int) =~= rows@);
    }
    Ok(items)
}

/// No entry stands before itself.
pub proof fn lemma_facet_lt_irreflexive(a: FacetItemModel)
    ensures
        !facet_lt(a, a),
{
    lemma_text_lt_irreflexive(a.display_string, 0);
    lemma_value_lt_irreflexive(a.original_value);
}

/// The order of a facet is transitive.
pub proof fn lemma_facet_lt_transitive(a: FacetItemModel, b: FacetItemModel, c: FacetItemModel)
    requires
        facet_lt(a, b),
        facet_lt(b, c),
    ensures
        facet_lt(a, c),
{
    if a.count == b.count && b.count == c.count {
        lemma_text_lt_irreflexive(a.display_string, 0);
        if text_lt(a.display_string, b.display_string) && text_lt(
            b.display_string,
            c.display_string,
        ) {
            lemma_text_lt_transitive(a.display_string, b.display_string, c.display_string, 0);
        } else if a.display_string == b.display_string && b.display_string == c.display_string {
            lemma_value_lt_transitive(a.original_value, b.original_value, c.original_value);
        }
    }
}

/// Of two entries for different values one stands before the other.
pub proof fn lemma_facet_lt_total(a: FacetItemModel, b: FacetItemModel)
    requires
        a.original_value != b.original_value,
        !facet_lt(a, b),
    ensures
        facet_lt(b, a),
{
    if a.count == b.count {
        if a.display_string == b.display_string {
            if !value_lt(b.original_value, a.original_value) {
                lemma_value_lt_total(a.original_value, b.original_value);
            }
        } else if !text_lt(b.display_string, a.display_string) {
            assert(a.display_string.take(0) =~= b.display_string.take(0));
            lemma_text_lt_total(a.display_string, b.display_string, 0);
        }
    }
}

/// Puts `item` at its place among the sorted `items`.
fn insert_sorted(items: &mut Vec<SearchResultFacetItem>, item: SearchResultFacetItem)
    requires
        facet_sorted(facet_items_view(old(items)@)),
        !has_value(facet_items_view(old(items)@), item@.original_value),
    ensures
        facet_sorted(facet_items_view(final(items)@)),
        final(items)@.len() == old(items)@.len() + 1,
        forall|x: FacetItemModel|
            facet_items_view(final(items)@).contains(x) <==> (facet_items_view(
                old(items)@,
            ).contains(x) || x == item@),
{
    let ghost given = facet_items_view(items@);
    let ghost it = item@;
    let mut p: usize = 0;
    while p < items.len() && facet_less(&items[p], &item)
        invariant
            p <= items.len(),
            items@ == old(items)@,
            given == facet_items_view(items@),
            it == item@,
            forall|k: int| 0 <= k < p ==> facet_lt(#[trigger] given[k], it),
        decreases items.len() - p,
    {
        assert(given[p as int] == items@[p as int]@);
        p += 1;
    }
    proof {
        if p < items.len() {
            assert(given[p as int] == items@[p as int]@);
        }
    }
    items.insert(p, item);
    proof {
        let after = facet_items_view(items@);
        assert(after =~= given.insert(p as int, it));
        assert forall|k: int| p <= k < given.len() implies facet_lt(it, #[trigger] given[k]) by {
            assert(given[p as int].original_value != it.original_value);
            lemma_facet_lt_total(given[p as int], it);
            if k > p {
                assert(facet_lt(given[p as int], given[k]));
                lemma_facet_lt_transitive(it, given[p as int], given[k]);
            }
        }
        assert forall|i: int, j: int| 0 <= i < j < after.len() implies facet_lt(
            after[i],
            after[j],
        ) by {
            let a = if i < p { i } else { i - 1 };
            let b = if j < p { j } else { j - 1 };
            if i != p && j != p {
                assert(after[i] == given[a] && after[j] == given[b]);
            } else if i == p {
                assert(after[j] == given[b]);
            } else {
                assert(after[i] == given[a]);
            }
        }
        assert forall|x: FacetItemModel| after.contains(x) <==> (given.contains(x) || x == it) by {
            if after.contains(x) {
                let k = choose|k: int| 0 <= k < after.len() && after[k] == x;
                if k < p {
                    assert(given[k] == x);
                } else if k > p {
                    assert(given[k - 1] == x);
                }
            }
            if given.contains(x) {
                let k = choose|k: int| 0 <= k < given.len() && given[k] == x;
                if k < p {
                    assert(after[k] == x);
                } else {
                    assert(after[k + 1] == x);
                }
            }
            if x == it {
                assert(after[p as int] == x);
            }
        }
    }
}

/// Puts facet entries in order: the highest count first, equal counts by
/// display string, equal display strings by value.
pub fn sort_facet_items(items: Vec<SearchResultFacetItem>) -> (sorted: Vec<SearchResultFacetItem>)
    requires
        distinct_values(facet_items_view(items@)),
    ensures
        facet_sorted(facet_items_view(sorted@)),
        sorted@.len() == items@.len(),
        forall|x: FacetItemModel|
            facet_items_view(sorted@).contains(x) <==> facet_items_view(items@).contains(x),
{
    let ghost given = facet_items_view(items@);
    let mut rest = items;
    let mut sorted: Vec<SearchResultFacetItem> = Vec::new();
    proof {
        assert(given.take(given.len() as int) =~= given);
    }
    while rest.len() > 0
        invariant
            distinct_values(given),
            rest@.len() <= given.len(),
            facet_items_view(rest@) == given.take(rest@.len() as int),
            facet_sorted(facet_items_view(sorted@)),
            sorted@.len() + rest@.len() == given.len(),
            forall|x: FacetItemModel|
                facet_items_view(sorted@).contains(x) <==> given.skip(rest@.len() as int).contains(
                    x,
                ),
        decreases rest@.len(),
    {
        let ghost n = rest@.len() as int;
        let ghost placed = facet_items_view(sorted@);
        let ghost held = facet_items_view(rest@);
        let item = rest.pop().unwrap();
        proof {
            assert(item@ == held[n - 1]);
            assert(item@ == given[n - 1]);
            assert(facet_items_view(rest@) =~= given.take(n - 1));
            if has_value(placed, item@.original_value) {
                let k = choose|k: int|
                    0 <= k < placed.len() && (#[trigger] placed[k]).original_value
                        == item@.original_value;
                assert(placed.contains(placed[k]));
                let tail = given.skip(n);
                let i = choose|i: int| 0 <= i < tail.len() && tail[i] == placed[k];
                assert(given[n + i].original_value == given[n - 1].original_value);
            }
        }
        insert_sorted(&mut sorted, item);
        proof {
            let after = facet_items_view(sorted@);
            let tail = given.skip(n);
            let longer = given.skip(n - 1);
            assert forall|x: FacetItemModel| after.contains(x) <==> longer.contains(x) by {
                if longer.contains(x) {
                    let i = choose|i: int| 0 <= i < longer.len() && longer[i] == x;
                    if i > 0 {
                        assert(tail[i - 1] == x);
                    }
                }
                if tail.contains(x) {
                    let i = choose|i: int| 0 <= i < tail.len() && tail[i] == x;
                    assert(longer[i + 1] == x);
                }
                if x == given[n - 1] {
                    assert(longer[0] == x);
                }
            }
        }
    }
    proof {
        assert(given.skip(0) =~= given);
    }
    sorted
}

/// Adds an entry without documents for each value of `chosen` that has no
/// entry yet, so that what the caller has selected stays in the list. The
/// entry shows the value as missing.
pub fn reconcile_selected(items: &mut Vec<SearchResultFacetItem>, chosen: &Vec<FacetOriginalValue>)
    requires
        distinct_values(facet_items_view(old(items)@)),
    ensures
        distinct_values(facet_items_view(final(items)@)),
        final(items)@.len() >= old(items)@.len(),
        facet_items_view(final(items)@).take(old(items)@.len() as int) == facet_items_view(
            old(items)@,
        ),
        forall|v: FacetValue|
            has_value(facet_items_view(final(items)@), v) <==> (has_value(
                facet_items_view(old(items)@),
                v,
            ) || values_view(chosen@).contains(v)),
        forall|k: int|
            old(items)@.len() <= k < final(items)@.len() ==> {
                &&& #[trigger] facet_items_view(final(items)@)[k] == absent_item(
                    facet_items_view(final(items)@)[k].original_value,
                )
                &&& !has_value(
                    facet_items_view(old(items)@),
                    facet_items_view(final(items)@)[k].original_value,
                )
            },
{
    let ghost given = facet_items_view(items@);
    let ghost wanted = values_view(chosen@);
    let mut m: usize = 0;
    proof {
        assert(given.take(given.len() as int) =~= given);
        assert(wanted.take(0) =~= Seq::<FacetValue>::empty());
    }
    while m < chosen.len()
        invariant
            m <= chosen.len(),
            given == facet_items_view(old(items)@),
            wanted == values_view(chosen@),
            distinct_values(facet_items_view(items@)),
            items@.len() >= given.len(),
            facet_items_view(items@).take(given.len() as int) == given,
            forall|v: FacetValue|
                has_value(facet_items_view(items@), v) <==> (has_value(given, v) || wanted.take(
                    m as int,
                ).contains(v)),
            forall|k: int|
                given.len() <= k < items@.len() ==> {
                    &&& #[trigger] facet_items_view(items@)[k] == absent_item(
                        facet_items_view(items@)[k].original_value,
                    )
                    &&& !has_value(given, facet_items_view(items@)[k].original_value)
                },
        decreases chosen.len() - m,
    {
        let ghost before = facet_items_view(items@);
        let ghost v = chosen@[m as int]@;
        proof {
            assert(wanted[m as int] == v);
            assert(wanted.take(m + 1) =~= wanted.take(m as int).push(v));
        }
        let place = find_value(items, &chosen[m]);
        if place.is_none() {
            let display = missing_display_string(&chosen[m]);
            items.push(
                SearchResultFacetItem {
                    display_string: display,
                    original_value: chosen[m].duplicate(),
                    count: 0,
                },
            );
            proof {
                let after = facet_items_view(items@);
                let fresh = after[before.len() as int];
                assert(after =~= before.push(fresh));
                assert(fresh == absent_item(v));
                assert(after.take(given.len() as int) =~= before.take(given.len() as int));
                assert forall|w: FacetValue| has_value(after, w) <==> (has_value(before, w) || w
                    == v) by {
                    if has_value(after, w) {
                        let i = choose|i: int|
                            0 <= i < after.len() && (#[trigger] after[i]).original_value == w;
                        if i < before.len() {
                            assert(before[i].original_value == w);
                        }
                    }
                    if has_value(before, w) {
                        let i = choose|i: int|
                            0 <= i < before.len() && (#[trigger] before[i]).original_value == w;
                        assert(after[i].original_value == w);
                    }
                    if w == v {
                        assert(after[before.len() as int].original_value == w);
                    }
                }
                assert forall|w: FacetValue| wanted.take(m + 1).contains(w) <==> (wanted.take(
                    m as int,
                ).contains(w) || w == v) by {
                    let more = wanted.take(m + 1);
                    let less = wanted.take(m as int);
                    if more.contains(w) {
                        let i = choose|i: int| 0 <= i < more.len() && more[i] == w;
                        if i < m {
                            assert(less[i] == w);
                        }
                    }
                    if less.contains(w) {
                        let i = choose|i: int| 0 <= i < less.len() && less[i] == w;
                        assert(more[i] == w);
                    }
                    if w == v {
                        assert(more[m as int] == w);
                    }
                }
                assert(distinct_values(after)) by {
                    assert forall|a: int, b: int| 0 <= a < b < after.len() implies (
                    #[trigger] after[a]).original_value != (#[trigger] after[b]).original_value by {
                        assert(after[a] == before[a]);
                        if b < before.len() {
                            assert(after[b] == before[b]);
                        } else {
                            assert(has_value(before, before[a].original_value));
                        }
                    }
                }
                assert forall|k: int| given.len() <= k < after.len() implies {
                    &&& #[trigger] after[k] == absent_item(after[k].original_value)
                    &&& !has_value(given, after[k].original_value)
                } by {
                    if k < before.len() {
                        assert(after[k] == before[k]);
                    } else {
                        if has_value(given, v) {
                            let i = choose|i: int|
                                0 <= i < given.len() && (#[trigger] given[i]).original_value == v;
                            assert(before.take(given.len() as int)[i] == before[i]);
                            assert(before[i].original_value == v);
                        }
                    }
                }
            }
        } else {
            proof {
                let j = place->Some_0 as int;
                assert(before[j] == items@[j]@);
                assert(has_value(before, v));
                assert forall|w: FacetValue| wanted.take(m + 1).contains(w) <==> (wanted.take(
                    m as int,
                ).contains(w) || w == v) by {
                    let more = wanted.take(m + 1);
                    let less = wanted.take(m as int);
                    if more.contains(w) {
                        let i = choose|i: int| 0 <= i < more.len() && more[i] == w;
                        if i < m {
                            assert(less[i] == w);
                        }
                    }
                    if less.contains(w) {
                        let i = choose|i: int| 0 <= i < less.len() && less[i] == w;
                        assert(more[i] == w);
                    }
                    if w == v {
                        assert(more[m as int] == w);
                    }
                }
            }
        }
        proof {
            let after = facet_items_view(items@);
            assert forall|w: FacetValue| has_value(after, w) <==> (has_value(given, w)
                || wanted.take(m + 1).contains(w)) by {
                assert(has_value(before, w) <==> (has_value(given, w) || wanted.take(
                    m as int,
                ).contains(w)));
                assert(wanted.take(m + 1).contains(w) <==> (wanted.take(m as int).contains(w) || w
                    == v));
                assert(has_value(after, w) <==> (has_value(before, w) || w == v));
            }
        }
        m += 1;
    }
    proof {
        assert(wanted.len() == chosen@.len());
        assert(wanted.take(m as int) =~= wanted);
    }
}

/// The integer values among the buckets: those whose display strings are
/// to be looked up.
pub fn facet_term_ids(rows: &Vec<RawFacetBucket>) -> (ids: Vec<u64>)
    ensures
        forall|n: u64| ids@.contains(n) <==> listed(rows@, FacetValue::Number(n as nat)),
{
    let mut ids: Vec<u64> = Vec::new();
    let mut k: usize = 0;
    while k < rows.len()
        invariant
            k <= rows.len(),
            forall|n: u64|
                ids@.contains(n) <==> listed(rows@.take(k as int), FacetValue::Number(n as nat)),
        decreases rows.len() - k,
    {
        let ghost before = ids@;
        let number = match &rows[k].key {
            RawFacetKey::Number(Some(n)) => Some(*n),
            RawFacetKey::Number(None) => Some(0),
            _ => None,
        };
        if let Some(id) = number {
            ids.push(id);
        }
        proof {
            assert forall|n: u64| ids@.contains(n) <==> listed(
                rows@.take(k + 1),
                FacetValue::Number(n as nat),
            ) by {
                lemma_listed_step(rows@, k as int, FacetValue::Number(n as nat));
                if ids@.contains(n) {
                    let i = choose|i: int| 0 <= i < ids@.len() && ids@[i] == n;
                    if i < before.len() {
                        assert(before[i] == n);
                    }
                }
                if before.contains(n) {
                    let i = choose|i: int| 0 <= i < before.len() && before[i] == n;
                    assert(ids@[i] == n);
                }
                if number == Some(n) {
                    assert(ids@[before.len() as int] == n);
                }
            }
        }
        k += 1;
    }
    proof {
        assert(rows@.take(rows.len() as int) =~= rows@);
    }
    ids
}

/// Makes the facet of `field` for `query` out of the buckets that the
/// backend returned.
///
/// The buckets are those of `query` without its filter on `field`, and the
/// query that the result names is that one. Every value that `query`
/// selects for `field` has an entry; where the backend reports none for it,
/// the entry counts no documents and shows the value as missing. `terms`
/// gives display strings for integer values.
///
/// Fails where a bucket holds a value that is neither a string nor a
/// number.
pub fn aggregate_facet(
    query: SearchQuery,
    field: &str,
    rows: &Vec<RawFacetBucket>,
    terms: Option<&Vec<(u64, String)>>,
) -> (outcome: Result<SearchResultFacets, FacetError>)
    requires
        query.wf(),
    ensures
        match outcome {
            Ok(facets) => {
                &&& all_classified(rows@)
                &&& facets.facet_field@ == field@
                &&& facets.query.query_string == query.query_string
                &&& facets.query.collection_datasets == query.collection_datasets
                &&& facets.query.wf()
                &&& facets.query.facet_filters@ == query.facet_filters@.remove(field@)
                &&& reconciled(
                    facet_items_view(facets.facet_values@),
                    rows@,
                    selected(query.facet_filters@, field@),
                    optional_terms(terms),
                )
            },
            Err(_) => !all_classified(rows@),
        },
{
    let ghost names = optional_terms(terms);
    let ghost wanted = selected(query.facet_filters@, field@);
    let chosen = query.facet_filters.values(field);
    let mut items = match collect_buckets(rows, terms) {
        Ok(items) => items,
        Err(e) => {
            return Err(e);
        },
    };
    let ghost found = facet_items_view(items@);
    reconcile_selected(&mut items, &chosen);
    let ghost all = facet_items_view(items@);
    let sorted = sort_facet_items(items);
    let ghost listing = facet_items_view(sorted@);
    proof {
        assert forall|v: FacetValue| values_view(chosen@).contains(v) <==> wanted.contains(v) by {
            assert(values_view(chosen@).to_set().contains(v) == wanted.contains(v));
        }
        assert forall|i: int| 0 <= i < all.len() implies #[trigger] all[i] == expected_item(
            rows@,
            names,
            all[i].original_value,
        ) by {
            if i < found.len() {
                assert(all.take(found.len() as int)[i] == all[i]);
            } else {
                assert(!has_value(found, all[i].original_value));
            }
        }
        assert forall|v: FacetValue| has_value(listing, v) <==> has_value(all, v) by {
            if has_value(listing, v) {
                let k = choose|k: int|
                    0 <= k < listing.len() && (#[trigger] listing[k]).original_value == v;
                assert(listing.contains(listing[k]));
                let i = choose|i: int| 0 <= i < all.len() && all[i] == listing[k];
                assert(all[i].original_value == v);
            }
            if has_value(all, v) {
                let k = choose|k: int|
                    0 <= k < all.len() && (#[trigger] all[k]).original_value == v;
                assert(all.contains(all[k]));
                let i = choose|i: int| 0 <= i < listing.len() && listing[i] == all[k];
                assert(listing[i].original_value == v);
            }
        }
        assert forall|k: int| 0 <= k < listing.len() implies #[trigger] listing[k]
            == expected_item(rows@, names, listing[k].original_value) by {
            assert(listing.contains(listing[k]));
            let i = choose|i: int| 0 <= i < all.len() && all[i] == listing[k];
        }
        assert(distinct_values(listing)) by {
            assert forall|i: int, j: int| 0 <= i < j < listing.len() implies (
            #[trigger] listing[i]).original_value != (#[trigger] listing[j]).original_value by {
                assert(facet_lt(listing[i], listing[j]));
                lemma_facet_lt_irreflexive(listing[i]);
            }
        }
    }
    let mut working = query;
    working.facet_filters.remove(field);
    Ok(SearchResultFacets { query: working, facet_field: String::from_str(field), facet_values: sorted })
}

/// Reconciliation: a value that is selected but no longer reported has
/// exactly one entry in the facet, and that entry counts no documents.
pub proof fn lemma_selected_value_is_kept(
    items: Seq<FacetItemModel>,
    rows: Seq<RawFacetBucket>,
    chosen: Set<FacetValue>,
    terms: Option<Seq<(nat, Seq<char>)>>,
    value: FacetValue,
) -> (k: int)
    requires
        reconciled(items, rows, chosen, terms),
        chosen.contains(value),
        !listed(rows, value),
    ensures
        0 <= k < items.len(),
        items[k] == absent_item(value),
        forall|j: int| 0 <= j < items.len() && (#[trigger] items[j]).original_value == value ==> j == k,
{
    assert(has_value(items, value));
    let k = choose|k: int| 0 <= k < items.len() && (#[trigger] items[k]).original_value == value;
    assert forall|j: int| 0 <= j < items.len() && (#[trigger] items[j]).original_value
        == value implies j == k by {
        if j < k {
            assert(items[j].original_value != items[k].original_value);
        } else if k < j {
            assert(items[k].original_value != items[j].original_value);
        }
    }
    k
}

/// A facet is determined by the buckets, the selection and the display
/// strings: two lists that are both reconciled with them are the same list.
pub proof fn lemma_reconciled_unique(
    a: Seq<FacetItemModel>,
    b: Seq<FacetItemModel>,
    rows: Seq<RawFacetBucket>,
    chosen: Set<FacetValue>,
    terms: Option<Seq<(nat, Seq<char>)>>,
)
    requires
        reconciled(a, rows, chosen, terms),
        reconciled(b, rows, chosen, terms),
    ensures
        a == b,
{
    let order = |x: FacetItemModel, y: FacetItemModel| facet_lt(x, y);
    assert forall|x: FacetItemModel| !#[trigger] precedes(order, x, x) by {
        lemma_facet_lt_irreflexive(x);
    }
    assert forall|x: FacetItemModel, y: FacetItemModel, z: FacetItemModel|
        #[trigger] precedes(order, x, y) && #[trigger] precedes(order, y, z) implies precedes(
        order,
        x,
        z,
    ) by {
        lemma_facet_lt_transitive(x, y, z);
    }
    assert(strictly_sorted(a, order)) by {
        assert forall|i: int, j: int| 0 <= i < j < a.len() implies precedes(order, a[i], a[j]) by {
            assert(facet_lt(a[i], a[j]));
        }
    }
    assert(strictly_sorted(b, order)) by {
        assert forall|i: int, j: int| 0 <= i < j < b.len() implies precedes(order, b[i], b[j]) by {
            assert(facet_lt(b[i], b[j]));
        }
    }
    assert forall|x: FacetItemModel| a.contains(x) <==> b.contains(x) by {
        if a.contains(x) {
            let i = choose|i: int| 0 <= i < a.len() && a[i] == x;
            assert(has_value(a, a[i].original_value));
            assert(has_value(b, x.original_value));
            let j = choose|j: int|
                0 <= j < b.len() && (#[trigger] b[j]).original_value == x.original_value;
            assert(b[j] == x);
        }
        if b.contains(x) {
            let i = choose|i: int| 0 <= i < b.len() && b[i] == x;
            assert(has_value(b, b[i].original_value));
            assert(has_value(a, x.original_value));
            let j = choose|j: int|
                0 <= j < a.len() && (#[trigger] a[j]).original_value == x.original_value;
            assert(a[j] == x);
        }
    }
    lemma_sorted_unique(a, b, order);
}

} // verus!
