//! Query text for the search backend.
//!
//! A structured query compiles to one text, whatever the order in which its
//! filters were chosen, so that the text can also serve as a cache key.

use crate::search_query::{
    lemma_canonical_unique, values_view, FacetOriginalValue, FacetValue, FilterModel, SearchQuery,
};
use crate::pagination::PageWindow;
use crate::text::{from_chars, replace_all, replaced, to_chars, trim, trimmed};
use vstd::prelude::*;

verus! {

/// The table expression that every search query reads from.
pub const SQL_FROM_CLAUSE: &'static str =
    "\n    FROM doc_text_pages\n    LEFT JOIN doc_metadata\n    ON doc_text_pages.collection_dataset = doc_metadata.collection_dataset\n    AND doc_text_pages.file_hash = doc_metadata.file_hash\n";

/// The options that bound the time a query may take.
pub const SQL_OPTIONS_CLAUSE: &'static str = "OPTION agent_query_timeout=60000,max_query_time=60000";

/// What one character becomes inside a quoted literal: a quote and a
/// backslash are doubled, any other character stands for itself.
pub open spec fn escaped_char(c: char) -> Seq<char> {
    if c == '\'' {
        seq!['\'', '\'']
    } else if c == '\\' {
        seq!['\\', '\\']
    } else {
        seq![c]
    }
}

/// `text` with every character escaped.
pub open spec fn escaped(text: Seq<char>) -> Seq<char>
    decreases text.len(),
{
    if text.len() == 0 {
        Seq::empty()
    } else {
        escaped(text.drop_last()) + escaped_char(text.last())
    }
}

/// `text` as a quoted literal: escaped, between two quotes.
pub open spec fn quoted_data(text: Seq<char>) -> Seq<char> {
    seq!['\''] + escaped(text) + seq!['\'']
}

/// Writes `text` as a quoted literal, with `format_sql_query::QuotedData`.
///
/// Its `Display` writes a quote, then the text with every quote replaced by
/// two quotes and every backslash by two backslashes, then a quote. The
/// contract states exactly that.
#[verifier::external_body]
fn quote_data(text: &str) -> (out: String)
    ensures
        out@ == quoted_data(text@),
{
    format!("{}", format_sql_query::QuotedData(text))
}

/// The decimal digit for `d`.
pub open spec fn digit(d: nat) -> char {
    if d == 0 {
        '0'
    } else if d == 1 {
        '1'
    } else if d == 2 {
        '2'
    } else if d == 3 {
        '3'
    } else if d == 4 {
        '4'
    } else if d == 5 {
        '5'
    } else if d == 6 {
        '6'
    } else if d == 7 {
        '7'
    } else if d == 8 {
        '8'
    } else {
        '9'
    }
}

/// `n` in decimal, without leading zeros.
pub open spec fn decimal_digits(n: nat) -> Seq<char>
    decreases n,
{
    if n < 10 {
        seq![digit(n)]
    } else {
        decimal_digits(n / 10).push(digit(n % 10))
    }
}

/// The digit character for `d`.
fn digit_char(d: u64) -> (c: char)
    requires
        d < 10,
    ensures
        c == digit(d as nat),
{
    if d == 0 {
        '0'
    } else if d == 1 {
        '1'
    } else if d == 2 {
        '2'
    } else if d == 3 {
        '3'
    } else if d == 4 {
        '4'
    } else if d == 5 {
        '5'
    } else if d == 6 {
        '6'
    } else if d == 7 {
        '7'
    } else if d == 8 {
        '8'
    } else {
        '9'
    }
}

/// Appends `n` in decimal to `out`.
pub fn push_decimal(out: &mut String, n: u64)
    ensures
        final(out)@ == old(out)@ + decimal_digits(n as nat),
    decreases n,
{
    if n >= 10 {
        push_decimal(out, n / 10);
    }
    out.push(digit_char(n % 10));
    proof {
        if n >= 10 {
            assert(final(out)@ =~= old(out)@ + decimal_digits((n / 10) as nat).push(
                digit((n % 10) as nat),
            ));
        } else {
            assert(final(out)@ =~= old(out)@ + seq![digit(n as nat)]);
        }
    }
}

/// The free text as the backend is to match it: trimmed, and with every
/// `@` escaped so that it is not read as a field selector.
pub open spec fn match_text(query_string: Seq<char>) -> Seq<char> {
    replaced(trimmed(query_string), seq!['@'], seq!['\\', '@'])
}

/// The clause that matches the free text.
pub open spec fn match_term(query_string: Seq<char>) -> Seq<char> {
    "\n        WHERE MATCH("@ + quoted_data(match_text(query_string)) + ", doc_text_pages)\n    "@
}

/// A value as it stands in query text: a string as a quoted literal, an
/// integer in decimal.
pub open spec fn value_literal(value: FacetValue) -> Seq<char> {
    match value {
        FacetValue::Text(s) => quoted_data(s),
        FacetValue::Number(n) => decimal_digits(n),
    }
}

/// The literals of `values`, separated by a comma and a space.
pub open spec fn value_list(values: Seq<FacetValue>) -> Seq<char>
    decreases values.len(),
{
    if values.len() == 0 {
        Seq::empty()
    } else if values.len() == 1 {
        value_literal(values[0])
    } else {
        value_list(values.drop_last()) + ", "@ + value_literal(values.last())
    }
}

/// The membership clause of one filter.
pub open spec fn filter_term(filter: FilterModel) -> Seq<char> {
    filter.field + " IN ("@ + value_list(filter.values) + ")"@
}

/// The membership clauses of `filters`, each behind the conjunction. A
/// field without values gets no clause.
pub open spec fn filter_terms(filters: Seq<FilterModel>) -> Seq<char>
    decreases filters.len(),
{
    if filters.len() == 0 {
        Seq::empty()
    } else if filters.last().values.len() == 0 {
        filter_terms(filters.drop_last())
    } else {
        filter_terms(filters.drop_last()) + "\n        AND "@ + filter_term(filters.last())
    }
}

/// The condition of a query: the match clause, then one membership clause
/// for each filtered field that has values.
pub open spec fn where_clause(query_string: Seq<char>, filters: Seq<FilterModel>) -> Seq<char> {
    match_term(query_string) + filter_terms(filters)
}

/// The text that `query` compiles to.
pub open spec fn compiled(query: SearchQuery) -> Seq<char> {
    where_clause(query.query_string@, query.facet_filters.model())
}

/// Appends the literal of `value` to `out`.
fn push_value(out: &mut String, value: &FacetOriginalValue)
    ensures
        final(out)@ == old(out)@ + value_literal(value@),
{
    match value {
        FacetOriginalValue::String(s) => {
            let quoted = quote_data(s.as_str());
            out.append(quoted.as_str());
        },
        FacetOriginalValue::Int(n) => {
            push_decimal(out, *n);
        },
    }
}

/// Appends the literals of `values` to `out`, separated by a comma and a
/// space.
fn push_value_list(out: &mut String, values: &Vec<FacetOriginalValue>)
    ensures
        final(out)@ == old(out)@ + value_list(values_view(values@)),
{
    let ghost all = values_view(values@);
    let mut k: usize = 0;
    proof {
        assert(all.take(0) =~= Seq::<FacetValue>::empty());
        assert(out@ + Seq::<char>::empty() =~= out@);
    }
    while k < values.len()
        invariant
            k <= values.len(),
            all == values_view(values@),
            out@ == old(out)@ + value_list(all.take(k as int)),
        decreases values.len() - k,
    {
        let ghost held = out@;
        if k > 0 {
            out.append(", ");
        }
        push_value(out, &values[k]);
        proof {
            let front = all.take(k as int);
            let next = all.take(k + 1);
            assert(next.drop_last() =~= front);
            assert(next.last() == values@[k as int]@);
            if k > 0 {
                assert(out@ =~= old(out)@ + (value_list(front) + ", "@ + value_literal(
                    next.last(),
                )));
            } else {
                assert(front.len() == 0);
                assert(out@ =~= old(out)@ + value_literal(next[0]));
            }
        }
        k += 1;
    }
    proof {
        assert(all.take(values.len() as int) =~= all);
    }
}

/// Compiles `query` into the condition of a backend query.
///
/// The free text is trimmed, its `@` escaped, and matched as a quoted
/// literal. Every filtered field with at least one value adds a membership
/// clause; fields and values come in their fixed order.
pub fn build_sql_where_clause(query: &SearchQuery) -> (sql: String)
    ensures
        sql@ == compiled(*query),
{
    let at: Vec<char> = vec!['@'];
    let escaped_at: Vec<char> = vec!['\\', '@'];
    proof {
        assert(at@ =~= seq!['@']);
        assert(escaped_at@ =~= seq!['\\', '@']);
    }
    let wanted = replace_all(&trim(&to_chars(query.query_string.as_str())), &at, &escaped_at);
    let quoted = quote_data(from_chars(&wanted).as_str());
    let mut sql = String::from_str("\n        WHERE MATCH(");
    sql.append(quoted.as_str());
    sql.append(", doc_text_pages)\n    ");
    let ghost filters = query.facet_filters.model();
    let ghost head = match_term(query.query_string@);
    let n = query.facet_filters.len();
    let mut i: usize = 0;
    proof {
        assert(filters.take(0) =~= Seq::<FilterModel>::empty());
        assert(sql@ =~= head + filter_terms(filters.take(0)));
    }
    while i < n
        invariant
            i <= n,
            n == filters.len(),
            filters == query.facet_filters.model(),
            sql@ == head + filter_terms(filters.take(i as int)),
        decreases n - i,
    {
        let values = query.facet_filters.values_at(i);
        let ghost held = sql@;
        proof {
            assert(filters.take(i + 1).drop_last() =~= filters.take(i as int));
            assert(filters.take(i + 1).last() == filters[i as int]);
        }
        if values.len() > 0 {
            sql.append("\n        AND ");
            sql.append(query.facet_filters.field_at(i).as_str());
            sql.append(" IN (");
            push_value_list(&mut sql, values);
            sql.append(")");
            proof {
                assert(sql@ =~= held + ("\n        AND "@ + filter_term(filters[i as int])));
                assert(sql@ =~= head + (filter_terms(filters.take(i as int)) + "\n        AND "@
                    + filter_term(filters[i as int])));
            }
        }
        i += 1;
    }
    proof {
        assert(filters.take(n as int) =~= filters);
    }
    sql
}

/// Compiling is deterministic: two queries with the same free text whose
/// filters select the same values for the same fields compile to the same
/// text, whatever the order in which the filters were put in.
pub proof fn lemma_compile_deterministic(a: SearchQuery, b: SearchQuery)
    requires
        a.wf(),
        b.wf(),
        a.query_string@ == b.query_string@,
        a.facet_filters@ == b.facet_filters@,
    ensures
        compiled(a) == compiled(b),
{
    lemma_canonical_unique(a.facet_filters.model(), b.facet_filters.model());
}

/// The query that fetches the rows of one result page: the documents that
/// match `query`, with their highlighted snippets, from row `offset` on and at
/// most `limit` of them.
pub open spec fn results_sql_text(query: SearchQuery, limit: nat, offset: nat) -> Seq<char> {
    "\n    SELECT collection_dataset,\n        file_hash,\n        group_concat(page_id) AS page_ids,\n        doc_metadata.filenames as filenames,\n\n        HIGHLIGHT({\n            limit=400,\n            limit_words=100,\n            limit_snippets=1,\n            html_strip_mode=strip,\n            before_match='<hoover4_strong>',\n            after_match='</hoover4_strong>',\n            around=50\n        }, page_text) as highlight_text,\n        HIGHLIGHT({\n            limit=400,\n            limit_words=100,\n            limit_snippets=1,\n            html_strip_mode=strip,\n            before_match='<hoover4_strong>',\n            after_match='</hoover4_strong>',\n            around=50\n        }, filenames) as highlight_filenames,\n\n        doc_metadata.file_types as file_types\n\n    "@
        + SQL_FROM_CLAUSE@
        + "\n\n    "@
        + compiled(query)
        + "\n\n    GROUP BY file_hash\n    LIMIT "@
        + decimal_digits(limit)
        + " OFFSET "@
        + decimal_digits(offset)
        + "\n\n    "@
        + SQL_OPTIONS_CLAUSE@
        + "\n    ;"@
}

/// Writes the query that fetches the rows `window` for `query`.
pub fn search_for_results_sql(query: &SearchQuery, window: PageWindow) -> (sql: String)
    ensures
        sql@ == results_sql_text(*query, window.limit as nat, window.offset as nat),
{
    let mut sql = String::from_str("\n    SELECT collection_dataset,\n        file_hash,\n        group_concat(page_id) AS page_ids,\n        doc_metadata.filenames as filenames,\n\n        HIGHLIGHT({\n            limit=400,\n            limit_words=100,\n            limit_snippets=1,\n            html_strip_mode=strip,\n            before_match='<hoover4_strong>',\n            after_match='</hoover4_strong>',\n            around=50\n        }, page_text) as highlight_text,\n        HIGHLIGHT({\n            limit=400,\n            limit_words=100,\n            limit_snippets=1,\n            html_strip_mode=strip,\n            before_match='<hoover4_strong>',\n            after_match='</hoover4_strong>',\n            around=50\n        }, filenames) as highlight_filenames,\n\n        doc_metadata.file_types as file_types\n\n    ");
    sql.append(SQL_FROM_CLAUSE);
    sql.append("\n\n    ");
    let condition = build_sql_where_clause(query);
    sql.append(condition.as_str());
    sql.append("\n\n    GROUP BY file_hash\n    LIMIT ");
    push_decimal(&mut sql, window.limit);
    sql.append(" OFFSET ");
    push_decimal(&mut sql, window.offset);
    sql.append("\n\n    ");
    sql.append(SQL_OPTIONS_CLAUSE);
    sql.append("\n    ;");
    sql
}

/// The query that counts the documents that match `query`.
pub open spec fn hit_count_sql_text(query: SearchQuery) -> Seq<char> {
    "\n        SELECT count(distinct file_hash) as total_count\n        "@
        + SQL_FROM_CLAUSE@
        + "\n        "@
        + compiled(query)
        + "\n        "@
        + SQL_OPTIONS_CLAUSE@
        + "\n        ;"@
}

/// Writes the query that counts the documents that match `query`.
pub fn search_for_results_hit_count_sql(query: &SearchQuery) -> (sql: String)
    ensures
        sql@ == hit_count_sql_text(*query),
{
    let mut sql = String::from_str("\n        SELECT count(distinct file_hash) as total_count\n        ");
    sql.append(SQL_FROM_CLAUSE);
    sql.append("\n        ");
    let condition = build_sql_where_clause(query);
    sql.append(condition.as_str());
    sql.append("\n        ");
    sql.append(SQL_OPTIONS_CLAUSE);
    sql.append("\n        ;");
    sql
}

/// The query that asks for the buckets of the single-valued field `column`
/// among the documents that match `query`: the 21 values with the most
/// documents, most first.
pub open spec fn string_facet_sql_text(query: SearchQuery, column: Seq<char>) -> Seq<char> {
    "\n        SELECT file_hash\n        "@
        + SQL_FROM_CLAUSE@
        + "\n        "@
        + compiled(query)
        + "\n        LIMIT 0\n\n        "@
        + SQL_OPTIONS_CLAUSE@
        + "\n        \n        FACET "@
        + column
        + " DISTINCT file_hash ORDER BY count(distinct file_hash) DESC LIMIT 21\n        ;"@
}

/// Writes the bucket query for the single-valued field `column`.
pub fn search_string_facet_sql(query: &SearchQuery, column: &str) -> (sql: String)
    ensures
        sql@ == string_facet_sql_text(*query, column@),
{
    let mut sql = String::from_str("\n        SELECT file_hash\n        ");
    sql.append(SQL_FROM_CLAUSE);
    sql.append("\n        ");
    let condition = build_sql_where_clause(query);
    sql.append(condition.as_str());
    sql.append("\n        LIMIT 0\n\n        ");
    sql.append(SQL_OPTIONS_CLAUSE);
    sql.append("\n        \n        FACET ");
    sql.append(column);
    sql.append(" DISTINCT file_hash ORDER BY count(distinct file_hash) DESC LIMIT 21\n        ;");
    sql
}

/// The query that groups the documents that match `query` by the
/// multi-valued field `column`: the 21 values with the most documents, most
/// first.
pub open spec fn mva_facet_sql_text(query: SearchQuery, column: Seq<char>) -> Seq<char> {
    "\n        SELECT groupby() term, count(distinct file_hash) as doc_count\n        "@
        + SQL_FROM_CLAUSE@
        + "\n        "@
        + compiled(query)
        + "\n\n        GROUP BY "@
        + column
        + "\n        ORDER BY doc_count DESC LIMIT 21\n        ;"@
}

/// Writes the group-by query for the multi-valued field `column`.
pub fn search_mva_facet_sql(query: &SearchQuery, column: &str) -> (sql: String)
    ensures
        sql@ == mva_facet_sql_text(*query, column@),
{
    let mut sql = String::from_str("\n        SELECT groupby() term, count(distinct file_hash) as doc_count\n        ");
    sql.append(SQL_FROM_CLAUSE);
    sql.append("\n        ");
    let condition = build_sql_where_clause(query);
    sql.append(condition.as_str());
    sql.append("\n\n        GROUP BY ");
    sql.append(column);
    sql.append("\n        ORDER BY doc_count DESC LIMIT 21\n        ;");
    sql
}

/// The query that fetches the highlighted text of page `page_id` of the
/// text layer `extracted_by` of one document, for the matches of
/// `find_query`.
pub open spec fn document_hits_sql_text(file_hash: Seq<char>, collection_dataset: Seq<char>, extracted_by: Seq<char>, page_id: nat, find_query: Seq<char>) -> Seq<char> {
    "\n            SELECT\n                extracted_by,\n                page_id,\n                highlight({\n                    limit=0,\n                    force_all_words=1,\n                    html_strip_mode=retain,\n                    around=0,\n                    before_match='<hoover4_strong>',\n                    after_match='</hoover4_strong>',\n                    force_snippets=1\n                }) as text\n            FROM doc_text_pages\n            WHERE file_hash = "@
        + quoted_data(file_hash)
        + " AND collection_dataset = "@
        + quoted_data(collection_dataset)
        + " AND extracted_by = "@
        + quoted_data(extracted_by)
        + " AND page_id = "@
        + decimal_digits(page_id)
        + "\n            AND MATCH("@
        + quoted_data(find_query)
        + ")\n            LIMIT 1000\n            "@
        + SQL_OPTIONS_CLAUSE@
        + "\n        "@
}

/// Writes the query for the matches of `find_query` on one page of one
/// text layer of a document.
pub fn search_document_text_for_hits_sql(file_hash: &str, collection_dataset: &str, extracted_by: &str, page_id: u32, find_query: &str) -> (sql: String)
    ensures
        sql@ == document_hits_sql_text(file_hash@, collection_dataset@, extracted_by@, page_id as nat, find_query@),
{
    let mut sql = String::from_str("\n            SELECT\n                extracted_by,\n                page_id,\n                highlight({\n                    limit=0,\n                    force_all_words=1,\n                    html_strip_mode=retain,\n                    around=0,\n                    before_match='<hoover4_strong>',\n                    after_match='</hoover4_strong>',\n                    force_snippets=1\n                }) as text\n            FROM doc_text_pages\n            WHERE file_hash = ");
    let hash = quote_data(file_hash);
    sql.append(hash.as_str());
    sql.append(" AND collection_dataset = ");
    let collection = quote_data(collection_dataset);
    sql.append(collection.as_str());
    sql.append(" AND extracted_by = ");
    let layer = quote_data(extracted_by);
    sql.append(layer.as_str());
    sql.append(" AND page_id = ");
    push_decimal(&mut sql, page_id as u64);
    sql.append("\n            AND MATCH(");
    let wanted = quote_data(find_query);
    sql.append(wanted.as_str());
    sql.append(")\n            LIMIT 1000\n            ");
    sql.append(SQL_OPTIONS_CLAUSE);
    sql.append("\n        ");
    sql
}

/// The query that fetches the highlighted text of every page of every text
/// layer of one document, for the matches of `find_query`.
pub open spec fn document_hit_count_sql_text(file_hash: Seq<char>, collection_dataset: Seq<char>, find_query: Seq<char>) -> Seq<char> {
    "\n        SELECT\n            extracted_by,\n            page_id,\n            highlight({\n                limit=0,\n                force_all_words=1,\n                html_strip_mode=retain,\n                around=0,\n                before_match='<hoover4_strong>',\n                after_match='</hoover4_strong>',\n                force_snippets=1\n            }) as text\n        FROM doc_text_pages\n        WHERE file_hash = "@
        + quoted_data(file_hash)
        + " AND collection_dataset = "@
        + quoted_data(collection_dataset)
        + "\n        AND MATCH("@
        + quoted_data(find_query)
        + ")\n        LIMIT 1000\n        "@
        + SQL_OPTIONS_CLAUSE@
        + "\n    "@
}

/// Writes the query for the matches of `find_query` in all text of a
/// document.
pub fn search_document_text_for_hit_count_sql(file_hash: &str, collection_dataset: &str, find_query: &str) -> (sql: String)
    ensures
        sql@ == document_hit_count_sql_text(file_hash@, collection_dataset@, find_query@),
{
    let mut sql = String::from_str("\n        SELECT\n            extracted_by,\n            page_id,\n            highlight({\n                limit=0,\n                force_all_words=1,\n                html_strip_mode=retain,\n                around=0,\n                before_match='<hoover4_strong>',\n                after_match='</hoover4_strong>',\n                force_snippets=1\n            }) as text\n        FROM doc_text_pages\n        WHERE file_hash = ");
    let hash = quote_data(file_hash);
    sql.append(hash.as_str());
    sql.append(" AND collection_dataset = ");
    let collection = quote_data(collection_dataset);
    sql.append(collection.as_str());
    sql.append("\n        AND MATCH(");
    let wanted = quote_data(find_query);
    sql.append(wanted.as_str());
    sql.append(")\n        LIMIT 1000\n        ");
    sql.append(SQL_OPTIONS_CLAUSE);
    sql.append("\n    ");
    sql
}

/// The query that asks for the values of `column` with their document
/// counts: the group-by shape for a multi-valued field, the bucket shape
/// for any other.
pub open spec fn facet_sql_text(query: SearchQuery, column: Seq<char>, multi_valued: bool) -> Seq<
    char,
> {
    if multi_valued {
        mva_facet_sql_text(query, column)
    } else {
        string_facet_sql_text(query, column)
    }
}

/// Writes the facet query for `column` in the shape that fits the field.
pub fn search_facet_sql(query: &SearchQuery, column: &str, multi_valued: bool) -> (sql: String)
    ensures
        sql@ == facet_sql_text(*query, column@, multi_valued),
{
    if multi_valued {
        search_mva_facet_sql(query, column)
    } else {
        search_string_facet_sql(query, column)
    }
}

/// Prepares the backend query for the facet of `column`.
///
/// A facet counts as if its own filter were not set, so that the caller
/// can widen the selection: the filter on `column` leaves the query, all
/// else of it stays, and the query text is compiled from what is left, in
/// the shape that fits the field. Returns the query that was compiled and
/// its text.
pub fn facet_request(query: SearchQuery, column: &str, multi_valued: bool) -> (out: (
    SearchQuery,
    String,
))
    requires
        query.wf(),
    ensures
        out.0.wf(),
        out.0.query_string == query.query_string,
        out.0.collection_datasets == query.collection_datasets,
        out.0.facet_filters@ == query.facet_filters@.remove(column@),
        out.1@ == facet_sql_text(out.0, column@, multi_valued),
{
    let mut working = query;
    working.facet_filters.remove(column);
    let sql = search_facet_sql(&working, column, multi_valued);
    (working, sql)
}

/// The text that is sent for a facet is the text of the query that the
/// facet names: two well-formed queries with the same free text and the
/// same filters have the same facet query.
pub proof fn lemma_facet_query_text(
    sent: SearchQuery,
    named: SearchQuery,
    column: Seq<char>,
    multi_valued: bool,
)
    requires
        sent.wf(),
        named.wf(),
        sent.query_string@ == named.query_string@,
        sent.facet_filters@ == named.facet_filters@,
    ensures
        facet_sql_text(sent, column, multi_valued) == facet_sql_text(named, column, multi_valued),
{
    lemma_compile_deterministic(sent, named);
}

} // verus!
