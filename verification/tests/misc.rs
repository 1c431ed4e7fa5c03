use hoover_search::doc_viewer_state::DocViewerState;
use hoover_search::document_metadata::DocumentMetadataTableInfo;
use hoover_search::document_text_sources::{
    document_hit, document_hit_count, document_hit_counts, document_hits, DocumentHits,
};
use hoover_search::download_document::{blob_file_name, blob_source, BlobInfo, BlobSource};
use hoover_search::order::text_less;
use hoover_search::text::{
    contains, from_chars, is_whitespace, replace_all, same_text, split_lines, starts_with_at,
    to_chars, trim,
};
use hoover_search::url_param::{decode_state, encode_state, StateParseError, UrlParam};

fn chars(s: &str) -> Vec<char> {
    s.chars().collect()
}

#[test]
fn characters_round_trip_through_vectors() {
    let s = "a\u{e9}\u{1f600} z";
    assert_eq!(to_chars(s), chars(s));
    assert_eq!(from_chars(&chars(s)), s);
    assert_eq!(to_chars(""), Vec::<char>::new());
}

#[test]
fn replace_takes_matches_from_the_left_without_overlap() {
    assert_eq!(replace_all(&chars("aaaa"), &chars("aa"), &chars("b")), chars("bb"));
    assert_eq!(replace_all(&chars("aaa"), &chars("aa"), &chars("b")), chars("ba"));
    assert_eq!(replace_all(&chars("abc"), &chars(""), &chars("x")), chars("abc"));
    assert_eq!(replace_all(&chars("a.b.c"), &chars("."), &chars("::")), chars("a::b::c"));
    assert_eq!(replace_all(&chars("xyz"), &chars("xyz"), &chars("")), chars(""));
}

#[test]
fn trim_removes_unicode_white_space_at_both_ends() {
    let s = "\u{a0}\t a b \u{3000}\n";
    assert_eq!(from_chars(&trim(&chars(s))), s.trim());
    assert_eq!(trim(&chars(" \n ")), chars(""));
    assert_eq!(trim(&chars("x")), chars("x"));
}

#[test]
fn white_space_is_what_std_says() {
    for code in 0u32..0x3100 {
        if let Some(c) = char::from_u32(code) {
            assert_eq!(is_whitespace(c), c.is_whitespace(), "code {:x}", code);
        }
    }
    assert!(!is_whitespace('\u{feff}'));
}

#[test]
fn search_in_text_finds_patterns() {
    assert!(contains(&chars("hello"), &chars("ll")));
    assert!(contains(&chars("hello"), &chars("")));
    assert!(contains(&chars(""), &chars("")));
    assert!(!contains(&chars("hello"), &chars("lo!")));
    assert!(starts_with_at(&chars("hello"), 3, &chars("lo")));
    assert!(!starts_with_at(&chars("hello"), 4, &chars("lo")));
    assert!(!starts_with_at(&chars("hello"), 9, &chars("")));
    assert!(same_text("abc", "abc"));
    assert!(!same_text("abc", "abd"));
    assert!(!same_text("abc", "ab"));
}

#[test]
fn lines_are_split_at_line_feeds() {
    let split = |s: &str| -> Vec<String> { split_lines(&chars(s)).iter().map(from_chars).collect() };
    assert_eq!(split(""), vec![""]);
    assert_eq!(split("a"), vec!["a"]);
    assert_eq!(split("a\nb"), vec!["a", "b"]);
    assert_eq!(split("a\n\nb\n"), vec!["a", "", "b", ""]);
}

#[test]
fn text_order_is_the_order_of_strings() {
    let samples = ["", "a", "ab", "b", "B", "\u{e9}", "\u{ffff}", "\u{10000}", "a\u{0}"];
    for x in samples {
        for y in samples {
            assert_eq!(text_less(&chars(x), &chars(y)), x < y, "{:?} {:?}", x, y);
        }
    }
}

#[test]
fn document_rows_become_hits_and_counts() {
    let rows = vec![
        DocumentHits {
            extracted_by: "ocr".to_string(),
            page_id: 3,
            text: "a <hoover4_strong>b</hoover4_strong> c <hoover4_strong>d</hoover4_strong>".to_string(),
        },
        DocumentHits { extracted_by: "raw".to_string(), page_id: 0, text: "nothing".to_string() },
    ];
    let hits = document_hits(&rows);
    assert_eq!(hits.len(), 2);
    assert_eq!(hits[0], document_hit(&rows[0]));
    assert_eq!(hits[0].highlight_text_spans.len(), 4);
    assert_eq!(hits[0].highlight_text_spans[3].index, 1);
    let counts = document_hit_counts(&rows);
    assert_eq!(counts[0].hit_count, 2);
    assert_eq!(counts[0].extracted_by, "ocr");
    assert_eq!(counts[0].page_id, 3);
    assert_eq!(counts[1].hit_count, 0);
    assert_eq!(document_hit_count(&hits[1]), counts[1]);
}

#[test]
fn blob_is_read_from_the_store_that_its_flag_names() {
    let mut info = BlobInfo {
        blob_size_bytes: 3,
        s3_path: "s3://hoover4-blobs/ab/cd/ef".to_string(),
        stored_in_clickhouse: false,
    };
    assert_eq!(blob_source(&info), BlobSource::ObjectStore { key: "ab/cd/ef".to_string() });
    info.stored_in_clickhouse = true;
    assert_eq!(blob_source(&info), BlobSource::Database);
}

#[test]
fn file_name_is_the_last_part_of_the_path() {
    assert_eq!(blob_file_name("/a/b/report.pdf"), "report.pdf");
    assert_eq!(blob_file_name("report.pdf"), "report.pdf");
    assert_eq!(blob_file_name("/a/b/"), "");
    assert_eq!(blob_file_name(""), "");
}

#[test]
fn link_state_round_trips_through_base64() {
    let bytes: Vec<u8> = vec![0, 255, 254, 62, 63, 1, 2];
    let text = encode_state(&bytes).unwrap();
    assert_eq!(text, "AP_-Pj8BAg==");
    assert_eq!(decode_state(&text), Ok(bytes));
    assert_eq!(encode_state(&vec![]), Some(String::new()));
    assert_eq!(decode_state(""), Ok(vec![]));
    assert_eq!(decode_state("not base64!"), Err(StateParseError::DecodeError));
    assert_eq!(decode_state("AP+/"), Err(StateParseError::DecodeError));
}

#[test]
fn values_are_wrapped_for_links() {
    assert_eq!(UrlParam::from(5u64), UrlParam(5u64));
    let wrapped: UrlParam<Option<String>> = None.into();
    assert_eq!(wrapped.0, None);
}

#[test]
fn metadata_tables_are_described() {
    let plain = DocumentMetadataTableInfo::new("pdfs", "pdf_hash");
    assert_eq!(plain.table_name, "pdfs");
    assert_eq!(plain.hash_column_name, "pdf_hash");
    assert!(plain.json_columns.is_empty());
    let full = DocumentMetadataTableInfo::new3("emails", "email_hash", vec!["headers".to_string()]);
    assert_eq!(full.json_columns, vec!["headers".to_string()]);
    assert_eq!(full.table_name, "emails");
}

#[test]
fn viewer_opens_on_the_first_page() {
    let state = DocViewerState::from_find_query("needle".to_string());
    assert_eq!(
        state,
        DocViewerState {
            find_query: "needle".to_string(),
            selected_text_extracted_by: None,
            selected_text_page: 0
        }
    );
}
