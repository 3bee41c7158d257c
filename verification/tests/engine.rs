use structured_logging::facet::{count_occurrences, find_value};
use structured_logging::filter::{
    accepts, facet_mask, filter_records, has_selection, matched_indices, mentions,
};
use structured_logging::json::{Member, classify, number_rank};
use structured_logging::page::apply_offset_and_limit;
use structured_logging::sort::{apply_sorting, order_records, order_values};
use structured_logging::{
    Facet, FacetValue, FieldValue, MatchType, Record, SortingState, StructuredLoggingSession,
    Verdict, update_unique_facet_values_for_logging_session,
};

fn texts(items: &[&str]) -> Vec<String> {
    items.iter().map(|s| s.to_string()).collect()
}

fn records(items: &[&str]) -> Vec<Record> {
    items.iter().map(|s| Record::parse(s)).collect()
}

fn levels() -> StructuredLoggingSession {
    StructuredLoggingSession::new(&texts(&[r#"{"lvl":"a"}"#, r#"{"lvl":"b"}"#, r#"{"lvl":"a"}"#]))
}

fn facet(property: &str, match_type: MatchType, values: &[(&str, bool)]) -> Facet {
    Facet {
        property: property.to_string(),
        match_type,
        values: values
            .iter()
            .map(|(v, f)| FacetValue { value: v.to_string(), filtered: *f, total: 0 })
            .collect(),
    }
}

fn key(id: &str, desc: bool) -> SortingState {
    SortingState { id: id.to_string(), desc }
}

fn page_texts(session: &StructuredLoggingSession, query: &str, offset: u32, limit: u32, sorting: &[SortingState]) -> Vec<String> {
    let sorting: Vec<SortingState> =
        sorting.iter().map(|s| SortingState { id: s.id.clone(), desc: s.desc }).collect();
    session
        .get_filtered_data(query, offset, limit, &sorting)
        .data
        .iter()
        .map(|r| r.text.clone())
        .collect()
}

#[test]
fn parse_keeps_the_text_of_an_object() {
    let r = Record::parse(r#"{"lvl":"a","n":3}"#);
    assert_eq!(r.text, r#"{"lvl":"a","n":3}"#);
    assert_eq!(r.fields.len(), 2);
    assert_eq!(r.text_of("lvl"), Some(&"a".to_string()));
    assert_eq!(r.text_of("n"), None);
    assert_eq!(r.text_of("missing"), None);
}

#[test]
fn parse_falls_back_to_a_plain_string() {
    let r = Record::parse("not json at all {");
    assert_eq!(r.text, "not json at all {");
    assert!(r.fields.is_empty());
}

#[test]
fn parse_of_a_bare_json_string_has_no_members() {
    let r = Record::parse(r#""hello""#);
    assert_eq!(r.text, r#""hello""#);
    assert!(r.fields.is_empty());
}

#[test]
fn parse_reads_each_kind_of_member() {
    let r = Record::parse(r#"{"a":"x","b":1.5,"c":{"k":"v"},"d":[1],"e":null,"f":true}"#);
    assert_eq!(r.fields.len(), 6);
    let at = |k: &str| &r.fields[r.position_of(k).unwrap()].value;
    assert!(matches!(at("a"), FieldValue::Text(s) if s == "x"));
    assert!(matches!(at("b"), FieldValue::Number(n) if *n == number_rank(1.5f64.to_bits())));
    assert!(matches!(at("c"), FieldValue::Nested(s) if s == r#"{"k":"v"}"#));
    assert!(matches!(at("d"), FieldValue::Other));
    assert!(matches!(at("e"), FieldValue::Other));
    assert!(matches!(at("f"), FieldValue::Other));
}

#[test]
fn duplicate_gives_an_equal_record() {
    let r = Record::parse(r#"{"lvl":"a","n":3}"#);
    let d = r.duplicate();
    assert_eq!(d.text, r.text);
    assert_eq!(d.fields.len(), r.fields.len());
    assert_eq!(d.text_of("lvl"), Some(&"a".to_string()));
}

#[test]
fn number_rank_exact_values() {
    assert_eq!(number_rank(0), 0);
    assert_eq!(number_rank(0x8000_0000_0000_0000), 0);
    assert_eq!(number_rank(0x3FF0_0000_0000_0000), 4607182418800017408);
    assert_eq!(number_rank(0xBFF0_0000_0000_0000), -4607182418800017408);
    assert_eq!(number_rank(0x7FFF_FFFF_FFFF_FFFF), i64::MAX);
    assert_eq!(number_rank(0xFFFF_FFFF_FFFF_FFFF), -i64::MAX);
}

#[test]
fn number_rank_orders_as_the_numbers_do() {
    let xs = [-1.0e9f64, -2.5, -1.0, -0.0, 0.0, 1.0e-9, 1.0, 2.5, 10.0, 1.0e300];
    for a in xs.iter() {
        for b in xs.iter() {
            let ra = number_rank(a.to_bits());
            let rb = number_rank(b.to_bits());
            assert_eq!(a.partial_cmp(b).unwrap(), ra.cmp(&rb));
        }
    }
}

#[test]
fn classify_prefers_text_then_number_then_object() {
    assert!(matches!(classify(Some("s".to_string()), None, None), FieldValue::Text(s) if s == "s"));
    assert!(matches!(classify(None, Some(0x3FF0_0000_0000_0000), None), FieldValue::Number(4607182418800017408)));
    assert!(matches!(classify(None, None, Some("{}".to_string())), FieldValue::Nested(s) if s == "{}"));
    assert!(matches!(classify(None, None, None), FieldValue::Other));
    assert!(matches!(classify(Some("s".to_string()), Some(1), Some("{}".to_string())), FieldValue::Text(_)));
}

#[test]
fn match_type_from_name_defaults_to_or() {
    assert_eq!(MatchType::from_name("AND"), MatchType::AND);
    assert_eq!(MatchType::from_name("OR"), MatchType::OR);
    assert_eq!(MatchType::from_name("and"), MatchType::OR);
    assert_eq!(MatchType::from_name(""), MatchType::OR);
    assert_eq!(MatchType::from_name("XOR"), MatchType::OR);
}

#[test]
fn count_occurrences_counts_strings_only() {
    let rs = records(&[r#"{"lvl":"a"}"#, r#"{"lvl":"b"}"#, r#"{"lvl":"a"}"#, r#"{"lvl":1}"#, "a"]);
    assert_eq!(count_occurrences(&rs, "lvl", "a"), 2);
    assert_eq!(count_occurrences(&rs, "lvl", "b"), 1);
    assert_eq!(count_occurrences(&rs, "lvl", "c"), 0);
    assert_eq!(count_occurrences(&rs, "lvl", "1"), 0);
    assert_eq!(count_occurrences(&rs, "other", "a"), 0);
}

#[test]
fn find_value_gives_the_first_entry() {
    let f = facet("lvl", MatchType::OR, &[("a", false), ("b", false), ("a", true)]);
    assert_eq!(find_value(&f.values, "a"), Some(0));
    assert_eq!(find_value(&f.values, "b"), Some(1));
    assert_eq!(find_value(&f.values, "c"), None);
}

#[test]
fn refresh_discovers_values_in_record_order() {
    let rs = records(&[r#"{"lvl":"b"}"#, r#"{"lvl":"a"}"#, r#"{"lvl":"b"}"#, r#"{"lvl":7}"#]);
    let mut f = Facet::new("lvl".to_string(), MatchType::OR);
    f.refresh(&rs);
    let seen: Vec<(String, bool, u32)> =
        f.values.iter().map(|v| (v.value.clone(), v.filtered, v.total)).collect();
    assert_eq!(seen, vec![("b".to_string(), false, 2), ("a".to_string(), false, 1)]);
}

#[test]
fn refresh_keeps_selection_and_stale_entries() {
    let rs = records(&[r#"{"lvl":"a"}"#, r#"{"lvl":"a"}"#]);
    let mut f = facet("lvl", MatchType::AND, &[("gone", true), ("a", true)]);
    f.values[0].total = 9;
    f.refresh(&rs);
    assert_eq!(f.values.len(), 2);
    assert_eq!(f.values[0].value, "gone");
    assert!(f.values[0].filtered);
    assert_eq!(f.values[0].total, 9);
    assert_eq!(f.values[1].value, "a");
    assert!(f.values[1].filtered);
    assert_eq!(f.values[1].total, 2);
    assert_eq!(f.match_type, MatchType::AND);
}

#[test]
fn appending_never_removes_facet_values() {
    let mut s = levels();
    s.add_facet("lvl".to_string(), MatchType::OR);
    s.set_filtered("lvl", "b", true);
    let before: Vec<(String, bool)> =
        s.facets[0].values.iter().map(|v| (v.value.clone(), v.filtered)).collect();
    s.append(&texts(&[r#"{"lvl":"c"}"#, r#"{"lvl":"a"}"#, "plain"]));
    let after: Vec<(String, bool, u32)> =
        s.facets[0].values.iter().map(|v| (v.value.clone(), v.filtered, v.total)).collect();
    assert_eq!(before, vec![("a".to_string(), false), ("b".to_string(), true)]);
    assert_eq!(
        after,
        vec![("a".to_string(), false, 3), ("b".to_string(), true, 1), ("c".to_string(), false, 1)]
    );
    assert_eq!(s.data.len(), 6);
}

#[test]
fn rescan_updates_every_facet() {
    let mut s = StructuredLoggingSession::new(&texts(&[r#"{"lvl":"a","src":"x"}"#, r#"{"lvl":"b"}"#]));
    s.facets.push(Facet::new("lvl".to_string(), MatchType::OR));
    s.facets.push(Facet::new("src".to_string(), MatchType::AND));
    update_unique_facet_values_for_logging_session(&mut s);
    assert_eq!(s.facets[0].values.len(), 2);
    assert_eq!(s.facets[1].values.len(), 1);
    assert_eq!(s.facets[1].values[0].value, "x");
    assert_eq!(s.facets[1].values[0].total, 1);
}

#[test]
fn has_selection_and_accepts() {
    let f = facet("lvl", MatchType::OR, &[("a", true), ("b", false)]);
    let g = facet("lvl", MatchType::OR, &[("a", false)]);
    assert!(has_selection(&f));
    assert!(!has_selection(&g));
    assert!(accepts(&f, &Record::parse(r#"{"lvl":"a"}"#)));
    assert!(!accepts(&f, &Record::parse(r#"{"lvl":"b"}"#)));
    assert!(!accepts(&f, &Record::parse(r#"{"lvl":"A"}"#)));
    assert!(!accepts(&f, &Record::parse(r#"{"other":"a"}"#)));
    assert!(!accepts(&g, &Record::parse(r#"{"lvl":"a"}"#)));
}

#[test]
fn facet_mask_flags_the_match_set() {
    let rs = records(&[r#"{"lvl":"a"}"#, r#"{"lvl":"b"}"#, r#"{"lvl":"a"}"#]);
    let f = facet("lvl", MatchType::OR, &[("a", true), ("b", false)]);
    assert_eq!(facet_mask(&f, &rs), (vec![true, false, true], true));
    let g = facet("lvl", MatchType::OR, &[("z", true)]);
    assert_eq!(facet_mask(&g, &rs), (vec![false, false, false], false));
}

#[test]
fn no_selection_passes_every_record() {
    let rs = records(&[r#"{"lvl":"a"}"#, "plain", r#"{"lvl":"b"}"#]);
    let fs = vec![facet("lvl", MatchType::AND, &[("a", false)])];
    assert_eq!(matched_indices(&fs, &rs), vec![true, true, true]);
    assert_eq!(matched_indices(&Vec::new(), &rs), vec![true, true, true]);
}

#[test]
fn selection_that_matches_nothing_passes_no_record() {
    let rs = records(&[r#"{"lvl":"a"}"#, r#"{"lvl":"b"}"#]);
    let fs = vec![facet("lvl", MatchType::OR, &[("z", true)])];
    assert_eq!(matched_indices(&fs, &rs), vec![false, false]);
}

#[test]
fn or_facets_unite_their_match_sets() {
    let rs = records(&[
        r#"{"lvl":"a","src":"x"}"#,
        r#"{"lvl":"b","src":"y"}"#,
        r#"{"lvl":"c","src":"x"}"#,
        r#"{"lvl":"c","src":"z"}"#,
    ]);
    let fs = vec![
        facet("lvl", MatchType::OR, &[("a", true)]),
        facet("src", MatchType::OR, &[("y", true), ("z", true)]),
    ];
    assert_eq!(matched_indices(&fs, &rs), vec![true, true, false, true]);
}

#[test]
fn and_facets_intersect_their_match_sets() {
    let rs = records(&[
        r#"{"lvl":"a","src":"x"}"#,
        r#"{"lvl":"a","src":"y"}"#,
        r#"{"lvl":"b","src":"x"}"#,
    ]);
    let fs = vec![
        facet("lvl", MatchType::AND, &[("a", true)]),
        facet("src", MatchType::AND, &[("x", true)]),
    ];
    assert_eq!(matched_indices(&fs, &rs), vec![true, false, false]);
}

#[test]
fn mixed_policies_combine_in_catalog_order() {
    let rs = records(&[
        r#"{"p":"1","q":"1","r":"0"}"#,
        r#"{"p":"1","q":"0","r":"1"}"#,
        r#"{"p":"0","q":"1","r":"1"}"#,
        r#"{"p":"0","q":"0","r":"0"}"#,
    ]);
    let p = || facet("p", MatchType::OR, &[("1", true)]);
    let q_and = || facet("q", MatchType::AND, &[("1", true)]);
    let r_or = || facet("r", MatchType::OR, &[("1", true)]);
    assert_eq!(matched_indices(&vec![p(), q_and(), r_or()], &rs), vec![true, true, true, false]);
    assert_eq!(matched_indices(&vec![p(), r_or(), q_and()], &rs), vec![true, false, true, false]);
}

#[test]
fn the_first_facets_policy_does_not_matter() {
    let rs = records(&[r#"{"p":"1","q":"0"}"#, r#"{"p":"0","q":"1"}"#]);
    let first_and = vec![
        facet("p", MatchType::AND, &[("1", true)]),
        facet("q", MatchType::OR, &[("1", true)]),
    ];
    assert_eq!(matched_indices(&first_and, &rs), vec![true, true]);
}

#[test]
fn search_ignores_case_in_query_and_text() {
    let r = Record::parse(r#"{"msg":"Hello World"}"#);
    assert!(mentions(&r, "world"));
    assert!(mentions(&r, "lo wo"));
    assert!(!mentions(&r, "World"));
    assert!(!mentions(&r, "worlds"));
    let rs = vec![r];
    assert_eq!(filter_records(&Vec::new(), &rs, "WORLD"), vec![0]);
    assert_eq!(filter_records(&Vec::new(), &rs, "hello world"), vec![0]);
    assert_eq!(filter_records(&Vec::new(), &rs, "nothing"), Vec::<usize>::new());
}

#[test]
fn search_reads_nested_objects_by_their_serialized_text() {
    let rs = records(&[r#"{"ctx":{"User":"Bob"}}"#, r#"{"ctx":["Bob"]}"#, r#"{"n":42}"#]);
    assert_eq!(filter_records(&Vec::new(), &rs, "bob"), vec![0]);
    assert_eq!(filter_records(&Vec::new(), &rs, "\"user\":"), vec![0]);
    assert_eq!(filter_records(&Vec::new(), &rs, "42"), Vec::<usize>::new());
}

#[test]
fn search_skips_records_that_are_no_objects() {
    let rs = records(&["hello", r#""hello""#, r#"{"m":"hello"}"#, "[\"hello\"]"]);
    assert_eq!(filter_records(&Vec::new(), &rs, "hello"), vec![2]);
    assert_eq!(filter_records(&Vec::new(), &rs, ""), vec![0, 1, 2, 3]);
}

#[test]
fn search_narrows_the_facet_selection() {
    let rs = records(&[
        r#"{"lvl":"a","msg":"disk full"}"#,
        r#"{"lvl":"b","msg":"disk ok"}"#,
        r#"{"lvl":"a","msg":"net down"}"#,
    ]);
    let fs = vec![facet("lvl", MatchType::OR, &[("a", true)])];
    assert_eq!(filter_records(&fs, &rs, "DISK"), vec![0]);
    assert_eq!(filter_records(&fs, &rs, ""), vec![0, 2]);
}

#[test]
fn order_values_by_kind() {
    let t = |s: &str| FieldValue::Text(s.to_string());
    assert_eq!(order_values(&t("a"), &t("b")), Verdict::Before);
    assert_eq!(order_values(&t("b"), &t("a")), Verdict::After);
    assert_eq!(order_values(&t("a"), &t("a")), Verdict::Tie);
    assert_eq!(order_values(&t("a"), &t("ab")), Verdict::Before);
    assert_eq!(order_values(&t(""), &t("a")), Verdict::Before);
    assert_eq!(order_values(&t("B"), &t("a")), Verdict::Before);
    assert_eq!(order_values(&t("z"), &t("\u{e9}")), Verdict::Before);
    assert_eq!(order_values(&FieldValue::Number(1), &FieldValue::Number(2)), Verdict::Before);
    assert_eq!(order_values(&FieldValue::Number(2), &FieldValue::Number(1)), Verdict::After);
    assert_eq!(order_values(&FieldValue::Number(2), &FieldValue::Number(2)), Verdict::Tie);
    assert_eq!(order_values(&t("1"), &FieldValue::Number(2)), Verdict::Tie);
    assert_eq!(order_values(&FieldValue::Other, &FieldValue::Other), Verdict::Tie);
}

#[test]
fn order_records_takes_the_first_key_that_decides() {
    let a = Record::parse(r#"{"x":"same","y":2,"z":"q"}"#);
    let b = Record::parse(r#"{"x":"same","y":10,"z":5}"#);
    assert_eq!(order_records(&a, &b, &vec![key("x", false)]), Verdict::Tie);
    assert_eq!(order_records(&a, &b, &vec![key("x", false), key("y", false)]), Verdict::Before);
    assert_eq!(order_records(&a, &b, &vec![key("x", true), key("y", true)]), Verdict::After);
    assert_eq!(order_records(&a, &b, &vec![key("z", false), key("y", false)]), Verdict::Before);
    assert_eq!(order_records(&a, &b, &vec![key("missing", false)]), Verdict::Tie);
    assert_eq!(order_records(&a, &b, &Vec::new()), Verdict::Tie);
    assert_eq!(order_records(&b, &a, &vec![key("y", false)]), Verdict::After);
}

#[test]
fn sorting_orders_strings_and_numbers() {
    let rs = records(&[
        r#"{"name":"carol","n":10}"#,
        r#"{"name":"alice","n":2.5}"#,
        r#"{"name":"bob","n":-1}"#,
    ]);
    let all = vec![0usize, 1, 2];
    assert_eq!(apply_sorting(&rs, &all, &vec![key("name", false)]), vec![1, 2, 0]);
    assert_eq!(apply_sorting(&rs, &all, &vec![key("name", true)]), vec![0, 2, 1]);
    assert_eq!(apply_sorting(&rs, &all, &vec![key("n", false)]), vec![2, 1, 0]);
    assert_eq!(apply_sorting(&rs, &all, &vec![key("n", true)]), vec![0, 1, 2]);
    assert_eq!(apply_sorting(&rs, &all, &Vec::new()), vec![0, 1, 2]);
}

#[test]
fn sorting_is_stable() {
    let rs = records(&[
        r#"{"k":"b","id":"0"}"#,
        r#"{"k":"a","id":"1"}"#,
        r#"{"k":"b","id":"2"}"#,
        r#"{"k":"a","id":"3"}"#,
        r#"{"id":"4"}"#,
    ]);
    let all = vec![0usize, 1, 2, 3, 4];
    assert_eq!(apply_sorting(&rs, &all, &vec![key("k", false)]), vec![1, 3, 0, 2, 4]);
    assert_eq!(apply_sorting(&rs, &all, &vec![key("nope", false)]), vec![0, 1, 2, 3, 4]);
    assert_eq!(apply_sorting(&rs, &all, &vec![key("k", true)]), vec![0, 2, 1, 3, 4]);
}

#[test]
fn sorting_works_on_a_selection() {
    let rs = records(&[r#"{"k":"c"}"#, r#"{"k":"z"}"#, r#"{"k":"a"}"#, r#"{"k":"b"}"#]);
    let picked = vec![0usize, 2, 3];
    assert_eq!(apply_sorting(&rs, &picked, &vec![key("k", false)]), vec![1, 2, 0]);
}

#[test]
fn page_formula() {
    let data: Vec<usize> = vec![10, 11, 12, 13, 14];
    assert_eq!(apply_offset_and_limit(&data, 0, 2), (vec![10, 11], 5));
    assert_eq!(apply_offset_and_limit(&data, 3, 10), (vec![13, 14], 5));
    assert_eq!(apply_offset_and_limit(&data, 4, 1), (vec![14], 5));
    assert_eq!(apply_offset_and_limit(&data, 5, 1), (vec![], 5));
    assert_eq!(apply_offset_and_limit(&data, 2, 0), (vec![], 5));
    assert_eq!(apply_offset_and_limit(&data, 1, u32::MAX), (vec![11, 12, 13, 14], 5));
    assert_eq!(apply_offset_and_limit(&data, u32::MAX, u32::MAX), (vec![], 5));
    assert_eq!(apply_offset_and_limit(&Vec::new(), 0, 10), (vec![], 0));
}

#[test]
fn one_or_facet_selects_its_value() {
    let mut s = levels();
    s.add_facet("lvl".to_string(), MatchType::OR);
    s.set_filtered("lvl", "a", true);
    assert_eq!(filter_records(&s.facets, &s.data, ""), vec![0, 2]);
    let r = s.get_filtered_data("", 0, 10, &Vec::new());
    assert_eq!(r.filtered_total, 2);
    assert_eq!(r.total, 3);
    let got: Vec<String> = r.data.iter().map(|x| x.text.clone()).collect();
    assert_eq!(got, texts(&[r#"{"lvl":"a"}"#, r#"{"lvl":"a"}"#]));
}

#[test]
fn selected_value_without_a_record_leaves_its_facet_out() {
    let s = levels();
    let fs = vec![
        facet("lvl", MatchType::OR, &[("a", true)]),
        facet("src", MatchType::AND, &[("x", true)]),
    ];
    assert_eq!(facet_mask(&fs[1], &s.data), (vec![false, false, false], false));
    assert_eq!(filter_records(&fs, &s.data, ""), vec![0, 2]);
}

#[test]
fn offset_past_the_end_gives_an_empty_page() {
    let s = levels();
    let r = s.get_filtered_data("", 5, 10, &Vec::new());
    assert!(r.data.is_empty());
    assert_eq!(r.filtered_total, 3);
    assert_eq!(r.total, 3);
}

#[test]
fn totals_do_not_depend_on_the_page() {
    let mut s = levels();
    s.add_facet("lvl".to_string(), MatchType::OR);
    s.set_filtered("lvl", "a", true);
    for (offset, limit) in [(0u32, 0u32), (0, 1), (1, 1), (2, 5), (7, 3)] {
        let r = s.get_filtered_data("", offset, limit, &vec![key("lvl", true)]);
        assert_eq!(r.filtered_total, 2);
        assert_eq!(r.total, 3);
    }
    assert_eq!(s.get_filtered_data("", 1, 1, &Vec::new()).data.len(), 1);
    assert_eq!(s.get_filtered_data("", 2, 5, &Vec::new()).data.len(), 0);
}

#[test]
fn query_filters_sorts_and_pages() {
    let s = StructuredLoggingSession::new(&texts(&[
        r#"{"name":"d","msg":"Keep"}"#,
        r#"{"name":"b","msg":"keep"}"#,
        r#"{"name":"c","msg":"drop"}"#,
        r#"{"name":"a","msg":"KEEP"}"#,
    ]));
    assert_eq!(
        page_texts(&s, "keep", 0, 10, &[key("name", false)]),
        texts(&[
            r#"{"name":"a","msg":"KEEP"}"#,
            r#"{"name":"b","msg":"keep"}"#,
            r#"{"name":"d","msg":"Keep"}"#
        ])
    );
    assert_eq!(
        page_texts(&s, "keep", 1, 1, &[key("name", false)]),
        texts(&[r#"{"name":"b","msg":"keep"}"#])
    );
    assert_eq!(
        page_texts(&s, "keep", 0, 2, &[key("name", true)]),
        texts(&[r#"{"name":"d","msg":"Keep"}"#, r#"{"name":"b","msg":"keep"}"#])
    );
    let r = s.get_filtered_data("keep", 1, 1, &vec![key("name", false)]);
    assert_eq!((r.filtered_total, r.total), (3, 4));
}

#[test]
fn session_starts_without_facets() {
    let s = StructuredLoggingSession::new(&texts(&[r#"{"a":1}"#, "oops"]));
    assert!(s.facets.is_empty());
    assert_eq!(s.data.len(), 2);
    assert_eq!(s.data[0].text, r#"{"a":1}"#);
    assert_eq!(s.data[1].text, "oops");
    assert!(s.get_facets().is_empty());
}

#[test]
fn add_facet_rescans_all_facets() {
    let mut s = levels();
    s.facets.push(Facet::new("lvl".to_string(), MatchType::OR));
    s.add_facet("lvl".to_string(), MatchType::AND);
    assert_eq!(s.facets.len(), 2);
    for f in s.facets.iter() {
        let seen: Vec<(String, u32)> = f.values.iter().map(|v| (v.value.clone(), v.total)).collect();
        assert_eq!(seen, vec![("a".to_string(), 2), ("b".to_string(), 1)]);
    }
    assert_eq!(s.facets[1].match_type, MatchType::AND);
}

#[test]
fn set_match_type_changes_the_first_facet_only() {
    let mut s = levels();
    s.add_facet("lvl".to_string(), MatchType::OR);
    s.add_facet("lvl".to_string(), MatchType::OR);
    s.add_facet("src".to_string(), MatchType::OR);
    s.set_match_type("lvl", MatchType::AND);
    s.set_match_type("missing", MatchType::AND);
    let kinds: Vec<MatchType> = s.facets.iter().map(|f| f.match_type).collect();
    assert_eq!(kinds, vec![MatchType::AND, MatchType::OR, MatchType::OR]);
    assert_eq!(s.facets[0].values.len(), 2);
}

#[test]
fn remove_facet_removes_every_facet_on_the_property() {
    let mut s = levels();
    s.add_facet("lvl".to_string(), MatchType::OR);
    s.add_facet("src".to_string(), MatchType::AND);
    s.add_facet("lvl".to_string(), MatchType::AND);
    s.set_filtered("lvl", "a", true);
    s.remove_facet("lvl");
    assert_eq!(s.facets.len(), 1);
    assert_eq!(s.facets[0].property, "src");
    assert_eq!(s.facets[0].match_type, MatchType::AND);
    s.remove_facet("missing");
    assert_eq!(s.facets.len(), 1);
}

#[test]
fn set_filtered_marks_the_first_entry_of_the_first_facet() {
    let mut s = levels();
    s.add_facet("lvl".to_string(), MatchType::OR);
    s.add_facet("lvl".to_string(), MatchType::OR);
    s.set_filtered("lvl", "b", true);
    s.set_filtered("lvl", "zzz", true);
    s.set_filtered("nope", "a", true);
    let flags = |f: &Facet| -> Vec<bool> { f.values.iter().map(|v| v.filtered).collect() };
    assert_eq!(flags(&s.facets[0]), vec![false, true]);
    assert_eq!(flags(&s.facets[1]), vec![false, false]);
    s.set_filtered("lvl", "b", false);
    assert_eq!(flags(&s.facets[0]), vec![false, false]);
}

#[test]
fn get_facets_is_a_deep_copy() {
    let mut s = levels();
    s.add_facet("lvl".to_string(), MatchType::OR);
    let mut copy = s.get_facets();
    copy[0].values[0].filtered = true;
    copy[0].property.push('!');
    assert_eq!(s.facets[0].property, "lvl");
    assert!(!s.facets[0].values[0].filtered);
    assert_eq!(copy[0].values.len(), 2);
    assert_eq!(copy[0].values[0].total, 2);
}

#[test]
fn from_members_keeps_text_and_member_order() {
    let members = vec![
        Member { key: "b".to_string(), text: Some("x".to_string()), bits: None, nested: None },
        Member { key: "a".to_string(), text: None, bits: Some(0x3FF0_0000_0000_0000), nested: None },
        Member { key: "c".to_string(), text: None, bits: None, nested: Some("{}".to_string()) },
        Member { key: "d".to_string(), text: None, bits: None, nested: None },
    ];
    let r = Record::from_members("raw", Some(members));
    assert_eq!(r.text, "raw");
    let keys: Vec<&str> = r.fields.iter().map(|f| f.key.as_str()).collect();
    assert_eq!(keys, vec!["b", "a", "c", "d"]);
    assert!(matches!(&r.fields[0].value, FieldValue::Text(s) if s == "x"));
    assert!(matches!(&r.fields[1].value, FieldValue::Number(4607182418800017408)));
    assert!(matches!(&r.fields[2].value, FieldValue::Nested(s) if s == "{}"));
    assert!(matches!(&r.fields[3].value, FieldValue::Other));
    let none = Record::from_members("raw", None);
    assert_eq!(none.text, "raw");
    assert!(none.fields.is_empty());
    let empty = Record::from_members("{}", Some(Vec::new()));
    assert!(empty.fields.is_empty());
}

#[test]
fn parse_reads_numbers_by_their_double() {
    let r = Record::parse(r#"{"i":-3,"u":18446744073709551615,"x":1e2}"#);
    let at = |k: &str| &r.fields[r.position_of(k).unwrap()].value;
    assert!(matches!(at("i"), FieldValue::Number(n) if *n == number_rank((-3.0f64).to_bits())));
    assert!(matches!(at("u"), FieldValue::Number(n) if *n == number_rank(18446744073709551615.0f64.to_bits())));
    assert!(matches!(at("x"), FieldValue::Number(n) if *n == number_rank(100.0f64.to_bits())));
}

#[test]
fn position_of_gives_the_first_member_of_that_name() {
    let r = Record::from_members(
        "raw",
        Some(vec![
            Member { key: "k".to_string(), text: Some("first".to_string()), bits: None, nested: None },
            Member { key: "k".to_string(), text: Some("second".to_string()), bits: None, nested: None },
        ]),
    );
    assert_eq!(r.position_of("k"), Some(0));
    assert_eq!(r.position_of("K"), None);
    assert_eq!(r.text_of("k"), Some(&"first".to_string()));
}
