use structured_logging::{
    MatchType, SessionError, SessionRegistry, SortingState, StructuredLoggingSession,
    add_data_to_structured_logging_session, add_facet_to_structured_logging_session,
    get_facets_for_structured_logging_session, get_filtered_data_for_structured_logging_session,
    remove_facet_from_structured_logging_session,
    set_facet_match_type_for_structured_logging_session, set_filtered_for_facet_value,
    start_structured_logging_session,
};

fn raw(items: &[&str]) -> Vec<String> {
    items.iter().map(|s| s.to_string()).collect()
}

#[test]
fn started_session_is_known_under_its_id() {
    let mut reg = SessionRegistry::new();
    let id = start_structured_logging_session(&mut reg, &raw(&[r#"{"lvl":"a"}"#, "oops"]));
    assert_eq!(reg.entries.len(), 1);
    let k = reg.locate(&id).unwrap();
    assert_eq!(reg.entries[k].id, id);
    assert_eq!(reg.entries[k].session.data.len(), 2);
    assert!(reg.entries[k].session.facets.is_empty());
}

#[test]
fn session_ids_are_fresh_uuids() {
    let mut reg = SessionRegistry::new();
    let a = start_structured_logging_session(&mut reg, &Vec::new());
    let b = start_structured_logging_session(&mut reg, &Vec::new());
    assert_ne!(a, b);
    assert_eq!(a.len(), 36);
    assert_eq!(a.chars().filter(|c| *c == '-').count(), 4);
    assert_eq!(a.chars().nth(14), Some('4'));
    assert_eq!(reg.entries.len(), 2);
}

#[test]
fn unknown_session_is_reported_as_not_found() {
    let reg = SessionRegistry::new();
    assert_eq!(reg.locate("nobody"), Err(SessionError::SessionNotFound));
}

#[test]
fn install_replaces_the_session_under_a_known_id() {
    let mut reg = SessionRegistry::new();
    let first = reg.install("s".to_string(), StructuredLoggingSession::new(&raw(&["a"])));
    let other = reg.install("t".to_string(), StructuredLoggingSession::new(&raw(&["b", "c"])));
    let again = reg.install("s".to_string(), StructuredLoggingSession::new(&Vec::new()));
    assert_eq!((first, other, again), (0, 1, 0));
    assert_eq!(reg.entries.len(), 2);
    assert_eq!(reg.entries[0].session.data.len(), 0);
    assert_eq!(reg.entries[1].session.data.len(), 2);
}

#[test]
fn operations_on_an_unknown_session_change_nothing() {
    let mut reg = SessionRegistry::new();
    let id = start_structured_logging_session(&mut reg, &raw(&[r#"{"lvl":"a"}"#]));
    add_data_to_structured_logging_session(&mut reg, "nobody", &raw(&["x"]));
    add_facet_to_structured_logging_session(&mut reg, "nobody", "lvl".to_string(), "AND");
    set_facet_match_type_for_structured_logging_session(&mut reg, "nobody", "lvl", "AND");
    remove_facet_from_structured_logging_session(&mut reg, "nobody", "lvl");
    set_filtered_for_facet_value(&mut reg, "nobody", "lvl", "a", true);
    assert!(get_facets_for_structured_logging_session(&reg, "nobody").is_empty());
    let r = get_filtered_data_for_structured_logging_session(&reg, "nobody", "", 0, 10, &Vec::new());
    assert!(r.data.is_empty());
    assert_eq!((r.filtered_total, r.total), (0, 0));
    assert_eq!(reg.entries.len(), 1);
    let k = reg.locate(&id).unwrap();
    assert_eq!(reg.entries[k].session.data.len(), 1);
    assert!(reg.entries[k].session.facets.is_empty());
}

#[test]
fn a_session_lives_through_its_operations() {
    let mut reg = SessionRegistry::new();
    let other = start_structured_logging_session(&mut reg, &raw(&[r#"{"lvl":"z"}"#]));
    let id = start_structured_logging_session(
        &mut reg,
        &raw(&[r#"{"lvl":"a","n":3}"#, r#"{"lvl":"b","n":1}"#, r#"{"lvl":"a","n":2}"#]),
    );
    add_facet_to_structured_logging_session(&mut reg, &id, "lvl".to_string(), "whatever");
    let facets = get_facets_for_structured_logging_session(&reg, &id);
    assert_eq!(facets.len(), 1);
    assert_eq!(facets[0].match_type, MatchType::OR);
    assert_eq!(facets[0].values.len(), 2);

    set_facet_match_type_for_structured_logging_session(&mut reg, &id, "lvl", "AND");
    set_filtered_for_facet_value(&mut reg, &id, "lvl", "a", true);
    let facets = get_facets_for_structured_logging_session(&reg, &id);
    assert_eq!(facets[0].match_type, MatchType::AND);
    assert!(facets[0].values[0].filtered);

    add_data_to_structured_logging_session(&mut reg, &id, &raw(&[r#"{"lvl":"a","n":1}"#, "junk"]));
    let sorting = vec![SortingState { id: "n".to_string(), desc: false }];
    let r = get_filtered_data_for_structured_logging_session(&reg, &id, "", 0, 2, &sorting);
    assert_eq!((r.filtered_total, r.total), (3, 5));
    let got: Vec<String> = r.data.iter().map(|x| x.text.clone()).collect();
    assert_eq!(got, raw(&[r#"{"lvl":"a","n":1}"#, r#"{"lvl":"a","n":2}"#]));

    remove_facet_from_structured_logging_session(&mut reg, &id, "lvl");
    assert!(get_facets_for_structured_logging_session(&reg, &id).is_empty());
    let r = get_filtered_data_for_structured_logging_session(&reg, &id, "", 0, 100, &Vec::new());
    assert_eq!((r.filtered_total, r.total), (5, 5));

    assert!(get_facets_for_structured_logging_session(&reg, &other).is_empty());
    let k = reg.locate(&other).unwrap();
    assert_eq!(reg.entries[k].session.data.len(), 1);
}
