use cotw_list::date::{parse_date, Date};
use cotw_list::pipeline::process_cotw_list;
use cotw_list::record::{field_name, finish_entry, parse_entry, parse_list, Entry, FieldName, FieldValue, ParseError, RawField};
use cotw_list::render::{table_row, write_cotw_list, CRATES_IO_PREFIX, DOCUMENT_HEADER, TABLE_END};
use cotw_list::validate::{pair_kinds_of, validate_cotw_list, Diagnostic, DiagnosticKind};

fn text(key: &str, value: &str) -> RawField {
    RawField { key: key.to_string(), value: FieldValue::Text(value.to_string()) }
}

fn record(date: &str, id: &str) -> Vec<RawField> {
    vec![text("date", date), text("id", id)]
}

fn entry(date: &str, id: Option<&str>, url: Option<&str>) -> Entry {
    Entry {
        date: parse_date(date).unwrap(),
        id: id.map(|s| s.to_string()),
        url: url.map(|s| s.to_string()),
    }
}

fn diag(kind: DiagnosticKind, date: &str, id: &str) -> Diagnostic {
    Diagnostic { kind, date: date.to_string(), id: Some(id.to_string()) }
}

#[test]
fn round_trip_well_formed_record() {
    let e = parse_entry(&record("2023-01-02", "foo")).unwrap();
    assert_eq!(e.date, Date { year: 2023, month: 1, day: 2 });
    assert_eq!(e.id, Some("foo".to_string()));
    assert_eq!(e.url, None);
    let doc = write_cotw_list(vec![e]);
    let expected = format!(
        "{}| 2023-01-02 | link:https://crates.io/crates/foo[foo]\n\n{}",
        DOCUMENT_HEADER, TABLE_END
    );
    assert_eq!(doc, expected);
}

#[test]
fn explicit_url_preserved() {
    let mut fields = record("2023-01-02", "foo");
    fields.push(text("url", "https://example.com/x"));
    let e = parse_entry(&fields).unwrap();
    assert_eq!(e.url, Some("https://example.com/x".to_string()));
    let doc = write_cotw_list(vec![e]);
    assert!(doc.contains("| 2023-01-02 | link:https://example.com/x[foo]\n"));
    assert!(!doc.contains(CRATES_IO_PREFIX));
}

#[test]
fn entry_without_id_is_skipped() {
    let doc = write_cotw_list(vec![entry("2023-01-02", None, None)]);
    assert_eq!(doc, format!("{}{}", DOCUMENT_HEADER, TABLE_END));
    let doc = write_cotw_list(vec![
        entry("2023-01-02", Some("a"), None),
        entry("2023-01-09", None, None),
        entry("2023-01-16", Some("b"), None),
    ]);
    assert_eq!(doc.matches("| 2023-").count(), 2);
    assert!(!doc.contains("2023-01-09"));
}

#[test]
fn duplicate_date_rejected() {
    let fields = vec![text("date", "2023-01-02"), text("id", "foo"), text("date", "2023-01-03")];
    assert_eq!(parse_entry(&fields), Err(ParseError::DuplicateField(FieldName::Date)));
    let r = process_cotw_list(&vec![fields]);
    assert_eq!(r, Err(ParseError::DuplicateField(FieldName::Date)));
}

#[test]
fn duplicate_id_and_url_rejected() {
    let fields = vec![text("id", "a"), text("id", "b")];
    assert_eq!(parse_entry(&fields), Err(ParseError::DuplicateField(FieldName::Id)));
    let fields = vec![text("url", "a"), text("date", "2023-01-02"), text("url", "b")];
    assert_eq!(parse_entry(&fields), Err(ParseError::DuplicateField(FieldName::Url)));
}

#[test]
fn repeated_nominator_and_note_are_ignored() {
    let mut fields = record("2023-01-02", "foo");
    fields.push(text("nominator", "x"));
    fields.push(text("note", "y"));
    fields.push(text("nominator", "z"));
    let e = parse_entry(&fields).unwrap();
    assert_eq!(e.id, Some("foo".to_string()));
}

#[test]
fn ordering_diagnostics_same_date_then_gap() {
    let list = vec![
        entry("2023-01-01", Some("a"), None),
        entry("2023-01-01", Some("b"), None),
        entry("2023-02-01", Some("c"), None),
    ];
    let ds = validate_cotw_list(&list);
    assert_eq!(
        ds,
        vec![diag(DiagnosticKind::SameDate, "2023-01-01", "b"), diag(DiagnosticKind::Gap, "2023-02-01", "c")]
    );
}

#[test]
fn out_of_order_detected_without_gap() {
    let list = vec![entry("2023-02-01", Some("a"), None), entry("2023-01-01", Some("b"), None)];
    let ds = validate_cotw_list(&list);
    assert_eq!(ds, vec![diag(DiagnosticKind::OutOfOrder, "2023-01-01", "b")]);
    assert!(ds[0].kind.is_error());
}

#[test]
fn weekly_list_has_no_diagnostics() {
    let list = vec![
        entry("2023-01-01", Some("a"), None),
        entry("2023-01-08", Some("b"), None),
        entry("2023-01-21", Some("c"), None),
    ];
    assert_eq!(validate_cotw_list(&list), vec![]);
    assert_eq!(validate_cotw_list(&vec![]), vec![]);
    assert_eq!(validate_cotw_list(&vec![entry("2023-01-01", None, None)]), vec![]);
}

#[test]
fn gap_threshold_is_inclusive() {
    let list = vec![entry("2023-01-01", None, None), entry("2023-01-15", None, None)];
    let ds = validate_cotw_list(&list);
    assert_eq!(ds, vec![Diagnostic { kind: DiagnosticKind::Gap, date: "2023-01-15".to_string(), id: None }]);
    assert!(!ds[0].kind.is_error());
}

#[test]
fn pair_kinds_from_seconds() {
    assert_eq!(pair_kinds_of(true, 0, 0), vec![DiagnosticKind::SameDate]);
    assert_eq!(pair_kinds_of(false, 0, 1209600), vec![DiagnosticKind::Gap]);
    assert_eq!(pair_kinds_of(false, 0, 1209599), vec![]);
    assert_eq!(pair_kinds_of(false, 86400, 0), vec![DiagnosticKind::OutOfOrder]);
    assert_eq!(pair_kinds_of(true, 0, -1), vec![DiagnosticKind::SameDate, DiagnosticKind::OutOfOrder]);
    assert_eq!(pair_kinds_of(false, i64::MAX, i64::MIN), vec![DiagnosticKind::OutOfOrder]);
    assert_eq!(pair_kinds_of(false, i64::MIN, i64::MAX), vec![DiagnosticKind::Gap]);
}

#[test]
fn rendering_is_repeatable() {
    let list = vec![entry("2023-01-02", Some("foo"), None), entry("2023-01-09", Some("bar"), Some("https://b"))];
    let first = write_cotw_list(list.clone());
    let second = write_cotw_list(list);
    assert_eq!(first.as_bytes(), second.as_bytes());
}

#[test]
fn unknown_field_rejected() {
    let mut fields = record("2023-01-02", "foo");
    fields.push(text("nominee", "x"));
    assert_eq!(parse_entry(&fields), Err(ParseError::UnknownField("nominee".to_string())));
    assert_eq!(parse_entry(&vec![text("Date", "2023-01-02")]), Err(ParseError::UnknownField("Date".to_string())));
}

#[test]
fn missing_fields_reported_date_first() {
    assert_eq!(parse_entry(&vec![]), Err(ParseError::MissingField(FieldName::Date)));
    assert_eq!(parse_entry(&vec![text("id", "foo")]), Err(ParseError::MissingField(FieldName::Date)));
    assert_eq!(parse_entry(&vec![text("date", "2023-01-02")]), Err(ParseError::MissingField(FieldName::Id)));
    assert_eq!(
        parse_entry(&vec![text("date", "2023/01/02")]),
        Err(ParseError::InvalidDate("2023/01/02".to_string()))
    );
}

#[test]
fn invalid_date_and_type_rejected() {
    assert_eq!(
        parse_entry(&record("2023-13-01", "foo")),
        Err(ParseError::InvalidDate("2023-13-01".to_string()))
    );
    let fields = vec![RawField { key: "date".to_string(), value: FieldValue::NonText }];
    assert_eq!(parse_entry(&fields), Err(ParseError::InvalidType(FieldName::Date)));
    let fields = vec![text("date", "2023-01-02"), RawField { key: "note".to_string(), value: FieldValue::NonText }];
    assert_eq!(parse_entry(&fields), Err(ParseError::InvalidType(FieldName::Note)));
}

#[test]
fn parse_list_keeps_order_and_stops_at_first_error() {
    let recs = vec![record("2023-01-09", "b"), record("2023-01-02", "a")];
    let list = parse_list(&recs).unwrap();
    assert_eq!(list.len(), 2);
    assert_eq!(list[0].id, Some("b".to_string()));
    assert_eq!(list[1].date, Date { year: 2023, month: 1, day: 2 });
    let recs = vec![record("2023-01-09", "b"), vec![text("x", "1")], vec![text("id", "c")]];
    assert_eq!(parse_list(&recs), Err(ParseError::UnknownField("x".to_string())));
}

#[test]
fn dates_through_time_crate() {
    let d = parse_date("2023-01-02").unwrap();
    assert_eq!(d, Date { year: 2023, month: 1, day: 2 });
    assert_eq!(d.to_secs(), 1672617600);
    assert_eq!(parse_date("1970-01-01").unwrap().to_secs(), 0);
    assert_eq!(d.to_iso(), "2023-01-02");
    assert_eq!(Date::new(2023, 2, 5).unwrap().to_iso(), "2023-02-05");
    assert_eq!(parse_date("2023-1-5"), Some(Date { year: 2023, month: 1, day: 5 }));
    assert_eq!(parse_date("23-01-05"), None);
    assert_eq!(parse_date("2023-01-32"), None);
    assert_eq!(Date::new(2023, 0, 1), None);
    assert_eq!(Date::new(10000, 1, 1), None);
}

#[test]
fn field_names_match_exactly() {
    assert_eq!(field_name(&"date".to_string()), Some(FieldName::Date));
    assert_eq!(field_name(&"url".to_string()), Some(FieldName::Url));
    assert_eq!(field_name(&"nominator".to_string()), Some(FieldName::Nominator));
    assert_eq!(field_name(&"dates".to_string()), None);
}

#[test]
fn pipeline_produces_diagnostics_and_document() {
    let recs = vec![record("2023-01-02", "foo"), record("2023-01-02", "bar")];
    let p = process_cotw_list(&recs).unwrap();
    assert_eq!(p.diagnostics, vec![diag(DiagnosticKind::SameDate, "2023-01-02", "bar")]);
    assert!(p.document.starts_with(DOCUMENT_HEADER));
    assert!(p.document.ends_with("link:https://crates.io/crates/bar[bar]\n\n|===\n"));
}

#[test]
fn table_row_links_default_or_given_url() {
    assert_eq!(table_row("2023-01-02", "foo", &None), "| 2023-01-02 | link:https://crates.io/crates/foo[foo]\n\n");
    assert_eq!(
        table_row("2023-01-02", "foo", &Some("https://example.com/x".to_string())),
        "| 2023-01-02 | link:https://example.com/x[foo]\n\n"
    );
}

#[test]
fn date_from_time_fields() {
    assert_eq!(Date::from_tm_fields(123, 0, 2), Some(Date { year: 2023, month: 1, day: 2 }));
    assert_eq!(Date::from_tm_fields(-1900, 11, 31), Some(Date { year: 0, month: 12, day: 31 }));
    assert_eq!(Date::from_tm_fields(8100, 0, 1), None);
    assert_eq!(Date::from_tm_fields(123, 12, 1), None);
    assert_eq!(Date::from_tm_fields(123, 0, 0), None);
}

#[test]
fn finish_entry_checks_date_before_id() {
    let d = Date { year: 2023, month: 1, day: 2 };
    assert_eq!(finish_entry("bad".to_string(), None, None, None), Err(ParseError::InvalidDate("bad".to_string())));
    assert_eq!(finish_entry("2023-01-02".to_string(), Some(d), None, None), Err(ParseError::MissingField(FieldName::Id)));
    let e = finish_entry("2023-01-02".to_string(), Some(d), Some("foo".to_string()), Some("u".to_string())).unwrap();
    assert_eq!(e, Entry { date: d, id: Some("foo".to_string()), url: Some("u".to_string()) });
}

#[test]
fn early_years_and_overlong_days() {
    let d = parse_date("0023-01-02").unwrap();
    assert_eq!(d, Date { year: 23, month: 1, day: 2 });
    assert_eq!(d.to_iso(), "23-01-02");
    assert_eq!(parse_date("0000-01-01").unwrap().to_iso(), "0-01-01");
    assert_eq!(parse_date("0999-01-01").unwrap().to_secs(), -30641760000);
    assert_eq!(parse_date("0000-03-01").unwrap().to_secs(), -62162035200);
    assert_eq!(parse_date("0000-01-01").unwrap().to_secs(), -62167219200);
    assert_eq!(parse_date("9999-12-31").unwrap().to_secs(), 253402214400);
    let feb31 = parse_date("2023-02-31").unwrap();
    assert_eq!(feb31.to_secs(), parse_date("2023-03-03").unwrap().to_secs());
    assert_eq!(feb31.to_iso(), "2023-02-31");
    let list = vec![entry("0999-01-01", Some("a"), None), entry("2023-02-31", Some("b"), None)];
    assert_eq!(validate_cotw_list(&list), vec![diag(DiagnosticKind::Gap, "2023-02-31", "b")]);
}

#[test]
fn day_count_across_leap_days() {
    assert_eq!(parse_date("2024-03-01").unwrap().to_secs() - parse_date("2024-02-28").unwrap().to_secs(), 2 * 86400);
    assert_eq!(parse_date("2023-03-01").unwrap().to_secs() - parse_date("2023-02-28").unwrap().to_secs(), 86400);
    assert_eq!(parse_date("2000-03-01").unwrap().to_secs() - parse_date("2000-02-28").unwrap().to_secs(), 2 * 86400);
    assert_eq!(parse_date("1900-03-01").unwrap().to_secs() - parse_date("1900-02-28").unwrap().to_secs(), 86400);
    assert_eq!(parse_date("2024-01-01").unwrap().to_secs(), 1704067200);
}

#[test]
fn iso_grammar_edges() {
    assert_eq!(parse_date("2023-1-02x"), Some(Date { year: 2023, month: 1, day: 2 }));
    assert_eq!(parse_date("2023-01-2"), Some(Date { year: 2023, month: 1, day: 2 }));
    assert_eq!(parse_date("2023-012-01"), None);
    assert_eq!(parse_date("20230-01-01"), None);
    assert_eq!(parse_date("2023-00-01"), None);
    assert_eq!(parse_date("2023-01-"), None);
    assert_eq!(parse_date("2023-01"), None);
    assert_eq!(parse_date(""), None);
}
