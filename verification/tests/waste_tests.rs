use waste_bot::date::Date;
use waste_bot::ical::{is_calendar_document, parse_ical, ParseError};
use waste_bot::waste::{normalize_waste_types, WasteType};

#[test]
fn test_normalize_waste_types() {
    let input = "Bio, Rest";
    let output = normalize_waste_types(input);
    assert_eq!(output, vec![WasteType::Bio, WasteType::Rest]);

    let input = "Gelb";
    let output = normalize_waste_types(input);
    assert_eq!(output, vec![WasteType::Yellow]);

    let input = "Rest, Bio, Blaue Tonne";
    let output = normalize_waste_types(input);
    assert_eq!(
        output,
        vec![WasteType::Rest, WasteType::Bio, WasteType::Paper]
    );

    let input = "";
    let output = normalize_waste_types(input);
    assert!(output.is_empty());

    let input = "UnknownGarbage";
    let output = normalize_waste_types(input);
    assert_eq!(output, vec![WasteType::Other("UnknownGarbage".to_string())]);

    // Edge cases
    let input = " Bio ,  Rest ";
    let output = normalize_waste_types(input);
    assert_eq!(output, vec![WasteType::Bio, WasteType::Rest]);
}

#[test]
fn test_parse_ical() {
    let ical_content = "BEGIN:VCALENDAR
BEGIN:VEVENT
DTSTART:20231027
SUMMARY:Bio, Rest
END:VEVENT
BEGIN:VEVENT
DTSTART:20231028
SUMMARY:Gelb
END:VEVENT
END:VCALENDAR";

    let events = parse_ical(ical_content).unwrap();
    assert_eq!(events.len(), 2);
    assert_eq!(events[0].date, Date::new(2023, 10, 27).unwrap());
    assert_eq!(events[0].waste_types, vec![WasteType::Bio, WasteType::Rest]);
    assert_eq!(events[1].date, Date::new(2023, 10, 28).unwrap());
    assert_eq!(events[1].waste_types, vec![WasteType::Yellow]);
}

#[test]
fn test_as_str_labels() {
    assert_eq!(WasteType::Bio.as_str(), "Bio");
    assert_eq!(WasteType::Rest.as_str(), "Rest");
    assert_eq!(WasteType::Paper.as_str(), "Papier");
    assert_eq!(WasteType::Yellow.as_str(), "Gelb");
    assert_eq!(WasteType::ChristmasTree.as_str(), "Weihnachtsbaum");
    assert_eq!(WasteType::Other("Sperrmüll".to_string()).as_str(), "Sperrmüll");
}

#[test]
fn test_supported_and_default_types() {
    let all = WasteType::supported_types();
    assert_eq!(
        all,
        vec![
            WasteType::Bio,
            WasteType::Rest,
            WasteType::Paper,
            WasteType::Yellow,
            WasteType::ChristmasTree,
        ]
    );
    let defaults = WasteType::default_subscriptions();
    assert_eq!(
        defaults,
        vec![
            WasteType::Bio,
            WasteType::Rest,
            WasteType::Paper,
            WasteType::Yellow,
        ]
    );
}

#[test]
fn test_from_label_synonyms() {
    assert_eq!(WasteType::from_label("Biotonne"), WasteType::Bio);
    assert_eq!(WasteType::from_label("Restmüll"), WasteType::Rest);
    assert_eq!(WasteType::from_label("Restabfall"), WasteType::Rest);
    assert_eq!(WasteType::from_label("Pappe"), WasteType::Paper);
    assert_eq!(WasteType::from_label("Gelber Sack"), WasteType::Yellow);
    assert_eq!(WasteType::from_label("Gelbe Tonne"), WasteType::Yellow);
    assert_eq!(WasteType::from_label("Weihnachtsbäume"), WasteType::ChristmasTree);
    assert_eq!(WasteType::from_label("  Bio  "), WasteType::Bio);
    assert_eq!(
        WasteType::from_label(" something else "),
        WasteType::Other("something else".to_string())
    );
}

#[test]
fn test_parse_ical_dtstart_with_parameters_and_time() {
    let ical_content = "BEGIN:VCALENDAR\r\nBEGIN:VEVENT\r\nDTSTART;VALUE=DATE:20240229\r\nSUMMARY:Bio\r\nEND:VEVENT\r\nBEGIN:VEVENT\r\nDTSTART:20240301T070000\r\nSUMMARY:Rest\r\nEND:VEVENT\r\nEND:VCALENDAR\r\n";
    let events = parse_ical(ical_content).unwrap();
    assert_eq!(events.len(), 2);
    assert_eq!(events[0].date, Date::new(2024, 2, 29).unwrap());
    assert_eq!(events[0].waste_types, vec![WasteType::Bio]);
    assert_eq!(events[1].date, Date::new(2024, 3, 1).unwrap());
    assert_eq!(events[1].waste_types, vec![WasteType::Rest]);
}

#[test]
fn test_parse_ical_errors() {
    let missing_date = "BEGIN:VEVENT\nSUMMARY:Bio\nEND:VEVENT";
    assert!(matches!(parse_ical(missing_date), Err(ParseError::MissingDate)));

    let missing_summary = "BEGIN:VEVENT\nDTSTART:20231027\nEND:VEVENT";
    assert!(matches!(
        parse_ical(missing_summary),
        Err(ParseError::MissingSummary)
    ));

    let bad_date = "BEGIN:VEVENT\nDTSTART:20231301\nSUMMARY:Bio\nEND:VEVENT";
    match parse_ical(bad_date) {
        Err(ParseError::InvalidDate(v)) => assert_eq!(v, "20231301"),
        other => panic!("expected InvalidDate, got {:?}", other),
    }

    let short_date = "BEGIN:VEVENT\nDTSTART:2023\nSUMMARY:Bio\nEND:VEVENT";
    assert!(matches!(parse_ical(short_date), Err(ParseError::InvalidDate(_))));
}

#[test]
fn test_parse_ical_empty_document() {
    assert_eq!(parse_ical("").unwrap(), vec![]);
    assert_eq!(
        parse_ical("BEGIN:VCALENDAR\nEND:VCALENDAR").unwrap(),
        vec![]
    );
}

#[test]
fn test_is_calendar_document() {
    assert!(is_calendar_document("BEGIN:VCALENDAR\nEND:VCALENDAR"));
    assert!(is_calendar_document("xx BEGIN:VCALENDAR tail"));
    assert!(!is_calendar_document("<html>not a calendar</html>"));
    assert!(!is_calendar_document(""));
    assert!(!is_calendar_document("BEGIN:VCALENDA"));
}

#[test]
fn test_parse_ical_folded_lines() {
    // folded SUMMARY: the break and its one marker character are removed
    let folded = "BEGIN:VCALENDAR\r\nBEGIN:VEVENT\r\nDTSTART:20231027\r\nSUMMARY:Bio,\r\n Rest\r\nEND:VEVENT\r\nEND:VCALENDAR\r\n";
    let events = parse_ical(folded).unwrap();
    assert_eq!(events.len(), 1);
    assert_eq!(events[0].waste_types, vec![WasteType::Bio, WasteType::Rest]);

    // a folded DTSTART value reads as one compact date
    let folded_date = "BEGIN:VEVENT\nDTSTART:2023\n 1027\nSUMMARY:Gelb\nEND:VEVENT";
    let events = parse_ical(folded_date).unwrap();
    assert_eq!(events.len(), 1);
    assert_eq!(events[0].date, Date::new(2023, 10, 27).unwrap());
    assert_eq!(events[0].waste_types, vec![WasteType::Yellow]);

    // a tab marks a continuation too; deeper indentation keeps its rest
    let folded_tab = "BEGIN:VEVENT\nDTSTART:20231027\nSUMMARY:Blaue\n\t Tonne\nEND:VEVENT";
    let events = parse_ical(folded_tab).unwrap();
    assert_eq!(events[0].waste_types, vec![WasteType::Paper]);
}
