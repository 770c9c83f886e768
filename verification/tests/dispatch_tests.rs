use waste_bot::clock::{current_tick, tick_from_raw};
use waste_bot::date::{add_days, next_day, Date};
use waste_bot::dispatch::{
    feed_url, fetch_window, handle_delivery_outcome, ingest_document, next_ingest_delay_secs,
    notification_message, should_dispatch, DeliveryOutcome, IngestError,
};
use waste_bot::ical::PickupEvent;
use waste_bot::render::{format_date_dmy, parse_slot, slot_label};
use waste_bot::store::Store;
use waste_bot::waste::WasteType;

fn d(y: u16, m: u8, day: u8) -> Date {
    Date::new(y, m, day).unwrap()
}

#[test]
fn test_date_arithmetic() {
    assert_eq!(next_day(d(2023, 10, 31)), d(2023, 11, 1));
    assert_eq!(next_day(d(2023, 12, 31)), d(2024, 1, 1));
    assert_eq!(next_day(d(2024, 2, 28)), d(2024, 2, 29)); // leap year
    assert_eq!(next_day(d(2023, 2, 28)), d(2023, 3, 1));
    assert_eq!(next_day(d(2100, 2, 28)), d(2100, 3, 1)); // century, not leap
    assert_eq!(next_day(d(2000, 2, 28)), d(2000, 2, 29)); // 400-year leap
    assert_eq!(add_days(d(2023, 12, 1), 90), d(2024, 2, 29));
    assert_eq!(add_days(d(2023, 1, 1), 0), d(2023, 1, 1));
    assert!(Date::new(2023, 2, 29).is_none());
    assert!(Date::new(2023, 13, 1).is_none());
    assert!(Date::new(2023, 0, 1).is_none());
    assert!(Date::new(2023, 4, 31).is_none());
}

#[test]
fn test_date_ordering() {
    assert!(d(2024, 1, 1).on_or_after(&d(2023, 12, 31)));
    assert!(d(2024, 1, 1).on_or_after(&d(2024, 1, 1)));
    assert!(!d(2024, 1, 1).on_or_after(&d(2024, 1, 2)));
}

#[test]
fn test_slot_rendering() {
    assert_eq!(slot_label(6), "06:00");
    assert_eq!(slot_label(18), "18:00");
    assert_eq!(slot_label(0), "00:00");
    assert_eq!(parse_slot("06:00"), Some(6));
    assert_eq!(parse_slot("23:00"), Some(23));
    assert_eq!(parse_slot("24:00"), None);
    assert_eq!(parse_slot("06:30"), None);
    assert_eq!(parse_slot("6:00"), None);
    assert_eq!(parse_slot(""), None);
}

#[test]
fn test_feed_request_address() {
    assert_eq!(format_date_dmy(&d(2023, 10, 5)), "05.10.2023");
    let (from, to) = fetch_window(d(2023, 10, 27));
    assert_eq!(from, d(2023, 10, 27));
    assert_eq!(to, d(2024, 1, 25));
    let url = feed_url("ABC123", from, to);
    assert_eq!(
        url,
        "https://stadtplan.dresden.de/project/cardo3Apps/IDU_DDStadtplan/abfall/ical.ashx?STANDORT=ABC123&DATUM_VON=27.10.2023&DATUM_BIS=25.01.2024"
    );
}

#[test]
fn test_dispatch_decisions() {
    assert!(should_dispatch(0));
    assert!(!should_dispatch(1));
    assert!(!should_dispatch(59));
    assert_eq!(next_ingest_delay_secs(true), 28 * 86400);
    assert_eq!(next_ingest_delay_secs(false), 3600);
}

#[test]
fn test_delivery_outcome_handling() {
    let mut store = Store::new();
    store.create_user(1, "LOC1");
    store.add_subscription(1, "LOC1", "Bio").unwrap();

    let deleted = handle_delivery_outcome(&mut store, 1, DeliveryOutcome::TransientFailure);
    assert!(!deleted);
    assert!(store.get_user(1).is_some());

    let deleted = handle_delivery_outcome(&mut store, 1, DeliveryOutcome::Delivered);
    assert!(!deleted);
    assert!(store.get_user(1).is_some());

    let deleted = handle_delivery_outcome(&mut store, 1, DeliveryOutcome::PermanentFailure);
    assert!(deleted);
    assert!(store.get_user(1).is_none());
    assert_eq!(store.get_subscriptions(1, "LOC1").len(), 0);
}

#[test]
fn test_ingest_document() {
    let mut store = Store::new();
    let today = d(2023, 10, 1);

    // not a calendar at all: refused before parsing
    assert!(matches!(
        ingest_document(&mut store, "LOC1", "<html></html>", today),
        Err(IngestError::NotCalendar)
    ));
    assert_eq!(store.count_events("LOC1"), 0);

    // malformed event: refused whole
    let bad = "BEGIN:VCALENDAR\nBEGIN:VEVENT\nSUMMARY:Bio\nEND:VEVENT\nEND:VCALENDAR";
    assert!(matches!(
        ingest_document(&mut store, "LOC1", bad, today),
        Err(IngestError::Parse(_))
    ));
    assert_eq!(store.count_events("LOC1"), 0);

    // a good document lands in the store
    let good = "BEGIN:VCALENDAR\nBEGIN:VEVENT\nDTSTART:20231027\nSUMMARY:Bio, Rest\nEND:VEVENT\nEND:VCALENDAR";
    assert_eq!(ingest_document(&mut store, "LOC1", good, today).unwrap(), 1);
    assert_eq!(store.count_events("LOC1"), 2);
    assert!(store.has_event("LOC1", d(2023, 10, 27), "Bio"));
    assert!(store.has_event("LOC1", d(2023, 10, 27), "Rest"));

    // a duplicate row in the batch: refused, store unchanged
    let dup = "BEGIN:VCALENDAR\nBEGIN:VEVENT\nDTSTART:20231028\nSUMMARY:Bio, Bio\nEND:VEVENT\nEND:VCALENDAR";
    assert!(matches!(
        ingest_document(&mut store, "LOC1", dup, today),
        Err(IngestError::Store(_))
    ));
    assert_eq!(store.count_events("LOC1"), 2);
}

#[test]
fn test_end_to_end_day_before_notification() {
    // subscriber 1 binds LOC1 at the default slot 18:00 with offset 1
    // ("day before") and subscribes to Bio
    let mut store = Store::new();
    store.create_user(1, "LOC1");
    store.add_subscription(1, "LOC1", "Bio").unwrap();

    // a sync loads a Bio pickup dated tomorrow
    let today = d(2099, 10, 27);
    let tomorrow = d(2099, 10, 28);
    let events = vec![PickupEvent {
        date: tomorrow,
        waste_types: vec![WasteType::Bio],
    }];
    store.upsert_events("LOC1", &events, today).unwrap();

    // the notification driver at hour 18 delivers exactly one message,
    // phrased for tomorrow and naming Bio
    assert!(should_dispatch(0));
    let tasks = store.get_users_to_notify(18, today, tomorrow);
    assert_eq!(tasks.len(), 1);
    assert_eq!(tasks[0].chat_id, 1);
    let message = notification_message(&tasks[0]);
    assert_eq!(message, "Tomorrow: Bio collection at LOC1.");
    assert!(message.contains("Tomorrow"));
    assert!(message.contains("Bio"));

    // at hour 6 it delivers nothing
    let tasks = store.get_users_to_notify(6, today, tomorrow);
    assert_eq!(tasks.len(), 0);
}

#[test]
fn test_notification_message_same_day() {
    let mut store = Store::new();
    store.create_user(2, "LOC2");
    store.update_notify_time(2, "LOC2", 6);
    store.update_day_offset(2, "LOC2", 0);
    store.add_subscription(2, "LOC2", "Rest").unwrap();
    let today = d(2099, 10, 27);
    let events = vec![PickupEvent {
        date: today,
        waste_types: vec![WasteType::Rest],
    }];
    store.upsert_events("LOC2", &events, d(2024, 1, 1)).unwrap();
    let tasks = store.get_users_to_notify(6, today, d(2099, 10, 28));
    assert_eq!(tasks.len(), 1);
    assert_eq!(
        notification_message(&tasks[0]),
        "Today: Rest collection at LOC2."
    );
}

#[test]
fn test_current_tick_shape() {
    if let Some(t) = current_tick() {
        assert!(t.hour < 24);
        assert!(t.minute < 60);
        assert_eq!(next_day(t.today), t.tomorrow);
    } else {
        panic!("the clock reported a year outside the calendar");
    }
}

#[test]
fn test_tick_from_raw() {
    let t = tick_from_raw(2024, 2, 29, 18, 0).unwrap();
    assert_eq!(t.today, d(2024, 2, 29));
    assert_eq!(t.tomorrow, d(2024, 3, 1));
    assert_eq!(t.hour, 18);
    assert_eq!(t.minute, 0);

    // only four-digit years with room for the day after yield a tick
    assert!(tick_from_raw(0, 1, 1, 0, 0).is_none());
    assert!(tick_from_raw(9999, 1, 1, 0, 0).is_none());
    assert!(tick_from_raw(-44, 3, 15, 12, 0).is_none());
    assert!(tick_from_raw(9998, 12, 31, 23, 59).is_some());
}
