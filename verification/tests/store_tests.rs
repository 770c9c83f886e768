use waste_bot::date::Date;
use waste_bot::ical::PickupEvent;
use waste_bot::store::{Store, StoreError};
use waste_bot::waste::WasteType;

fn d(y: u16, m: u8, day: u8) -> Date {
    Date::new(y, m, day).unwrap()
}

#[test]
fn test_user_crud() {
    let mut store = Store::new();

    // Create
    store.create_user(12345, "LOC1");

    // Read
    let user = store.get_user(12345).unwrap();
    assert_eq!(user.0, "LOC1");
    assert_eq!(user.1, "18:00");

    // Update Time
    store.update_notify_time(12345, "LOC1", 6);
    let user = store.get_user(12345).unwrap();
    assert_eq!(user.1, "06:00");

    // Delete
    store.delete_user(12345);
    let user = store.get_user(12345);
    assert!(user.is_none());
}

#[test]
fn test_subscriptions() {
    let mut store = Store::new();
    store.create_user(12345, "LOC1");

    // Add subs
    store.add_subscription(12345, "LOC1", "Bio").unwrap();
    store.add_subscription(12345, "LOC1", "Rest").unwrap();

    let subs = store.get_subscriptions(12345, "LOC1");
    assert_eq!(subs.len(), 2);
    assert!(subs.contains(&"Bio".to_string()));
    assert!(subs.contains(&"Rest".to_string()));

    // Remove sub
    store.remove_subscription(12345, "LOC1", "Bio");
    let subs = store.get_subscriptions(12345, "LOC1");
    assert_eq!(subs.len(), 1);
    assert!(subs.contains(&"Rest".to_string()));

    // Cascading delete
    store.delete_user(12345);
    let subs = store.get_subscriptions(12345, "LOC1");
    assert_eq!(subs.len(), 0);
}

#[test]
fn test_subscription_needs_binding() {
    let mut store = Store::new();
    assert_eq!(
        store.add_subscription(99, "LOC1", "Bio"),
        Err(StoreError::MissingBinding)
    );
    store.create_user(99, "LOC1");
    assert_eq!(store.add_subscription(99, "LOC1", "Bio"), Ok(()));
    // adding the same category twice keeps one row
    assert_eq!(store.add_subscription(99, "LOC1", "Bio"), Ok(()));
    assert_eq!(store.get_subscriptions(99, "LOC1").len(), 1);
}

#[test]
fn test_pickup_events() {
    let mut store = Store::new();

    // Use dates far in the future to pass the ">= today" check in upsert_events
    let events = vec![
        PickupEvent {
            date: d(2099, 10, 27),
            waste_types: vec![WasteType::Bio, WasteType::Rest],
        },
        PickupEvent {
            date: d(2099, 10, 28),
            waste_types: vec![WasteType::Yellow],
        },
    ];

    store
        .upsert_events("LOC1", &events, d(2023, 10, 1))
        .unwrap();

    assert_eq!(store.count_events("LOC1"), 3); // Bio, Rest, Yellow
}

#[test]
fn test_notification_query() {
    let mut store = Store::new();
    store.create_user(1, "LOC1");
    store.add_subscription(1, "LOC1", "Bio").unwrap();
    store.update_notify_time(1, "LOC1", 18);

    store.create_user(2, "LOC1");
    store.add_subscription(2, "LOC1", "Rest").unwrap();
    store.update_notify_time(2, "LOC1", 6);

    // Use future dates
    let events = vec![PickupEvent {
        date: d(2099, 10, 28),
        waste_types: vec![WasteType::Bio],
    }];
    store
        .upsert_events("LOC1", &events, d(2023, 10, 1))
        .unwrap();

    // Case 1: 18:00 check for tomorrow (2099-10-28)
    // User 1 should get notified (subscribed to Bio, notifies at 18:00)
    let tasks = store.get_users_to_notify(18, d(2099, 10, 27), d(2099, 10, 28));
    assert_eq!(tasks.len(), 1);
    assert_eq!(tasks[0].chat_id, 1);
    assert_eq!(tasks[0].waste_type, "Bio");

    // Case 2: 06:00 check for today (2099-10-28)
    // User 2 would need a Bio subscription; they have Rest. User 1 is 18:00.
    let tasks = store.get_users_to_notify(6, d(2099, 10, 28), d(2099, 10, 29));
    assert_eq!(tasks.len(), 0);
}

#[test]
fn test_sync_idempotent() {
    let mut store = Store::new();
    let today = d(2024, 6, 1);
    let events = vec![
        PickupEvent {
            date: d(2024, 6, 10),
            waste_types: vec![WasteType::Bio, WasteType::Paper],
        },
        PickupEvent {
            date: d(2024, 6, 11),
            waste_types: vec![WasteType::Rest],
        },
    ];
    store.upsert_events("LOC1", &events, today).unwrap();
    assert_eq!(store.count_events("LOC1"), 3);
    store.upsert_events("LOC1", &events, today).unwrap();
    store.upsert_events("LOC1", &events, today).unwrap();
    assert_eq!(store.count_events("LOC1"), 3);
    assert!(store.has_event("LOC1", d(2024, 6, 10), "Bio"));
    assert!(store.has_event("LOC1", d(2024, 6, 10), "Papier"));
    assert!(store.has_event("LOC1", d(2024, 6, 11), "Rest"));
}

#[test]
fn test_sync_keeps_history() {
    let mut store = Store::new();
    // loaded while still in the future
    let old_events = vec![PickupEvent {
        date: d(2024, 3, 1),
        waste_types: vec![WasteType::Bio],
    }];
    store.upsert_events("LOC1", &old_events, d(2024, 2, 1)).unwrap();
    assert!(store.has_event("LOC1", d(2024, 3, 1), "Bio"));

    // a later sync, run after that date has passed, must not touch it;
    // stale entries in the feed must not duplicate it either
    let new_events = vec![
        PickupEvent {
            date: d(2024, 3, 1),
            waste_types: vec![WasteType::Bio],
        },
        PickupEvent {
            date: d(2024, 7, 1),
            waste_types: vec![WasteType::Rest],
        },
    ];
    store.upsert_events("LOC1", &new_events, d(2024, 6, 1)).unwrap();
    assert!(store.has_event("LOC1", d(2024, 3, 1), "Bio"));
    assert!(store.has_event("LOC1", d(2024, 7, 1), "Rest"));
    assert_eq!(store.count_events("LOC1"), 2);
}

#[test]
fn test_sync_leaves_other_locations() {
    let mut store = Store::new();
    let today = d(2024, 6, 1);
    let a = vec![PickupEvent {
        date: d(2024, 6, 10),
        waste_types: vec![WasteType::Bio],
    }];
    let b = vec![PickupEvent {
        date: d(2024, 6, 12),
        waste_types: vec![WasteType::Rest, WasteType::Yellow],
    }];
    store.upsert_events("LOCA", &a, today).unwrap();
    store.upsert_events("LOCB", &b, today).unwrap();
    assert_eq!(store.count_events("LOCA"), 1);
    assert_eq!(store.count_events("LOCB"), 2);
    assert!(store.has_event("LOCA", d(2024, 6, 10), "Bio"));

    // replace LOCB's future; LOCA untouched
    let b2 = vec![PickupEvent {
        date: d(2024, 6, 20),
        waste_types: vec![WasteType::Paper],
    }];
    store.upsert_events("LOCB", &b2, today).unwrap();
    assert_eq!(store.count_events("LOCA"), 1);
    assert!(store.has_event("LOCA", d(2024, 6, 10), "Bio"));
    assert_eq!(store.count_events("LOCB"), 1);
    assert!(store.has_event("LOCB", d(2024, 6, 20), "Papier"));
    assert!(!store.has_event("LOCB", d(2024, 6, 12), "Rest"));
}

#[test]
fn test_sync_discards_stale_entries() {
    let mut store = Store::new();
    let events = vec![
        PickupEvent {
            date: d(2020, 1, 1),
            waste_types: vec![WasteType::Bio],
        },
        PickupEvent {
            date: d(2030, 1, 1),
            waste_types: vec![WasteType::Bio],
        },
    ];
    store.upsert_events("LOC1", &events, d(2024, 6, 1)).unwrap();
    assert_eq!(store.count_events("LOC1"), 1);
    assert!(!store.has_event("LOC1", d(2020, 1, 1), "Bio"));
    assert!(store.has_event("LOC1", d(2030, 1, 1), "Bio"));
}

#[test]
fn test_sync_rejects_duplicate_rows() {
    let mut store = Store::new();
    let today = d(2024, 6, 1);
    let good = vec![PickupEvent {
        date: d(2024, 6, 10),
        waste_types: vec![WasteType::Bio],
    }];
    store.upsert_events("LOC1", &good, today).unwrap();

    // the same (date, category) twice in one batch is refused whole
    let dup = vec![
        PickupEvent {
            date: d(2024, 6, 12),
            waste_types: vec![WasteType::Rest, WasteType::Rest],
        },
    ];
    assert_eq!(
        store.upsert_events("LOC1", &dup, today),
        Err(StoreError::DuplicateEvent)
    );
    // rolled back: the earlier state is intact
    assert_eq!(store.count_events("LOC1"), 1);
    assert!(store.has_event("LOC1", d(2024, 6, 10), "Bio"));
}

#[test]
fn test_batch_insert_scale() {
    let mut store = Store::new();
    let mut events = Vec::new();
    // 250 future dates, four categories each: 1000 rows
    for i in 0..250u16 {
        events.push(PickupEvent {
            date: d(2100 + i, 1, 1),
            waste_types: vec![
                WasteType::Bio,
                WasteType::Rest,
                WasteType::Paper,
                WasteType::Yellow,
            ],
        });
    }
    store.upsert_events("LOC1", &events, d(2024, 1, 1)).unwrap();
    assert_eq!(store.count_events("LOC1"), 1000);
}

#[test]
fn test_multiple_bindings_per_subscriber() {
    let mut store = Store::new();
    store.create_user(5, "LOC1");
    store.create_user(5, "LOC2");
    store.add_subscription(5, "LOC1", "Bio").unwrap();
    store.add_subscription(5, "LOC2", "Rest").unwrap();
    assert_eq!(store.get_subscriptions(5, "LOC1"), vec!["Bio".to_string()]);
    assert_eq!(store.get_subscriptions(5, "LOC2"), vec!["Rest".to_string()]);

    let locs = store.distinct_locations();
    assert_eq!(locs, vec!["LOC1".to_string(), "LOC2".to_string()]);

    // deleting one binding cascades only its subscriptions
    store.delete_binding(5, "LOC1");
    assert_eq!(store.get_subscriptions(5, "LOC1").len(), 0);
    assert_eq!(store.get_subscriptions(5, "LOC2"), vec!["Rest".to_string()]);

    // re-registering an existing binding changes nothing
    store.create_user(5, "LOC2");
    assert_eq!(store.get_subscriptions(5, "LOC2"), vec!["Rest".to_string()]);
}

#[test]
fn test_matcher_offset_zero_same_day() {
    let mut store = Store::new();
    store.create_user(7, "LOCX");
    store.update_notify_time(7, "LOCX", 6);
    store.update_day_offset(7, "LOCX", 0);
    store.add_subscription(7, "LOCX", "Bio").unwrap();

    // a second binding at another slot with offset 1 must stay silent
    store.create_user(8, "LOCX");
    store.add_subscription(8, "LOCX", "Bio").unwrap();

    let today = d(2099, 5, 5);
    let tomorrow = d(2099, 5, 6);
    let events = vec![PickupEvent {
        date: today,
        waste_types: vec![WasteType::Bio],
    }];
    store.upsert_events("LOCX", &events, d(2024, 1, 1)).unwrap();

    let tasks = store.get_users_to_notify(6, today, tomorrow);
    assert_eq!(tasks.len(), 1);
    assert_eq!(tasks[0].chat_id, 7);
    assert_eq!(tasks[0].waste_type, "Bio");
    assert_eq!(tasks[0].day_offset, 0);
    assert_eq!(tasks[0].event_date, today);

    // subscriber 8 keeps the default slot 18/offset 1: nothing tomorrow
    let tasks = store.get_users_to_notify(18, today, tomorrow);
    assert_eq!(tasks.len(), 0);
}

#[test]
fn test_matcher_uses_alias_as_label() {
    let mut store = Store::new();
    store.create_user(9, "LOC9");
    store.add_subscription(9, "LOC9", "Bio").unwrap();
    let today = d(2099, 5, 5);
    let tomorrow = d(2099, 5, 6);
    let events = vec![PickupEvent {
        date: tomorrow,
        waste_types: vec![WasteType::Bio],
    }];
    store.upsert_events("LOC9", &events, d(2024, 1, 1)).unwrap();

    let tasks = store.get_users_to_notify(18, today, tomorrow);
    assert_eq!(tasks.len(), 1);
    assert_eq!(tasks[0].location_label, "LOC9");

    store.set_alias(9, "LOC9", "Home");
    let tasks = store.get_users_to_notify(18, today, tomorrow);
    assert_eq!(tasks.len(), 1);
    assert_eq!(tasks[0].location_label, "Home");
    assert_eq!(tasks[0].location_id, "LOC9");
}

#[test]
fn test_list_bindings() {
    let mut store = Store::new();
    store.create_user(4, "L1");
    store.create_user(4, "L2");
    store.create_user(5, "L3");
    store.update_day_offset(4, "L1", 0);

    let bs = store.list_bindings(4);
    assert_eq!(bs.len(), 2);
    assert_eq!(bs[0].location_id, "L1");
    assert_eq!(bs[0].day_offset, 0);
    assert_eq!(bs[0].notify_hour, 18);
    assert!(bs[0].alias.is_none());
    assert_eq!(bs[1].location_id, "L2");
    assert_eq!(bs[1].day_offset, 1);

    store.set_alias(4, "L2", "Office");
    let bs = store.list_bindings(4);
    assert_eq!(bs[1].alias.as_deref(), Some("Office"));
}
