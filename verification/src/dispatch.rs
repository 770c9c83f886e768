//! The decisions of the two periodic drivers: when an hourly tick fires,
//! what each notification says, what a delivery outcome does to the store,
//! and the per-location ingestion step (validate, parse, synchronize) with
//! its request window and address.

use vstd::prelude::*;

use crate::date::{add_days, spec_add_days, Date};
use crate::ical::{
    events_wf, has_marker, is_calendar_document, lemma_parse_dates_valid, parse_ical, parse_spec,
    ParseError, ParseErrorView,
};
use crate::render::{date_dmy, format_date_dmy};
use crate::store::{
    bindings_without, inv, new_rows, rows_distinct, subs_without, sync_events, NotificationTask,
    NotificationTaskView, Store, StoreError,
};

verus! {

/// The notification driver fires once per hour, at minute zero.
pub fn should_dispatch(minute: u8) -> (r: bool)
    ensures
        r == (minute == 0),
{
    minute == 0
}

/// How one delivery attempt ended, as the delivery channel classified it.
#[derive(Debug, PartialEq, Eq, Structural, Clone, Copy)]
pub enum DeliveryOutcome {
    /// The message went out.
    Delivered,
    /// The recipient is gone for good: they blocked the channel or their
    /// account is deactivated.
    PermanentFailure,
    /// Anything else; the recipient stays eligible for the next tick.
    TransientFailure,
}

/// Applies one delivery outcome to the store: a permanent failure deletes
/// the recipient whole, so later ticks stop targeting them; anything else
/// changes nothing. Returns whether the recipient was deleted.
pub fn handle_delivery_outcome(store: &mut Store, chat_id: i64, outcome: DeliveryOutcome) -> (r:
    bool)
    requires
        inv(old(store)@),
    ensures
        inv(final(store)@),
        r == (outcome == DeliveryOutcome::PermanentFailure),
        outcome == DeliveryOutcome::PermanentFailure ==> final(store)@.bindings
            == bindings_without(old(store)@.bindings, chat_id) && final(store)@.subs
            == subs_without(old(store)@.subs, chat_id) && final(store)@.events == old(
            store,
        )@.events,
        outcome != DeliveryOutcome::PermanentFailure ==> final(store)@ == old(store)@,
{
    match outcome {
        DeliveryOutcome::PermanentFailure => {
            store.delete_user(chat_id);
            true
        },
        _ => false,
    }
}

/// What a notification says: the day the offset points at, the category,
/// and the binding's display label.
pub open spec fn message_spec(t: NotificationTaskView) -> Seq<char> {
    (if t.day_offset == 0 {
        "Today: "@
    } else {
        "Tomorrow: "@
    }) + t.waste_type + " collection at "@ + t.location_label + "."@
}

/// Renders one notification task as its message text.
pub fn notification_message(task: &NotificationTask) -> (r: String)
    ensures
        r@ == message_spec(task@),
{
    let mut out = String::new();
    if task.day_offset == 0 {
        out.append("Today: ");
    } else {
        out.append("Tomorrow: ");
    }
    out.append(task.waste_type.as_str());
    out.append(" collection at ");
    out.append(task.location_label.as_str());
    out.append(".");
    proof {
        assert(out@ =~= message_spec(task@));
    }
    out
}

/// How far ahead of today the ingestion driver asks the feed for.
pub const FEED_WINDOW_DAYS: u16 = 90;

/// The inclusive date range of one feed request: today through the feed
/// window's end.
pub fn fetch_window(today: Date) -> (r: (Date, Date))
    requires
        today.valid(),
        today.year <= 9997,
    ensures
        r.0 == today,
        r.1 == spec_add_days(today, FEED_WINDOW_DAYS as nat),
        r.1.valid(),
{
    (today, add_days(today, FEED_WINDOW_DAYS))
}

/// The address of one feed request: the location code and the window's two
/// `DD.MM.YYYY` dates.
pub open spec fn feed_url_spec(loc: Seq<char>, from: Date, to: Date) -> Seq<char> {
    "https://stadtplan.dresden.de/project/cardo3Apps/IDU_DDStadtplan/abfall/ical.ashx?STANDORT="@
        + loc + "&DATUM_VON="@ + date_dmy(from) + "&DATUM_BIS="@ + date_dmy(to)
}

pub fn feed_url(location_id: &str, from: Date, to: Date) -> (r: String)
    requires
        from.valid(),
        to.valid(),
    ensures
        r@ == feed_url_spec(location_id@, from, to),
{
    let mut out = String::new();
    out.append(
        "https://stadtplan.dresden.de/project/cardo3Apps/IDU_DDStadtplan/abfall/ical.ashx?STANDORT=",
    );
    out.append(location_id);
    out.append("&DATUM_VON=");
    let f = format_date_dmy(&from);
    out.append(f.as_str());
    out.append("&DATUM_BIS=");
    let t = format_date_dmy(&to);
    out.append(t.as_str());
    proof {
        assert(out@ =~= feed_url_spec(location_id@, from, to));
    }
    out
}

/// Why one location's ingestion step failed. Each case is logged by the
/// driver and leaves the other locations' runs untouched.
#[derive(Debug)]
pub enum IngestError {
    /// The fetched text lacks the calendar-begin marker.
    NotCalendar,
    /// The document failed to parse.
    Parse(ParseError),
    /// The store refused the batch.
    Store(StoreError),
}

pub enum IngestErrorView {
    NotCalendar,
    Parse(ParseErrorView),
    Store(StoreError),
}

impl View for IngestError {
    type V = IngestErrorView;

    open spec fn view(&self) -> IngestErrorView {
        match self {
            IngestError::NotCalendar => IngestErrorView::NotCalendar,
            IngestError::Parse(e) => IngestErrorView::Parse(e@),
            IngestError::Store(e) => IngestErrorView::Store(*e),
        }
    }
}

/// One location's ingestion step on an already-fetched document: check the
/// calendar marker, parse, and synchronize the store's future window.
/// Returns how many feed entries the document held. On any failure the
/// store is exactly as it was.
pub fn ingest_document(store: &mut Store, location_id: &str, body: &str, today: Date) -> (r: Result<
    usize,
    IngestError,
>)
    requires
        inv(old(store)@),
        today.valid(),
    ensures
        inv(final(store)@),
        final(store)@.bindings == old(store)@.bindings,
        final(store)@.subs == old(store)@.subs,
        r matches Err(e) ==> final(store)@ == old(store)@ && (e@ matches IngestErrorView::NotCalendar
            ==> !has_marker(body@)) && (e@ matches IngestErrorView::Parse(pe) ==> parse_spec(body@)
            == Err::<Seq<crate::ical::PickupEventView>, _>(pe)) && (e@ matches IngestErrorView::Store(
            se,
        ) ==> se == StoreError::DuplicateEvent),
        r matches Ok(n) ==> has_marker(body@) && (parse_spec(body@) matches Ok(evs) && n == evs.len()
            && rows_distinct(new_rows(location_id@, evs, today)) && final(store)@.events
            == sync_events(old(store)@.events, location_id@, evs, today)),
        r is Err <==> (!has_marker(body@) || parse_spec(body@) is Err || (parse_spec(body@)
            matches Ok(evs) && !rows_distinct(new_rows(location_id@, evs, today)))),
{
    if !is_calendar_document(body) {
        return Err(IngestError::NotCalendar);
    }
    match parse_ical(body) {
        Err(e) => Err(IngestError::Parse(e)),
        Ok(events) => {
            proof {
                lemma_parse_dates_valid(crate::ical::unfolded(body@), 0, false, None, None);
                assert(events_wf(events.deep_view()));
            }
            let n = events.len();
            match store.upsert_events(location_id, &events, today) {
                Ok(()) => Ok(n),
                Err(e) => Err(IngestError::Store(e)),
            }
        },
    }
}

/// How long the ingestion driver sleeps after a run: four weeks after a
/// clean pass over every location, one hour before retrying a failed pass.
pub fn next_ingest_delay_secs(success: bool) -> (r: u64)
    ensures
        success ==> r == 28 * 86400,
        !success ==> r == 3600,
{
    if success {
        28 * 86400
    } else {
        3600
    }
}

} // verus!
