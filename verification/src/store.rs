//! The subscription and pickup-event store: location bindings with their
//! notification schedule, category subscriptions under them, and the pickup
//! events the synchronizer keeps. All operations preserve the store
//! invariant: binding keys unique, subscriptions unique and never without
//! their binding, events unique per (location, date, category).

use vstd::prelude::*;

use crate::date::Date;
use crate::ical::{events_wf, PickupEvent, PickupEventView};
use crate::render::{slot_label, slot_label_spec};
use crate::text::str_eq;
use crate::waste::{label_of, WasteTypeView};

verus! {

broadcast use vstd::seq_lib::group_filter_ensures;

/// A subscriber's tie to one location: its code, an optional display alias,
/// and the notification schedule (hourly slot and day offset).
pub struct Binding {
    pub chat_id: i64,
    pub location_id: String,
    pub alias: Option<String>,
    pub notify_hour: u8,
    pub day_offset: u8,
}

#[verifier::ext_equal]
pub struct BindingView {
    pub chat_id: i64,
    pub location_id: Seq<char>,
    pub alias: Option<Seq<char>>,
    pub notify_hour: u8,
    pub day_offset: u8,
}

impl View for Binding {
    type V = BindingView;

    open spec fn view(&self) -> BindingView {
        BindingView {
            chat_id: self.chat_id,
            location_id: self.location_id@,
            alias: match self.alias {
                Some(ref a) => Some(a@),
                None => None,
            },
            notify_hour: self.notify_hour,
            day_offset: self.day_offset,
        }
    }
}

impl DeepView for Binding {
    type V = BindingView;

    open spec fn deep_view(&self) -> BindingView {
        self.view()
    }
}

impl Clone for Binding {
    fn clone(&self) -> (r: Self)
        ensures
            r@ == self@,
    {
        Binding {
            chat_id: self.chat_id,
            location_id: self.location_id.clone(),
            alias: match &self.alias {
                Some(a) => Some(a.clone()),
                None => None,
            },
            notify_hour: self.notify_hour,
            day_offset: self.day_offset,
        }
    }
}

/// One category a binding wants notifications for, stored by its canonical
/// label.
pub struct Subscription {
    pub chat_id: i64,
    pub location_id: String,
    pub waste_type: String,
}

#[verifier::ext_equal]
pub struct SubscriptionView {
    pub chat_id: i64,
    pub location_id: Seq<char>,
    pub waste_type: Seq<char>,
}

impl View for Subscription {
    type V = SubscriptionView;

    open spec fn view(&self) -> SubscriptionView {
        SubscriptionView {
            chat_id: self.chat_id,
            location_id: self.location_id@,
            waste_type: self.waste_type@,
        }
    }
}

impl DeepView for Subscription {
    type V = SubscriptionView;

    open spec fn deep_view(&self) -> SubscriptionView {
        self.view()
    }
}

impl Clone for Subscription {
    fn clone(&self) -> (r: Self)
        ensures
            r@ == self@,
    {
        Subscription {
            chat_id: self.chat_id,
            location_id: self.location_id.clone(),
            waste_type: self.waste_type.clone(),
        }
    }
}

/// One stored pickup fact: this category is collected at this location on
/// this date.
pub struct StoredEvent {
    pub location_id: String,
    pub date: Date,
    pub waste_type: String,
}

#[verifier::ext_equal]
pub struct StoredEventView {
    pub location_id: Seq<char>,
    pub date: Date,
    pub waste_type: Seq<char>,
}

impl View for StoredEvent {
    type V = StoredEventView;

    open spec fn view(&self) -> StoredEventView {
        StoredEventView {
            location_id: self.location_id@,
            date: self.date,
            waste_type: self.waste_type@,
        }
    }
}

impl DeepView for StoredEvent {
    type V = StoredEventView;

    open spec fn deep_view(&self) -> StoredEventView {
        self.view()
    }
}

impl Clone for StoredEvent {
    fn clone(&self) -> (r: Self)
        ensures
            r@ == self@,
    {
        StoredEvent {
            location_id: self.location_id.clone(),
            date: self.date,
            waste_type: self.waste_type.clone(),
        }
    }
}

/// The whole store as mathematics.
#[verifier::ext_equal]
pub struct StoreView {
    pub bindings: Seq<BindingView>,
    pub subs: Seq<SubscriptionView>,
    pub events: Seq<StoredEventView>,
}

/// The store: bindings, category subscriptions, pickup events.
pub struct Store {
    bindings: Vec<Binding>,
    subs: Vec<Subscription>,
    events: Vec<StoredEvent>,
}

impl View for Store {
    type V = StoreView;

    closed spec fn view(&self) -> StoreView {
        StoreView {
            bindings: self.bindings.deep_view(),
            subs: self.subs.deep_view(),
            events: self.events.deep_view(),
        }
    }
}

pub open spec fn same_binding_key(a: BindingView, b: BindingView) -> bool {
    a.chat_id == b.chat_id && a.location_id == b.location_id
}

pub open spec fn binding_matches(b: BindingView, chat: i64, loc: Seq<char>) -> bool {
    b.chat_id == chat && b.location_id == loc
}

pub open spec fn same_sub(a: SubscriptionView, b: SubscriptionView) -> bool {
    a.chat_id == b.chat_id && a.location_id == b.location_id && a.waste_type == b.waste_type
}

pub open spec fn same_event(a: StoredEventView, b: StoredEventView) -> bool {
    a.location_id == b.location_id && a.date == b.date && a.waste_type == b.waste_type
}

/// Some binding with this key exists.
pub open spec fn has_binding(bs: Seq<BindingView>, chat: i64, loc: Seq<char>) -> bool {
    exists|k: int| 0 <= k < bs.len() && binding_matches(#[trigger] bs[k], chat, loc)
}

/// The store invariant: binding keys unique and schedules in range,
/// subscriptions unique and each under an existing binding, events unique
/// and dated on the calendar.
pub open spec fn inv(s: StoreView) -> bool {
    &&& forall|i: int, j: int|
        0 <= i < j < s.bindings.len() ==> !same_binding_key(
            #[trigger] s.bindings[i],
            #[trigger] s.bindings[j],
        )
    &&& forall|i: int|
        0 <= i < s.bindings.len() ==> (#[trigger] s.bindings[i]).notify_hour < 24
            && s.bindings[i].day_offset <= 1
    &&& forall|i: int, j: int|
        0 <= i < j < s.subs.len() ==> !same_sub(#[trigger] s.subs[i], #[trigger] s.subs[j])
    &&& forall|i: int|
        0 <= i < s.subs.len() ==> has_binding(
            s.bindings,
            (#[trigger] s.subs[i]).chat_id,
            s.subs[i].location_id,
        )
    &&& forall|i: int, j: int|
        0 <= i < j < s.events.len() ==> !same_event(#[trigger] s.events[i], #[trigger] s.events[j])
    &&& forall|i: int| 0 <= i < s.events.len() ==> (#[trigger] s.events[i]).date.valid()
}

/// The schedule a fresh binding starts with: the day-before slot at 18:00.
pub const DEFAULT_NOTIFY_HOUR: u8 = 18;

pub const DEFAULT_DAY_OFFSET: u8 = 1;

/// What `create_user` adds when the key is new.
pub open spec fn default_binding(chat: i64, loc: Seq<char>) -> BindingView {
    BindingView {
        chat_id: chat,
        location_id: loc,
        alias: None,
        notify_hour: DEFAULT_NOTIFY_HOUR,
        day_offset: DEFAULT_DAY_OFFSET,
    }
}

/// The bindings that survive deleting a subscriber.
pub open spec fn bind_not_chat(chat: i64) -> spec_fn(BindingView) -> bool {
    |b: BindingView| b.chat_id != chat
}

/// The subscriptions that survive deleting a subscriber.
pub open spec fn sub_not_chat(chat: i64) -> spec_fn(SubscriptionView) -> bool {
    |s: SubscriptionView| s.chat_id != chat
}

pub open spec fn bindings_without(bs: Seq<BindingView>, chat: i64) -> Seq<BindingView> {
    bs.filter(bind_not_chat(chat))
}

pub open spec fn subs_without(ss: Seq<SubscriptionView>, chat: i64) -> Seq<SubscriptionView> {
    ss.filter(sub_not_chat(chat))
}

/// First index at or after `i` whose binding belongs to `chat`, else the length.
pub open spec fn find_chat(bs: Seq<BindingView>, chat: i64, i: int) -> int
    decreases bs.len() - i,
    when 0 <= i <= bs.len()
{
    if i >= bs.len() {
        i
    } else if bs[i].chat_id == chat {
        i
    } else {
        find_chat(bs, chat, i + 1)
    }
}

/// The bindings that survive deleting one binding key.
pub open spec fn bind_not_key(chat: i64, loc: Seq<char>) -> spec_fn(BindingView) -> bool {
    |b: BindingView| !binding_matches(b, chat, loc)
}

/// The subscriptions that survive deleting one binding.
pub open spec fn sub_not_binding(chat: i64, loc: Seq<char>) -> spec_fn(SubscriptionView) -> bool {
    |s: SubscriptionView| !(s.chat_id == chat && s.location_id == loc)
}

/// The subscriptions that survive removing one category.
pub open spec fn sub_not_triple(chat: i64, loc: Seq<char>, waste: Seq<char>) -> spec_fn(
    SubscriptionView,
) -> bool {
    |s: SubscriptionView| !(s.chat_id == chat && s.location_id == loc && s.waste_type == waste)
}

/// The subscriptions under one binding.
pub open spec fn sub_of_binding(chat: i64, loc: Seq<char>) -> spec_fn(SubscriptionView) -> bool {
    |s: SubscriptionView| s.chat_id == chat && s.location_id == loc
}

/// Some subscription with this triple exists.
pub open spec fn has_sub(ss: Seq<SubscriptionView>, chat: i64, loc: Seq<char>, waste: Seq<char>) -> bool {
    exists|k: int|
        0 <= k < ss.len() && (#[trigger] ss[k]).chat_id == chat && ss[k].location_id == loc
            && ss[k].waste_type == waste
}

/// The bindings with one schedule hour replaced.
pub open spec fn with_hour(bs: Seq<BindingView>, chat: i64, loc: Seq<char>, hour: u8) -> Seq<
    BindingView,
> {
    Seq::new(
        bs.len(),
        |i: int|
            if binding_matches(bs[i], chat, loc) {
                BindingView { notify_hour: hour, ..bs[i] }
            } else {
                bs[i]
            },
    )
}

/// The bindings with one day offset replaced.
pub open spec fn with_offset(bs: Seq<BindingView>, chat: i64, loc: Seq<char>, offset: u8) -> Seq<
    BindingView,
> {
    Seq::new(
        bs.len(),
        |i: int|
            if binding_matches(bs[i], chat, loc) {
                BindingView { day_offset: offset, ..bs[i] }
            } else {
                bs[i]
            },
    )
}

/// The bindings with one alias replaced.
pub open spec fn with_alias(bs: Seq<BindingView>, chat: i64, loc: Seq<char>, alias: Seq<char>) -> Seq<
    BindingView,
> {
    Seq::new(
        bs.len(),
        |i: int|
            if binding_matches(bs[i], chat, loc) {
                BindingView { alias: Some(alias), ..bs[i] }
            } else {
                bs[i]
            },
    )
}

/// The category labels subscribed under one binding, in insertion order.
pub open spec fn labels_of(ss: Seq<SubscriptionView>, chat: i64, loc: Seq<char>) -> Seq<Seq<char>> {
    ss.filter(sub_of_binding(chat, loc)).map_values(|s: SubscriptionView| s.waste_type)
}

/// The distinct location codes the bindings reference, each at its first
/// appearance.
pub open spec fn locations_of(bs: Seq<BindingView>) -> Seq<Seq<char>>
    decreases bs.len(),
{
    if bs.len() == 0 {
        Seq::<Seq<char>>::empty()
    } else {
        let prefix = locations_of(bs.drop_last());
        if prefix.contains(bs.last().location_id) {
            prefix
        } else {
            prefix.push(bs.last().location_id)
        }
    }
}

/// The stored events a sync for `loc` with cutoff `today` must keep: other
/// locations whole, and this location's history strictly before `today`.
pub open spec fn ev_keep(loc: Seq<char>, today: Date) -> spec_fn(StoredEventView) -> bool {
    |e: StoredEventView| e.location_id != loc || e.date.num() < today.num()
}

/// One feed entry flattened to stored rows, one per category, in order.
pub open spec fn rows_of_event(loc: Seq<char>, ev: PickupEventView) -> Seq<StoredEventView> {
    ev.waste_types.map_values(
        |w: WasteTypeView| StoredEventView { location_id: loc, date: ev.date, waste_type: label_of(w) },
    )
}

/// The rows of the feed entries dated on or after `today`, in feed order;
/// entries dated earlier are stale history and contribute nothing.
pub open spec fn new_rows(loc: Seq<char>, evs: Seq<PickupEventView>, today: Date) -> Seq<
    StoredEventView,
>
    decreases evs.len(),
{
    if evs.len() == 0 {
        Seq::<StoredEventView>::empty()
    } else {
        let rest = new_rows(loc, evs.drop_last(), today);
        if evs.last().date.num() >= today.num() {
            rest + rows_of_event(loc, evs.last())
        } else {
            rest
        }
    }
}

/// What the event table holds after a successful sync for `loc`.
pub open spec fn sync_events(
    es: Seq<StoredEventView>,
    loc: Seq<char>,
    evs: Seq<PickupEventView>,
    today: Date,
) -> Seq<StoredEventView> {
    es.filter(ev_keep(loc, today)) + new_rows(loc, evs, today)
}

/// No two rows share their (location, date, category) key.
pub open spec fn rows_distinct(rs: Seq<StoredEventView>) -> bool {
    forall|i: int, j: int| 0 <= i < j < rs.len() ==> !same_event(#[trigger] rs[i], #[trigger] rs[j])
}

/// Every row a sync would insert is at `loc`, dated on or after `today`,
/// and on the calendar.
pub proof fn lemma_new_rows_shape(loc: Seq<char>, evs: Seq<PickupEventView>, today: Date)
    requires
        events_wf(evs),
    ensures
        forall|k: int|
            0 <= k < new_rows(loc, evs, today).len() ==> ((#[trigger] new_rows(loc, evs, today)[k]).location_id
                == loc && new_rows(loc, evs, today)[k].date.num() >= today.num() && new_rows(
                loc,
                evs,
                today,
            )[k].date.valid()),
    decreases evs.len(),
{
    if evs.len() > 0 {
        let t = evs.drop_last();
        assert forall|i: int| 0 <= i < t.len() implies (#[trigger] t[i]).date.valid() by {
            assert(t[i] == evs[i]);
        }
        lemma_new_rows_shape(loc, t, today);
        assert(evs.last() == evs[evs.len() - 1]);
        let full = new_rows(loc, evs, today);
        let rest = new_rows(loc, t, today);
        assert forall|k: int|
            0 <= k < full.len() implies ((#[trigger] full[k]).location_id == loc
            && full[k].date.num() >= today.num() && full[k].date.valid()) by {
            if evs.last().date.num() >= today.num() {
                if k < rest.len() {
                    assert(full[k] == rest[k]);
                } else {
                    assert(full[k] == rows_of_event(loc, evs.last())[k - rest.len()]);
                }
            } else {
                assert(full[k] == rest[k]);
            }
        }
    }
}

/// One notification to deliver: who, which location (code and display
/// label), which category, at which offset, for which collection date.
pub struct NotificationTask {
    pub chat_id: i64,
    pub location_id: String,
    pub location_label: String,
    pub waste_type: String,
    pub day_offset: u8,
    pub event_date: Date,
}

#[verifier::ext_equal]
pub struct NotificationTaskView {
    pub chat_id: i64,
    pub location_id: Seq<char>,
    pub location_label: Seq<char>,
    pub waste_type: Seq<char>,
    pub day_offset: u8,
    pub event_date: Date,
}

impl View for NotificationTask {
    type V = NotificationTaskView;

    open spec fn view(&self) -> NotificationTaskView {
        NotificationTaskView {
            chat_id: self.chat_id,
            location_id: self.location_id@,
            location_label: self.location_label@,
            waste_type: self.waste_type@,
            day_offset: self.day_offset,
            event_date: self.event_date,
        }
    }
}

impl DeepView for NotificationTask {
    type V = NotificationTaskView;

    open spec fn deep_view(&self) -> NotificationTaskView {
        self.view()
    }
}

/// What a binding shows its subscriber: the alias when set, else the code.
pub open spec fn display_label(b: BindingView) -> Seq<char> {
    match b.alias {
        Some(a) => a,
        None => b.location_id,
    }
}

/// The collection date a binding's offset points at: offset 0 notifies for
/// today's pickups, offset 1 for tomorrow's.
pub open spec fn target_date(b: BindingView, today: Date, tomorrow: Date) -> Date {
    if b.day_offset == 0 {
        today
    } else {
        tomorrow
    }
}

/// Some stored event carries this (location, date, category).
pub open spec fn has_stored_event(
    es: Seq<StoredEventView>,
    loc: Seq<char>,
    date: Date,
    waste: Seq<char>,
) -> bool {
    exists|k: int|
        0 <= k < es.len() && (#[trigger] es[k]).location_id == loc && es[k].date == date
            && es[k].waste_type == waste
}

/// The task a binding and one of its categories give rise to.
pub open spec fn task_of(b: BindingView, waste: Seq<char>, target: Date) -> NotificationTaskView {
    NotificationTaskView {
        chat_id: b.chat_id,
        location_id: b.location_id,
        location_label: display_label(b),
        waste_type: waste,
        day_offset: b.day_offset,
        event_date: target,
    }
}

/// The tasks one binding contributes: one per subscribed category whose
/// pickup stands in the store on the binding's target date, in
/// subscription order.
pub open spec fn binding_tasks(
    b: BindingView,
    ss: Seq<SubscriptionView>,
    es: Seq<StoredEventView>,
    today: Date,
    tomorrow: Date,
) -> Seq<NotificationTaskView>
    decreases ss.len(),
{
    if ss.len() == 0 {
        Seq::<NotificationTaskView>::empty()
    } else {
        let rest = binding_tasks(b, ss.drop_last(), es, today, tomorrow);
        let s = ss.last();
        if s.chat_id == b.chat_id && s.location_id == b.location_id && has_stored_event(
            es,
            b.location_id,
            target_date(b, today, tomorrow),
            s.waste_type,
        ) {
            rest.push(task_of(b, s.waste_type, target_date(b, today, tomorrow)))
        } else {
            rest
        }
    }
}

/// Every task due at `slot`: the contributions of the bindings whose
/// notification hour is `slot`, in binding order.
pub open spec fn due_tasks(
    bs: Seq<BindingView>,
    ss: Seq<SubscriptionView>,
    es: Seq<StoredEventView>,
    slot: u8,
    today: Date,
    tomorrow: Date,
) -> Seq<NotificationTaskView>
    decreases bs.len(),
{
    if bs.len() == 0 {
        Seq::<NotificationTaskView>::empty()
    } else {
        let rest = due_tasks(bs.drop_last(), ss, es, slot, today, tomorrow);
        if bs.last().notify_hour == slot {
            rest + binding_tasks(bs.last(), ss, es, today, tomorrow)
        } else {
            rest
        }
    }
}

/// The events stored for one location.
pub open spec fn ev_at(loc: Seq<char>) -> spec_fn(StoredEventView) -> bool {
    |e: StoredEventView| e.location_id == loc
}

/// Whether a list of strings holds one spelling these characters.
fn contains_str(v: &Vec<String>, s: &str) -> (r: bool)
    ensures
        r == v.deep_view().contains(s@),
{
    let n = v.len();
    let mut i: usize = 0;
    while i < n
        invariant
            i <= n == v@.len(),
            forall|k: int| 0 <= k < i ==> #[trigger] v.deep_view()[k] != s@,
        decreases n - i,
    {
        if str_eq(v[i].as_str(), s) {
            proof {
                assert(v.deep_view()[i as int] == s@);
            }
            return true;
        }
        i = i + 1;
    }
    proof {
        assert forall|k: int| 0 <= k < v.deep_view().len() implies #[trigger] v.deep_view()[k]
            != s@ by {}
    }
    false
}

/// The bindings that belong to one subscriber.
pub open spec fn bind_of_chat(chat: i64) -> spec_fn(BindingView) -> bool {
    |b: BindingView| b.chat_id == chat
}

/// Why a store mutation was refused.
#[derive(Debug, PartialEq, Eq, Structural, Clone, Copy)]
pub enum StoreError {
    /// A category subscription needs its binding first.
    MissingBinding,
    /// A sync batch named one (location, date, category) row twice.
    DuplicateEvent,
}

/// Every element of a filtered sequence stands somewhere in the original.
proof fn lemma_filter_element_index<A>(s: Seq<A>, p: spec_fn(A) -> bool, i: int)
    requires
        0 <= i < s.filter(p).len(),
    ensures
        exists|k: int| 0 <= k < s.len() && #[trigger] s[k] == s.filter(p)[i],
    decreases s.len(),
{
    reveal(Seq::filter);
    if s.len() != 0 {
        let t = s.drop_last();
        let f = s.filter(p);
        let ft = t.filter(p);
        if p(s.last()) && i == ft.len() {
            assert(f[i] == s.last());
            assert(s[s.len() - 1] == s.filter(p)[i]);
        } else {
            lemma_filter_element_index(t, p, i);
            let k = choose|k: int| 0 <= k < t.len() && #[trigger] t[k] == ft[i];
            assert(s[k] == ft[i]);
        }
    }
}

/// Filtering keeps every pairwise property that held of the original, order
/// included.
proof fn lemma_filter_pairwise<A>(s: Seq<A>, p: spec_fn(A) -> bool, ok: spec_fn(A, A) -> bool)
    requires
        forall|i: int, j: int| 0 <= i < j < s.len() ==> ok(#[trigger] s[i], #[trigger] s[j]),
    ensures
        forall|i: int, j: int|
            0 <= i < j < s.filter(p).len() ==> ok(
                #[trigger] s.filter(p)[i],
                #[trigger] s.filter(p)[j],
            ),
    decreases s.len(),
{
    reveal(Seq::filter);
    if s.len() != 0 {
        let t = s.drop_last();
        let f = s.filter(p);
        let ft = t.filter(p);
        assert forall|i: int, j: int| 0 <= i < j < t.len() implies ok(
            #[trigger] t[i],
            #[trigger] t[j],
        ) by {
            assert(t[i] == s[i]);
            assert(t[j] == s[j]);
        }
        lemma_filter_pairwise(t, p, ok);
        if p(s.last()) {
            assert forall|i: int, j: int| 0 <= i < j < f.len() implies ok(
                #[trigger] f[i],
                #[trigger] f[j],
            ) by {
                if j < ft.len() {
                    assert(f[i] == ft[i]);
                    assert(f[j] == ft[j]);
                } else {
                    assert(f[j] == s.last());
                    assert(f[i] == ft[i]);
                    lemma_filter_element_index(t, p, i);
                    let k = choose|k: int| 0 <= k < t.len() && #[trigger] t[k] == ft[i];
                    assert(s[k] == ft[i]);
                    assert(ok(s[k], s[s.len() - 1]));
                }
            }
        }
    }
}

/// One scan step of a left-to-right filter.
proof fn lemma_filter_take_step<A>(s: Seq<A>, p: spec_fn(A) -> bool, i: int)
    requires
        0 <= i < s.len(),
    ensures
        s.take(i + 1).filter(p) == if p(s[i]) {
            s.take(i).filter(p).push(s[i])
        } else {
            s.take(i).filter(p)
        },
{
    reveal(Seq::filter);
    assert(s.take(i + 1).drop_last() =~= s.take(i));
    assert(s.take(i + 1).last() == s[i]);
}

/// A pointwise change that keeps every binding's key keeps the keys unique
/// and keeps every subscription supported.
proof fn lemma_keys_preserved(
    bs0: Seq<BindingView>,
    bs1: Seq<BindingView>,
    ss: Seq<SubscriptionView>,
)
    requires
        bs1.len() == bs0.len(),
        forall|k: int| 0 <= k < bs0.len() ==> same_binding_key(#[trigger] bs1[k], bs0[k]),
        forall|i: int, j: int|
            0 <= i < j < bs0.len() ==> !same_binding_key(#[trigger] bs0[i], #[trigger] bs0[j]),
        forall|i: int|
            0 <= i < ss.len() ==> has_binding(bs0, (#[trigger] ss[i]).chat_id, ss[i].location_id),
    ensures
        forall|i: int, j: int|
            0 <= i < j < bs1.len() ==> !same_binding_key(#[trigger] bs1[i], #[trigger] bs1[j]),
        forall|i: int|
            0 <= i < ss.len() ==> has_binding(bs1, (#[trigger] ss[i]).chat_id, ss[i].location_id),
{
    assert forall|i: int, j: int| 0 <= i < j < bs1.len() implies !same_binding_key(
        #[trigger] bs1[i],
        #[trigger] bs1[j],
    ) by {
        assert(same_binding_key(bs1[i], bs0[i]));
        assert(same_binding_key(bs1[j], bs0[j]));
    }
    assert forall|i: int|
        0 <= i < ss.len() implies has_binding(
        bs1,
        (#[trigger] ss[i]).chat_id,
        ss[i].location_id,
    ) by {
        let k = choose|k: int|
            0 <= k < bs0.len() && binding_matches(#[trigger] bs0[k], ss[i].chat_id, ss[i].location_id);
        assert(same_binding_key(bs1[k], bs0[k]));
        assert(binding_matches(bs1[k], ss[i].chat_id, ss[i].location_id));
    }
}

/// A pointwise schedule or alias change that keeps every key and keeps
/// every schedule in range preserves the store invariant.
proof fn lemma_binding_update_inv(s_old: StoreView, bs1: Seq<BindingView>)
    requires
        inv(s_old),
        bs1.len() == s_old.bindings.len(),
        forall|k: int| 0 <= k < bs1.len() ==> same_binding_key(#[trigger] bs1[k], s_old.bindings[k]),
        forall|k: int|
            0 <= k < bs1.len() ==> (#[trigger] bs1[k]).notify_hour < 24 && bs1[k].day_offset <= 1,
    ensures
        inv(StoreView { bindings: bs1, subs: s_old.subs, events: s_old.events }),
{
    lemma_keys_preserved(s_old.bindings, bs1, s_old.subs);
}

/// Whether some (location, date, category) row appears twice in a batch.
fn has_duplicate_rows(rows: &Vec<StoredEvent>) -> (r: bool)
    ensures
        r == !rows_distinct(rows.deep_view()),
{
    let n = rows.len();
    let mut x: usize = 0;
    while x < n
        invariant
            x <= n == rows@.len(),
            forall|a: int, b: int|
                0 <= a < b < n && a < x ==> !same_event(
                    #[trigger] rows.deep_view()[a],
                    #[trigger] rows.deep_view()[b],
                ),
        decreases n - x,
    {
        let mut z: usize = x + 1;
        while z < n
            invariant
                x < z <= n == rows@.len(),
                forall|b: int|
                    x < b < z ==> !same_event(
                        rows.deep_view()[x as int],
                        #[trigger] rows.deep_view()[b],
                    ),
        decreases n - z,
        {
            if str_eq(rows[x].location_id.as_str(), rows[z].location_id.as_str())
                && rows[x].date == rows[z].date
                && str_eq(rows[x].waste_type.as_str(), rows[z].waste_type.as_str()) {
                proof {
                    assert(same_event(rows.deep_view()[x as int], rows.deep_view()[z as int]));
                }
                return true;
            }
            z = z + 1;
        }
        x = x + 1;
    }
    false
}

impl Store {
    /// The empty store.
    pub fn new() -> (r: Store)
        ensures
            inv(r@),
            r@.bindings == Seq::<BindingView>::empty(),
            r@.subs == Seq::<SubscriptionView>::empty(),
            r@.events == Seq::<StoredEventView>::empty(),
    {
        let r = Store { bindings: Vec::new(), subs: Vec::new(), events: Vec::new() };
        proof {
            assert(r@.bindings =~= Seq::<BindingView>::empty());
            assert(r@.subs =~= Seq::<SubscriptionView>::empty());
            assert(r@.events =~= Seq::<StoredEventView>::empty());
        }
        r
    }

    /// Registers `chat_id` at `location_id`: adds a binding with the default
    /// schedule, unless that key already exists, which changes nothing.
    pub fn create_user(&mut self, chat_id: i64, location_id: &str)
        requires
            inv(old(self)@),
        ensures
            inv(final(self)@),
            has_binding(old(self)@.bindings, chat_id, location_id@) ==> final(self)@ == old(
                self,
            )@,
            !has_binding(old(self)@.bindings, chat_id, location_id@) ==> final(self)@.bindings
                == old(self)@.bindings.push(default_binding(chat_id, location_id@))
                && final(self)@.subs == old(self)@.subs
                && final(self)@.events == old(self)@.events,
    {
        let n = self.bindings.len();
        let mut i: usize = 0;
        while i < n
            invariant
                i <= n == self.bindings@.len(),
                *self == *old(self),
                inv(old(self)@),
                forall|k: int|
                    0 <= k < i ==> !binding_matches(
                        #[trigger] self@.bindings[k],
                        chat_id,
                        location_id@,
                    ),
            decreases n - i,
        {
            if self.bindings[i].chat_id == chat_id
                && str_eq(self.bindings[i].location_id.as_str(), location_id) {
                proof {
                    assert(binding_matches(self@.bindings[i as int], chat_id, location_id@));
                }
                return ;
            }
            i = i + 1;
        }
        let ghost dv0 = self@.bindings;
        self.bindings.push(
            Binding {
                chat_id,
                location_id: location_id.to_owned(),
                alias: None,
                notify_hour: DEFAULT_NOTIFY_HOUR,
                day_offset: DEFAULT_DAY_OFFSET,
            },
        );
        proof {
            let b = default_binding(chat_id, location_id@);
            assert(dv0 == old(self)@.bindings);
            assert(self@.subs == old(self)@.subs);
            assert(self@.events == old(self)@.events);
            assert(self@.bindings =~= dv0.push(b));
            assert forall|x: int, y: int| 0 <= x < y < self@.bindings.len() implies !same_binding_key(
                #[trigger] self@.bindings[x],
                #[trigger] self@.bindings[y],
            ) by {
                if y == dv0.len() {
                    assert(!binding_matches(dv0[x], chat_id, location_id@));
                }
            }
            assert forall|x: int|
                0 <= x < self@.subs.len() implies has_binding(
                self@.bindings,
                (#[trigger] self@.subs[x]).chat_id,
                self@.subs[x].location_id,
            ) by {
                let s_old = old(self)@;
                assert(has_binding(s_old.bindings, s_old.subs[x].chat_id, s_old.subs[x].location_id));
                let k = choose|k: int|
                    0 <= k < dv0.len() && binding_matches(
                        #[trigger] dv0[k],
                        self@.subs[x].chat_id,
                        self@.subs[x].location_id,
                    );
                assert(binding_matches(
                    self@.bindings[k],
                    self@.subs[x].chat_id,
                    self@.subs[x].location_id,
                ));
            }
        }
    }

    /// The location code and `HH:00` slot of the subscriber's first binding,
    /// or `None` for a subscriber with no binding.
    pub fn get_user(&self, chat_id: i64) -> (r: Option<(String, String)>)
        requires
            inv(self@),
        ensures
            r is Some <==> find_chat(self@.bindings, chat_id, 0) < self@.bindings.len(),
            r matches Some(t) ==> {
                let k = find_chat(self@.bindings, chat_id, 0);
                t.0@ == self@.bindings[k].location_id && t.1@ == slot_label_spec(
                    self@.bindings[k].notify_hour as int,
                )
            },
    {
        let n = self.bindings.len();
        let mut i: usize = 0;
        while i < n
            invariant
                i <= n == self@.bindings.len(),
                inv(self@),
                find_chat(self@.bindings, chat_id, 0) == find_chat(self@.bindings, chat_id, i as int),
            decreases n - i,
        {
            if self.bindings[i].chat_id == chat_id {
                return Some(
                    (self.bindings[i].location_id.clone(), slot_label(self.bindings[i].notify_hour)),
                );
            }
            i = i + 1;
        }
        None
    }

    /// Removes the subscriber whole: every binding of `chat_id` and, with
    /// them, every category subscription of `chat_id`. Events are facts
    /// about locations, not subscribers, and stay.
    pub fn delete_user(&mut self, chat_id: i64)
        requires
            inv(old(self)@),
        ensures
            inv(final(self)@),
            final(self)@.bindings == bindings_without(old(self)@.bindings, chat_id),
            final(self)@.subs == subs_without(old(self)@.subs, chat_id),
            final(self)@.events == old(self)@.events,
    {
        let ghost bs0 = self@.bindings;
        let ghost ss0 = self@.subs;
        let n = self.bindings.len();
        let mut kept: Vec<Binding> = Vec::new();
        let mut i: usize = 0;
        proof {
            assert(kept.deep_view() =~= bs0.take(0).filter(bind_not_chat(chat_id)));
        }
        while i < n
            invariant
                i <= n == self.bindings@.len(),
                *self == *old(self),
                bs0 == self@.bindings,
                kept.deep_view() == bs0.take(i as int).filter(bind_not_chat(chat_id)),
            decreases n - i,
        {
            proof {
                lemma_filter_take_step(bs0, bind_not_chat(chat_id), i as int);
            }
            if self.bindings[i].chat_id != chat_id {
                let ghost k0 = kept.deep_view();
                kept.push(self.bindings[i].clone());
                proof {
                    assert(kept.deep_view() =~= k0.push(bs0[i as int]));
                }
            }
            i = i + 1;
        }
        proof {
            assert(bs0.take(n as int) =~= bs0);
        }
        self.bindings = kept;
        let m = self.subs.len();
        let mut kept_subs: Vec<Subscription> = Vec::new();
        let mut j: usize = 0;
        proof {
            assert(kept_subs.deep_view() =~= ss0.take(0).filter(sub_not_chat(chat_id)));
        }
        while j < m
            invariant
                j <= m == self.subs@.len(),
                ss0 == self@.subs,
                kept_subs.deep_view() == ss0.take(j as int).filter(sub_not_chat(chat_id)),
            decreases m - j,
        {
            proof {
                lemma_filter_take_step(ss0, sub_not_chat(chat_id), j as int);
            }
            if self.subs[j].chat_id != chat_id {
                let ghost k0 = kept_subs.deep_view();
                kept_subs.push(self.subs[j].clone());
                proof {
                    assert(kept_subs.deep_view() =~= k0.push(ss0[j as int]));
                }
            }
            j = j + 1;
        }
        proof {
            assert(ss0.take(m as int) =~= ss0);
        }
        self.subs = kept_subs;
        proof {
            let s_old = old(self)@;
            assert(bs0 == s_old.bindings);
            assert(ss0 == s_old.subs);
            assert(self@.events == s_old.events);
            lemma_filter_pairwise(
                bs0,
                bind_not_chat(chat_id),
                |a: BindingView, b: BindingView| !same_binding_key(a, b),
            );
            lemma_filter_pairwise(
                ss0,
                sub_not_chat(chat_id),
                |a: SubscriptionView, b: SubscriptionView| !same_sub(a, b),
            );
            let bs1 = self@.bindings;
            let ss1 = self@.subs;
            assert(bs1 == bs0.filter(bind_not_chat(chat_id)));
            assert(ss1 == ss0.filter(sub_not_chat(chat_id)));
            assert forall|x: int, y: int| 0 <= x < y < bs1.len() implies !same_binding_key(
                #[trigger] bs1[x],
                #[trigger] bs1[y],
            ) by {
                assert(bs1[x] == bs0.filter(bind_not_chat(chat_id))[x]);
                assert(bs1[y] == bs0.filter(bind_not_chat(chat_id))[y]);
            }
            assert forall|x: int, y: int| 0 <= x < y < ss1.len() implies !same_sub(
                #[trigger] ss1[x],
                #[trigger] ss1[y],
            ) by {
                assert(ss1[x] == ss0.filter(sub_not_chat(chat_id))[x]);
                assert(ss1[y] == ss0.filter(sub_not_chat(chat_id))[y]);
            }
            assert forall|x: int| 0 <= x < bs1.len() implies (#[trigger] bs1[x]).notify_hour < 24
                && bs1[x].day_offset <= 1 by {
                lemma_filter_element_index(bs0, bind_not_chat(chat_id), x);
                let k = choose|k: int|
                    0 <= k < bs0.len() && #[trigger] bs0[k] == bs0.filter(bind_not_chat(chat_id))[x];
                assert(bs1[x] == bs0[k]);
            }
            assert forall|x: int|
                0 <= x < ss1.len() implies has_binding(
                bs1,
                (#[trigger] ss1[x]).chat_id,
                ss1[x].location_id,
            ) by {
                lemma_filter_element_index(ss0, sub_not_chat(chat_id), x);
                assert(ss1[x] == ss0.filter(sub_not_chat(chat_id))[x]);
                let k = choose|k: int| 0 <= k < ss0.len() && #[trigger] ss0[k] == ss1[x];
                assert(has_binding(bs0, ss0[k].chat_id, ss0[k].location_id));
                let b = choose|b: int|
                    0 <= b < bs0.len() && binding_matches(
                        #[trigger] bs0[b],
                        ss0[k].chat_id,
                        ss0[k].location_id,
                    );
                assert(ss1[x].chat_id != chat_id);
                assert(bind_not_chat(chat_id)(bs0[b]));
                assert(bs1.contains(bs0[b]));
                let w = choose|w: int| 0 <= w < bs1.len() && bs1[w] == bs0[b];
                assert(binding_matches(bs1[w], ss1[x].chat_id, ss1[x].location_id));
            }
        }
    }

    /// The index of the binding with this key, if it exists.
    fn find_binding(&self, chat_id: i64, location_id: &str) -> (r: Option<usize>)
        ensures
            r matches Some(i) ==> i < self@.bindings.len() && binding_matches(
                self@.bindings[i as int],
                chat_id,
                location_id@,
            ),
            r is None ==> !has_binding(self@.bindings, chat_id, location_id@),
    {
        let n = self.bindings.len();
        let mut i: usize = 0;
        while i < n
            invariant
                i <= n == self@.bindings.len(),
                forall|k: int|
                    0 <= k < i ==> !binding_matches(
                        #[trigger] self@.bindings[k],
                        chat_id,
                        location_id@,
                    ),
            decreases n - i,
        {
            if self.bindings[i].chat_id == chat_id
                && str_eq(self.bindings[i].location_id.as_str(), location_id) {
                return Some(i);
            }
            i = i + 1;
        }
        None
    }

    /// Sets the binding's notification slot; a missing key changes nothing.
    pub fn update_notify_time(&mut self, chat_id: i64, location_id: &str, hour: u8)
        requires
            inv(old(self)@),
            hour < 24,
        ensures
            inv(final(self)@),
            final(self)@.bindings == with_hour(old(self)@.bindings, chat_id, location_id@, hour),
            final(self)@.subs == old(self)@.subs,
            final(self)@.events == old(self)@.events,
    {
        let ghost bs0 = self@.bindings;
        match self.find_binding(chat_id, location_id) {
            None => {
                proof {
                    assert(self@.bindings =~= with_hour(bs0, chat_id, location_id@, hour));
                }
            },
            Some(i) => {
                let nb = Binding { notify_hour: hour, ..self.bindings[i].clone() };
                self.bindings[i] = nb;
                proof {
                    let s_old = old(self)@;
                    let bs1 = self@.bindings;
                    assert(bs0 == s_old.bindings);
                    assert forall|k: int| 0 <= k < bs0.len() implies bs1[k] == with_hour(
                        bs0,
                        chat_id,
                        location_id@,
                        hour,
                    )[k] by {
                        assert(bs0[k] == s_old.bindings[k]);
                        if k != i {
                            if binding_matches(bs0[k], chat_id, location_id@) {
                                assert(same_binding_key(bs0[k], bs0[i as int])
                                    || same_binding_key(bs0[i as int], bs0[k]));
                            }
                        }
                    }
                    assert(bs1 =~= with_hour(bs0, chat_id, location_id@, hour));
                    assert forall|k: int| 0 <= k < bs1.len() implies same_binding_key(
                        #[trigger] bs1[k],
                        s_old.bindings[k],
                    ) by {}
                    assert forall|k: int| 0 <= k < bs1.len() implies (#[trigger] bs1[k]).notify_hour
                        < 24 && bs1[k].day_offset <= 1 by {
                        assert(s_old.bindings[k] == bs0[k]);
                        if k != i {
                            assert(bs1[k] == s_old.bindings[k]);
                        }
                    }
                    lemma_binding_update_inv(s_old, bs1);
                    assert(self@ == StoreView {
                        bindings: bs1,
                        subs: s_old.subs,
                        events: s_old.events,
                    });
                }
            },
        }
    }

    /// Sets the binding's day offset (0 same day, 1 day before); a missing
    /// key changes nothing.
    pub fn update_day_offset(&mut self, chat_id: i64, location_id: &str, offset: u8)
        requires
            inv(old(self)@),
            offset <= 1,
        ensures
            inv(final(self)@),
            final(self)@.bindings == with_offset(old(self)@.bindings, chat_id, location_id@, offset),
            final(self)@.subs == old(self)@.subs,
            final(self)@.events == old(self)@.events,
    {
        let ghost bs0 = self@.bindings;
        match self.find_binding(chat_id, location_id) {
            None => {
                proof {
                    assert(self@.bindings =~= with_offset(bs0, chat_id, location_id@, offset));
                }
            },
            Some(i) => {
                let nb = Binding { day_offset: offset, ..self.bindings[i].clone() };
                self.bindings[i] = nb;
                proof {
                    let s_old = old(self)@;
                    let bs1 = self@.bindings;
                    assert(bs0 == s_old.bindings);
                    assert forall|k: int| 0 <= k < bs0.len() implies bs1[k] == with_offset(
                        bs0,
                        chat_id,
                        location_id@,
                        offset,
                    )[k] by {
                        assert(bs0[k] == s_old.bindings[k]);
                        if k != i {
                            if binding_matches(bs0[k], chat_id, location_id@) {
                                assert(same_binding_key(bs0[k], bs0[i as int])
                                    || same_binding_key(bs0[i as int], bs0[k]));
                            }
                        }
                    }
                    assert(bs1 =~= with_offset(bs0, chat_id, location_id@, offset));
                    assert forall|k: int| 0 <= k < bs1.len() implies same_binding_key(
                        #[trigger] bs1[k],
                        s_old.bindings[k],
                    ) by {}
                    assert forall|k: int| 0 <= k < bs1.len() implies (#[trigger] bs1[k]).notify_hour
                        < 24 && bs1[k].day_offset <= 1 by {
                        assert(s_old.bindings[k] == bs0[k]);
                        if k != i {
                            assert(bs1[k] == s_old.bindings[k]);
                        }
                    }
                    lemma_binding_update_inv(s_old, bs1);
                    assert(self@ == StoreView {
                        bindings: bs1,
                        subs: s_old.subs,
                        events: s_old.events,
                    });
                }
            },
        }
    }

    /// Sets the binding's display alias; a missing key changes nothing.
    pub fn set_alias(&mut self, chat_id: i64, location_id: &str, alias: &str)
        requires
            inv(old(self)@),
        ensures
            inv(final(self)@),
            final(self)@.bindings == with_alias(old(self)@.bindings, chat_id, location_id@, alias@),
            final(self)@.subs == old(self)@.subs,
            final(self)@.events == old(self)@.events,
    {
        let ghost bs0 = self@.bindings;
        match self.find_binding(chat_id, location_id) {
            None => {
                proof {
                    assert(self@.bindings =~= with_alias(bs0, chat_id, location_id@, alias@));
                }
            },
            Some(i) => {
                let nb = Binding { alias: Some(alias.to_owned()), ..self.bindings[i].clone() };
                self.bindings[i] = nb;
                proof {
                    let s_old = old(self)@;
                    let bs1 = self@.bindings;
                    assert(bs0 == s_old.bindings);
                    assert forall|k: int| 0 <= k < bs0.len() implies bs1[k] == with_alias(
                        bs0,
                        chat_id,
                        location_id@,
                        alias@,
                    )[k] by {
                        assert(bs0[k] == s_old.bindings[k]);
                        if k != i {
                            if binding_matches(bs0[k], chat_id, location_id@) {
                                assert(same_binding_key(bs0[k], bs0[i as int])
                                    || same_binding_key(bs0[i as int], bs0[k]));
                            }
                        }
                    }
                    assert(bs1 =~= with_alias(bs0, chat_id, location_id@, alias@));
                    assert forall|k: int| 0 <= k < bs1.len() implies same_binding_key(
                        #[trigger] bs1[k],
                        s_old.bindings[k],
                    ) by {}
                    assert forall|k: int| 0 <= k < bs1.len() implies (#[trigger] bs1[k]).notify_hour
                        < 24 && bs1[k].day_offset <= 1 by {
                        assert(s_old.bindings[k] == bs0[k]);
                        if k != i {
                            assert(bs1[k] == s_old.bindings[k]);
                        }
                    }
                    lemma_binding_update_inv(s_old, bs1);
                    assert(self@ == StoreView {
                        bindings: bs1,
                        subs: s_old.subs,
                        events: s_old.events,
                    });
                }
            },
        }
    }

    /// Removes one binding and, with it, its category subscriptions.
    pub fn delete_binding(&mut self, chat_id: i64, location_id: &str)
        requires
            inv(old(self)@),
        ensures
            inv(final(self)@),
            final(self)@.bindings == old(self)@.bindings.filter(bind_not_key(chat_id, location_id@)),
            final(self)@.subs == old(self)@.subs.filter(sub_not_binding(chat_id, location_id@)),
            final(self)@.events == old(self)@.events,
    {
        let ghost bs0 = self@.bindings;
        let ghost ss0 = self@.subs;
        let n = self.bindings.len();
        let mut kept: Vec<Binding> = Vec::new();
        let mut i: usize = 0;
        proof {
            assert(kept.deep_view() =~= bs0.take(0).filter(bind_not_key(chat_id, location_id@)));
        }
        while i < n
            invariant
                i <= n == self.bindings@.len(),
                *self == *old(self),
                bs0 == self@.bindings,
                kept.deep_view() == bs0.take(i as int).filter(bind_not_key(chat_id, location_id@)),
            decreases n - i,
        {
            proof {
                lemma_filter_take_step(bs0, bind_not_key(chat_id, location_id@), i as int);
            }
            if self.bindings[i].chat_id != chat_id
                || !str_eq(self.bindings[i].location_id.as_str(), location_id) {
                let ghost k0 = kept.deep_view();
                kept.push(self.bindings[i].clone());
                proof {
                    assert(kept.deep_view() =~= k0.push(bs0[i as int]));
                }
            }
            i = i + 1;
        }
        proof {
            assert(bs0.take(n as int) =~= bs0);
        }
        self.bindings = kept;
        let m = self.subs.len();
        let mut kept_subs: Vec<Subscription> = Vec::new();
        let mut j: usize = 0;
        proof {
            assert(kept_subs.deep_view() =~= ss0.take(0).filter(sub_not_binding(chat_id, location_id@)));
        }
        while j < m
            invariant
                j <= m == self.subs@.len(),
                ss0 == self@.subs,
                kept_subs.deep_view() == ss0.take(j as int).filter(sub_not_binding(chat_id, location_id@)),
            decreases m - j,
        {
            proof {
                lemma_filter_take_step(ss0, sub_not_binding(chat_id, location_id@), j as int);
            }
            if self.subs[j].chat_id != chat_id
                || !str_eq(self.subs[j].location_id.as_str(), location_id) {
                let ghost k0 = kept_subs.deep_view();
                kept_subs.push(self.subs[j].clone());
                proof {
                    assert(kept_subs.deep_view() =~= k0.push(ss0[j as int]));
                }
            }
            j = j + 1;
        }
        proof {
            assert(ss0.take(m as int) =~= ss0);
        }
        self.subs = kept_subs;
        proof {
            let s_old = old(self)@;
            assert(bs0 == s_old.bindings);
            assert(ss0 == s_old.subs);
            assert(self@.events == s_old.events);
            let p_b = bind_not_key(chat_id, location_id@);
            let p_s = sub_not_binding(chat_id, location_id@);
            lemma_filter_pairwise(
                bs0,
                p_b,
                |a: BindingView, b: BindingView| !same_binding_key(a, b),
            );
            lemma_filter_pairwise(
                ss0,
                p_s,
                |a: SubscriptionView, b: SubscriptionView| !same_sub(a, b),
            );
            let bs1 = self@.bindings;
            let ss1 = self@.subs;
            assert(bs1 == bs0.filter(p_b));
            assert(ss1 == ss0.filter(p_s));
            assert forall|x: int, y: int| 0 <= x < y < bs1.len() implies !same_binding_key(
                #[trigger] bs1[x],
                #[trigger] bs1[y],
            ) by {
                assert(bs1[x] == bs0.filter(p_b)[x]);
                assert(bs1[y] == bs0.filter(p_b)[y]);
            }
            assert forall|x: int, y: int| 0 <= x < y < ss1.len() implies !same_sub(
                #[trigger] ss1[x],
                #[trigger] ss1[y],
            ) by {
                assert(ss1[x] == ss0.filter(p_s)[x]);
                assert(ss1[y] == ss0.filter(p_s)[y]);
            }
            assert forall|x: int| 0 <= x < bs1.len() implies (#[trigger] bs1[x]).notify_hour < 24
                && bs1[x].day_offset <= 1 by {
                lemma_filter_element_index(bs0, p_b, x);
                let k = choose|k: int| 0 <= k < bs0.len() && #[trigger] bs0[k] == bs0.filter(p_b)[x];
                assert(bs0[k] == s_old.bindings[k]);
                assert(bs1[x] == bs0[k]);
            }
            assert forall|x: int|
                0 <= x < ss1.len() implies has_binding(
                bs1,
                (#[trigger] ss1[x]).chat_id,
                ss1[x].location_id,
            ) by {
                lemma_filter_element_index(ss0, p_s, x);
                assert(ss1[x] == ss0.filter(p_s)[x]);
                let k = choose|k: int| 0 <= k < ss0.len() && #[trigger] ss0[k] == ss1[x];
                assert(ss0[k] == s_old.subs[k]);
                assert(has_binding(bs0, ss0[k].chat_id, ss0[k].location_id));
                let b = choose|b: int|
                    0 <= b < bs0.len() && binding_matches(
                        #[trigger] bs0[b],
                        ss0[k].chat_id,
                        ss0[k].location_id,
                    );
                assert(!(ss1[x].chat_id == chat_id && ss1[x].location_id == location_id@));
                assert(p_b(bs0[b]));
                assert(bs1.contains(bs0[b]));
                let w = choose|w: int| 0 <= w < bs1.len() && bs1[w] == bs0[b];
                assert(binding_matches(bs1[w], ss1[x].chat_id, ss1[x].location_id));
            }
        }
    }

    /// Subscribes the binding to a category; refused when the binding does
    /// not exist, a no-op when the category is already subscribed.
    pub fn add_subscription(&mut self, chat_id: i64, location_id: &str, waste_type: &str) -> (r:
        Result<(), StoreError>)
        requires
            inv(old(self)@),
        ensures
            inv(final(self)@),
            r is Ok <==> has_binding(old(self)@.bindings, chat_id, location_id@),
            r is Err ==> final(self)@ == old(self)@ && r == Err::<(), StoreError>(
                StoreError::MissingBinding,
            ),
            r is Ok ==> final(self)@.bindings == old(self)@.bindings && final(self)@.events == old(
                self,
            )@.events && final(self)@.subs == (if has_sub(
                old(self)@.subs,
                chat_id,
                location_id@,
                waste_type@,
            ) {
                old(self)@.subs
            } else {
                old(self)@.subs.push(
                    SubscriptionView {
                        chat_id,
                        location_id: location_id@,
                        waste_type: waste_type@,
                    },
                )
            }),
    {
        if self.find_binding(chat_id, location_id).is_none() {
            return Err(StoreError::MissingBinding);
        }
        let m = self.subs.len();
        let mut j: usize = 0;
        while j < m
            invariant
                j <= m == self@.subs.len(),
                *self == *old(self),
                inv(old(self)@),
                forall|k: int|
                    0 <= k < j ==> !((#[trigger] self@.subs[k]).chat_id == chat_id
                        && self@.subs[k].location_id == location_id@ && self@.subs[k].waste_type
                        == waste_type@),
            decreases m - j,
        {
            if self.subs[j].chat_id == chat_id
                && str_eq(self.subs[j].location_id.as_str(), location_id)
                && str_eq(self.subs[j].waste_type.as_str(), waste_type) {
                proof {
                    assert((#[trigger] self@.subs[j as int]).chat_id == chat_id
                        && self@.subs[j as int].location_id == location_id@
                        && self@.subs[j as int].waste_type == waste_type@);
                    assert(has_sub(self@.subs, chat_id, location_id@, waste_type@));
                }
                return Ok(());
            }
            j = j + 1;
        }
        let ghost s_old = old(self)@;
        let ghost ss0 = self@.subs;
        self.subs.push(
            Subscription {
                chat_id,
                location_id: location_id.to_owned(),
                waste_type: waste_type.to_owned(),
            },
        );
        proof {
            let sv = SubscriptionView { chat_id, location_id: location_id@, waste_type: waste_type@ };
            assert(ss0 == s_old.subs);
            assert(self@.bindings == s_old.bindings);
            assert(self@.events == s_old.events);
            assert(self@.subs =~= ss0.push(sv));
            assert(!has_sub(ss0, chat_id, location_id@, waste_type@));
            assert forall|x: int, y: int| 0 <= x < y < self@.subs.len() implies !same_sub(
                #[trigger] self@.subs[x],
                #[trigger] self@.subs[y],
            ) by {
                assert(s_old.subs[x] == ss0[x]);
                if y < ss0.len() {
                    assert(s_old.subs[y] == ss0[y]);
                }
            }
            assert forall|x: int|
                0 <= x < self@.subs.len() implies has_binding(
                self@.bindings,
                (#[trigger] self@.subs[x]).chat_id,
                self@.subs[x].location_id,
            ) by {
                if x < ss0.len() {
                    assert(self@.subs[x] == s_old.subs[x]);
                    assert(has_binding(
                        s_old.bindings,
                        s_old.subs[x].chat_id,
                        s_old.subs[x].location_id,
                    ));
                }
            }
        }
        Ok(())
    }

    /// Drops one category from a binding; absent rows change nothing.
    pub fn remove_subscription(&mut self, chat_id: i64, location_id: &str, waste_type: &str)
        requires
            inv(old(self)@),
        ensures
            inv(final(self)@),
            final(self)@.subs == old(self)@.subs.filter(
                sub_not_triple(chat_id, location_id@, waste_type@),
            ),
            final(self)@.bindings == old(self)@.bindings,
            final(self)@.events == old(self)@.events,
    {
        let ghost ss0 = self@.subs;
        let ghost p = sub_not_triple(chat_id, location_id@, waste_type@);
        let m = self.subs.len();
        let mut kept_subs: Vec<Subscription> = Vec::new();
        let mut j: usize = 0;
        proof {
            assert(kept_subs.deep_view() =~= ss0.take(0).filter(p));
        }
        while j < m
            invariant
                j <= m == self.subs@.len(),
                ss0 == self@.subs,
                p == sub_not_triple(chat_id, location_id@, waste_type@),
                kept_subs.deep_view() == ss0.take(j as int).filter(p),
            decreases m - j,
        {
            proof {
                lemma_filter_take_step(ss0, p, j as int);
            }
            if self.subs[j].chat_id != chat_id
                || !str_eq(self.subs[j].location_id.as_str(), location_id)
                || !str_eq(self.subs[j].waste_type.as_str(), waste_type) {
                let ghost k0 = kept_subs.deep_view();
                kept_subs.push(self.subs[j].clone());
                proof {
                    assert(kept_subs.deep_view() =~= k0.push(ss0[j as int]));
                }
            }
            j = j + 1;
        }
        proof {
            assert(ss0.take(m as int) =~= ss0);
        }
        self.subs = kept_subs;
        proof {
            let s_old = old(self)@;
            assert(ss0 == s_old.subs);
            assert(self@.bindings == s_old.bindings);
            assert(self@.events == s_old.events);
            lemma_filter_pairwise(
                ss0,
                p,
                |a: SubscriptionView, b: SubscriptionView| !same_sub(a, b),
            );
            let ss1 = self@.subs;
            assert(ss1 == ss0.filter(p));
            assert forall|x: int, y: int| 0 <= x < y < ss1.len() implies !same_sub(
                #[trigger] ss1[x],
                #[trigger] ss1[y],
            ) by {
                assert(ss1[x] == ss0.filter(p)[x]);
                assert(ss1[y] == ss0.filter(p)[y]);
            }
            assert forall|x: int|
                0 <= x < ss1.len() implies has_binding(
                self@.bindings,
                (#[trigger] ss1[x]).chat_id,
                ss1[x].location_id,
            ) by {
                lemma_filter_element_index(ss0, p, x);
                let k = choose|k: int| 0 <= k < ss0.len() && #[trigger] ss0[k] == ss1[x];
                assert(ss0[k] == s_old.subs[k]);
                assert(has_binding(s_old.bindings, s_old.subs[k].chat_id, s_old.subs[k].location_id));
            }
        }
    }

    /// The category labels subscribed under one binding, in insertion order.
    pub fn get_subscriptions(&self, chat_id: i64, location_id: &str) -> (r: Vec<String>)
        ensures
            r.deep_view() == labels_of(self@.subs, chat_id, location_id@),
    {
        let ghost ss = self@.subs;
        let ghost p = sub_of_binding(chat_id, location_id@);
        let m = self.subs.len();
        let mut out: Vec<String> = Vec::new();
        let mut j: usize = 0;
        proof {
            assert(ss.take(0).filter(p) =~= Seq::<SubscriptionView>::empty());
            assert(out.deep_view() =~= labels_of(ss.take(0), chat_id, location_id@));
        }
        while j < m
            invariant
                j <= m == self@.subs.len(),
                ss == self@.subs,
                p == sub_of_binding(chat_id, location_id@),
                out.deep_view() == labels_of(ss.take(j as int), chat_id, location_id@),
            decreases m - j,
        {
            proof {
                lemma_filter_take_step(ss, p, j as int);
            }
            if self.subs[j].chat_id == chat_id
                && str_eq(self.subs[j].location_id.as_str(), location_id) {
                let ghost o0 = out.deep_view();
                out.push(self.subs[j].waste_type.clone());
                proof {
                    assert(out.deep_view() =~= o0.push(ss[j as int].waste_type));
                    assert(labels_of(ss.take(j + 1 as int), chat_id, location_id@) =~= o0.push(
                        ss[j as int].waste_type,
                    ));
                }
            } else {
                proof {
                    assert(labels_of(ss.take(j + 1 as int), chat_id, location_id@) =~= labels_of(
                        ss.take(j as int),
                        chat_id,
                        location_id@,
                    ));
                }
            }
            j = j + 1;
        }
        proof {
            assert(ss.take(m as int) =~= ss);
        }
        out
    }

    /// Synchronizes the feed for one location, atomically: this location's
    /// events dated on or after `today` are replaced by the supplied
    /// entries' rows dated on or after `today`; earlier events and other
    /// locations stay untouched. A batch that names one (location, date,
    /// category) row twice is refused whole, and the store is unchanged.
    pub fn upsert_events(&mut self, location_id: &str, events: &Vec<PickupEvent>, today: Date) -> (r:
        Result<(), StoreError>)
        requires
            inv(old(self)@),
            today.valid(),
            events_wf(events.deep_view()),
        ensures
            inv(final(self)@),
            final(self)@.bindings == old(self)@.bindings,
            final(self)@.subs == old(self)@.subs,
            r is Ok <==> rows_distinct(new_rows(location_id@, events.deep_view(), today)),
            r is Ok ==> final(self)@.events == sync_events(
                old(self)@.events,
                location_id@,
                events.deep_view(),
                today,
            ),
            r is Err ==> final(self)@ == old(self)@ && r == Err::<(), StoreError>(
                StoreError::DuplicateEvent,
            ),
    {
        let ghost evs = events.deep_view();
        let ghost loc = location_id@;
        let n = events.len();
        let mut rows: Vec<StoredEvent> = Vec::new();
        let mut i: usize = 0;
        proof {
            assert(rows.deep_view() =~= new_rows(loc, evs.take(0), today));
        }
        while i < n
            invariant
                i <= n == events@.len(),
                evs == events.deep_view(),
                loc == location_id@,
                today.valid(),
                events_wf(evs),
                rows.deep_view() == new_rows(loc, evs.take(i as int), today),
            decreases n - i,
        {
            proof {
                assert(evs[i as int].date.valid());
                assert(evs[i as int].date == events@[i as int].date);
            }
            if events[i].date.on_or_after(&today) {
                let wt = &events[i].waste_types;
                let m = wt.len();
                proof {
                    assert(evs[i as int].waste_types == wt.deep_view());
                    assert(rows_of_event(loc, evs[i as int]).len() == m);
                    assert(rows_of_event(loc, evs[i as int]).take(0) =~= Seq::<StoredEventView>::empty());
                    assert(rows.deep_view() =~= new_rows(loc, evs.take(i as int), today)
                        + rows_of_event(loc, evs[i as int]).take(0));
                }
                let mut k: usize = 0;
                while k < m
                    invariant
                        k <= m == events@[i as int].waste_types@.len(),
                        i < events@.len(),
                        evs == events.deep_view(),
                        loc == location_id@,
                        rows.deep_view() == new_rows(loc, evs.take(i as int), today)
                            + rows_of_event(loc, evs[i as int]).take(k as int),
                        wt == &events@[i as int].waste_types,
                        rows_of_event(loc, evs[i as int]).len() == m,
                    decreases m - k,
                {
                    let ghost r0 = rows.deep_view();
                    rows.push(
                        StoredEvent {
                            location_id: location_id.to_owned(),
                            date: events[i].date,
                            waste_type: wt[k].as_str().to_owned(),
                        },
                    );
                    proof {
                        let nl = new_rows(loc, evs.take(i as int), today);
                        let ro = rows_of_event(loc, evs[i as int]);
                        assert(evs[i as int].waste_types == wt.deep_view());
                        assert(evs[i as int].waste_types[k as int] == wt@[k as int].deep_view());
                        assert(evs[i as int].date == events@[i as int].date);
                        assert(ro[k as int] == (StoredEventView {
                            location_id: loc,
                            date: evs[i as int].date,
                            waste_type: label_of(evs[i as int].waste_types[k as int]),
                        }));
                        assert(rows.deep_view() =~~= r0.push(ro[k as int]));
                        assert((nl + ro.take(k as int)).push(ro[k as int]) =~~= nl + ro.take(
                            k as int + 1,
                        ));
                        assert(rows.deep_view() =~~= nl + ro.take(k as int + 1));
                    }
                    k = k + 1;
                }
                proof {
                    assert(rows_of_event(loc, evs[i as int]).take(m as int) =~= rows_of_event(
                        loc,
                        evs[i as int],
                    ));
                    assert(evs.take(i + 1 as int).drop_last() =~= evs.take(i as int));
                    assert(evs.take(i + 1 as int).last() == evs[i as int]);
                    assert(rows.deep_view() =~= new_rows(loc, evs.take(i + 1 as int), today));
                }
            } else {
                proof {
                    assert(evs.take(i + 1 as int).drop_last() =~= evs.take(i as int));
                    assert(evs.take(i + 1 as int).last() == evs[i as int]);
                    assert(new_rows(loc, evs.take(i + 1 as int), today) == new_rows(
                        loc,
                        evs.take(i as int),
                        today,
                    ));
                }
            }
            i = i + 1;
        }
        proof {
            assert(evs.take(n as int) =~= evs);
        }
        if has_duplicate_rows(&rows) {
            return Err(StoreError::DuplicateEvent);
        }
        let ghost es0 = self@.events;
        let ghost p = ev_keep(loc, today);
        let e_len = self.events.len();
        let mut kept: Vec<StoredEvent> = Vec::new();
        let mut j: usize = 0;
        proof {
            assert(kept.deep_view() =~= es0.take(0).filter(p));
            assert forall|t: int| 0 <= t < es0.len() implies (#[trigger] es0[t]).date.valid() by {
                assert(es0[t] == old(self)@.events[t]);
            }
        }
        while j < e_len
            invariant
                j <= e_len == self.events@.len(),
                es0 == self@.events,
                loc == location_id@,
                today.valid(),
                p == ev_keep(loc, today),
                forall|t: int| 0 <= t < es0.len() ==> (#[trigger] es0[t]).date.valid(),
                kept.deep_view() == es0.take(j as int).filter(p),
            decreases e_len - j,
        {
            proof {
                lemma_filter_take_step(es0, p, j as int);
            }
            if !str_eq(self.events[j].location_id.as_str(), location_id)
                || !self.events[j].date.on_or_after(&today) {
                let ghost k0 = kept.deep_view();
                kept.push(self.events[j].clone());
                proof {
                    assert(kept.deep_view() =~= k0.push(es0[j as int]));
                }
            } else {
                proof {
                    assert(!p(es0[j as int]));
                }
            }
            j = j + 1;
        }
        proof {
            assert(es0.take(e_len as int) =~= es0);
        }
        let ghost kept_dv = kept.deep_view();
        let ghost rows_dv = rows.deep_view();
        kept.append(&mut rows);
        proof {
            assert(kept.deep_view() =~= kept_dv + rows_dv);
        }
        self.events = kept;
        proof {
            let s_old = old(self)@;
            assert(es0 == s_old.events);
            assert(self@.bindings == s_old.bindings);
            assert(self@.subs == s_old.subs);
            let es1 = self@.events;
            assert(es1 == sync_events(s_old.events, loc, evs, today));
            lemma_new_rows_shape(loc, evs, today);
            lemma_filter_pairwise(
                es0,
                p,
                |a: StoredEventView, b: StoredEventView| !same_event(a, b),
            );
            assert forall|x: int, y: int| 0 <= x < y < es1.len() implies !same_event(
                #[trigger] es1[x],
                #[trigger] es1[y],
            ) by {
                let kl = kept_dv.len();
                if y < kl {
                    assert(es1[x] == es0.filter(p)[x]);
                    assert(es1[y] == es0.filter(p)[y]);
                } else if x < kl {
                    assert(es1[x] == es0.filter(p)[x]);
                    assert(es1[y] == rows_dv[y - kl]);
                    assert(p(es1[x]));
                } else {
                    assert(es1[x] == rows_dv[x - kl]);
                    assert(es1[y] == rows_dv[y - kl]);
                }
            }
            assert forall|x: int| 0 <= x < es1.len() implies (#[trigger] es1[x]).date.valid() by {
                let kl = kept_dv.len();
                if x < kl {
                    assert(es1[x] == es0.filter(p)[x]);
                    lemma_filter_element_index(es0, p, x);
                    let k = choose|k: int| 0 <= k < es0.len() && #[trigger] es0[k] == es0.filter(p)[x];
                    assert(es0[k] == s_old.events[k]);
                } else {
                    assert(es1[x] == rows_dv[x - kl]);
                }
            }
            assert forall|x: int, y: int| 0 <= x < y < self@.bindings.len() implies !same_binding_key(
                #[trigger] self@.bindings[x],
                #[trigger] self@.bindings[y],
            ) by {
                assert(self@.bindings[x] == s_old.bindings[x]);
                assert(self@.bindings[y] == s_old.bindings[y]);
            }
            assert forall|x: int| 0 <= x < self@.bindings.len() implies (#[trigger] self@.bindings[x]).notify_hour
                < 24 && self@.bindings[x].day_offset <= 1 by {
                assert(self@.bindings[x] == s_old.bindings[x]);
            }
            assert forall|x: int, y: int| 0 <= x < y < self@.subs.len() implies !same_sub(
                #[trigger] self@.subs[x],
                #[trigger] self@.subs[y],
            ) by {
                assert(self@.subs[x] == s_old.subs[x]);
                assert(self@.subs[y] == s_old.subs[y]);
            }
            assert forall|x: int|
                0 <= x < self@.subs.len() implies has_binding(
                self@.bindings,
                (#[trigger] self@.subs[x]).chat_id,
                self@.subs[x].location_id,
            ) by {
                assert(self@.subs[x] == s_old.subs[x]);
                assert(has_binding(s_old.bindings, s_old.subs[x].chat_id, s_old.subs[x].location_id));
                let k = choose|k: int|
                    0 <= k < s_old.bindings.len() && binding_matches(
                        #[trigger] s_old.bindings[k],
                        s_old.subs[x].chat_id,
                        s_old.subs[x].location_id,
                    );
                assert(self@.bindings[k] == s_old.bindings[k]);
            }
        }
        Ok(())
    }

    /// Whether this (location, date, category) pickup stands in the store.
    pub fn has_event(&self, location_id: &str, date: Date, waste_type: &str) -> (r: bool)
        ensures
            r == has_stored_event(self@.events, location_id@, date, waste_type@),
    {
        let n = self.events.len();
        let mut i: usize = 0;
        while i < n
            invariant
                i <= n == self@.events.len(),
                forall|k: int|
                    0 <= k < i ==> !((#[trigger] self@.events[k]).location_id == location_id@
                        && self@.events[k].date == date && self@.events[k].waste_type
                        == waste_type@),
            decreases n - i,
        {
            if str_eq(self.events[i].location_id.as_str(), location_id)
                && self.events[i].date == date
                && str_eq(self.events[i].waste_type.as_str(), waste_type) {
                proof {
                    assert((#[trigger] self@.events[i as int]).location_id == location_id@
                        && self@.events[i as int].date == date && self@.events[i as int].waste_type
                        == waste_type@);
                }
                return true;
            }
            i = i + 1;
        }
        false
    }

    /// Computes the notifications due at one hourly slot: for every binding
    /// scheduled at `slot_hour`, one task per subscribed category whose
    /// pickup is stored for the binding's target date (`today` at offset 0,
    /// `tomorrow` at offset 1). A pure read; callers own the ordering no
    /// further than binding order then subscription order.
    pub fn get_users_to_notify(&self, slot_hour: u8, today: Date, tomorrow: Date) -> (r: Vec<
        NotificationTask,
    >)
        ensures
            r.deep_view() == due_tasks(
                self@.bindings,
                self@.subs,
                self@.events,
                slot_hour,
                today,
                tomorrow,
            ),
    {
        let ghost bs = self@.bindings;
        let ghost ss = self@.subs;
        let ghost es = self@.events;
        let n = self.bindings.len();
        let mut out: Vec<NotificationTask> = Vec::new();
        let mut i: usize = 0;
        proof {
            assert(out.deep_view() =~= due_tasks(bs.take(0), ss, es, slot_hour, today, tomorrow));
        }
        while i < n
            invariant
                i <= n == self@.bindings.len(),
                bs == self@.bindings,
                ss == self@.subs,
                es == self@.events,
                out.deep_view() == due_tasks(bs.take(i as int), ss, es, slot_hour, today, tomorrow),
            decreases n - i,
        {
            if self.bindings[i].notify_hour == slot_hour {
                let target = if self.bindings[i].day_offset == 0 {
                    today
                } else {
                    tomorrow
                };
                proof {
                    assert(target == target_date(bs[i as int], today, tomorrow));
                }
                let m = self.subs.len();
                let mut j: usize = 0;
                proof {
                    assert(binding_tasks(bs[i as int], ss.take(0), es, today, tomorrow)
                        =~= Seq::<NotificationTaskView>::empty());
                    assert(out.deep_view() =~= due_tasks(bs.take(i as int), ss, es, slot_hour, today, tomorrow)
                        + binding_tasks(bs[i as int], ss.take(0), es, today, tomorrow));
                }
                while j < m
                    invariant
                        j <= m == self@.subs.len(),
                        i < n == self@.bindings.len(),
                        bs == self@.bindings,
                        ss == self@.subs,
                        es == self@.events,
                        target == target_date(bs[i as int], today, tomorrow),
                        out.deep_view() == due_tasks(bs.take(i as int), ss, es, slot_hour, today, tomorrow)
                            + binding_tasks(bs[i as int], ss.take(j as int), es, today, tomorrow),
                    decreases m - j,
                {
                    let ghost o0 = out.deep_view();
                    proof {
                        assert(ss.take(j as int + 1).drop_last() =~= ss.take(j as int));
                        assert(ss.take(j as int + 1).last() == ss[j as int]);
                    }
                    if self.subs[j].chat_id == self.bindings[i].chat_id
                        && str_eq(
                        self.subs[j].location_id.as_str(),
                        self.bindings[i].location_id.as_str(),
                    ) {
                        if self.has_event(
                            self.bindings[i].location_id.as_str(),
                            target,
                            self.subs[j].waste_type.as_str(),
                        ) {
                            let label = match &self.bindings[i].alias {
                                Some(a) => a.clone(),
                                None => self.bindings[i].location_id.clone(),
                            };
                            out.push(
                                NotificationTask {
                                    chat_id: self.bindings[i].chat_id,
                                    location_id: self.bindings[i].location_id.clone(),
                                    location_label: label,
                                    waste_type: self.subs[j].waste_type.clone(),
                                    day_offset: self.bindings[i].day_offset,
                                    event_date: target,
                                },
                            );
                            proof {
                                assert(label@ == display_label(bs[i as int]));
                                assert(out.deep_view() =~= o0.push(
                                    task_of(bs[i as int], ss[j as int].waste_type, target),
                                ));
                                assert(binding_tasks(bs[i as int], ss.take(j as int + 1), es, today, tomorrow)
                                    =~= binding_tasks(bs[i as int], ss.take(j as int), es, today, tomorrow).push(
                                    task_of(bs[i as int], ss[j as int].waste_type, target),
                                ));
                                assert(out.deep_view() =~= due_tasks(bs.take(i as int), ss, es, slot_hour, today, tomorrow)
                                    + binding_tasks(bs[i as int], ss.take(j as int + 1), es, today, tomorrow));
                            }
                        } else {
                            proof {
                                assert(binding_tasks(bs[i as int], ss.take(j as int + 1), es, today, tomorrow)
                                    == binding_tasks(bs[i as int], ss.take(j as int), es, today, tomorrow));
                            }
                        }
                    } else {
                        proof {
                            assert(binding_tasks(bs[i as int], ss.take(j as int + 1), es, today, tomorrow)
                                == binding_tasks(bs[i as int], ss.take(j as int), es, today, tomorrow));
                        }
                    }
                    j = j + 1;
                }
                proof {
                    assert(ss.take(m as int) =~= ss);
                    assert(bs.take(i as int + 1).drop_last() =~= bs.take(i as int));
                    assert(bs.take(i as int + 1).last() == bs[i as int]);
                    assert(out.deep_view() =~= due_tasks(bs.take(i as int + 1), ss, es, slot_hour, today, tomorrow));
                }
            } else {
                proof {
                    assert(bs.take(i as int + 1).drop_last() =~= bs.take(i as int));
                    assert(bs.take(i as int + 1).last() == bs[i as int]);
                    assert(due_tasks(bs.take(i as int + 1), ss, es, slot_hour, today, tomorrow)
                        == due_tasks(bs.take(i as int), ss, es, slot_hour, today, tomorrow));
                }
            }
            i = i + 1;
        }
        proof {
            assert(bs.take(n as int) =~= bs);
        }
        out
    }

    /// The distinct location codes any binding references, each at its
    /// first appearance: what the ingestion driver walks.
    pub fn distinct_locations(&self) -> (r: Vec<String>)
        ensures
            r.deep_view() == locations_of(self@.bindings),
    {
        let ghost bs = self@.bindings;
        let n = self.bindings.len();
        let mut out: Vec<String> = Vec::new();
        let mut i: usize = 0;
        proof {
            assert(bs.take(0) =~= Seq::<BindingView>::empty());
            assert(out.deep_view() =~= locations_of(bs.take(0)));
        }
        while i < n
            invariant
                i <= n == self@.bindings.len(),
                bs == self@.bindings,
                out.deep_view() == locations_of(bs.take(i as int)),
            decreases n - i,
        {
            proof {
                assert(bs.take(i as int + 1).drop_last() =~= bs.take(i as int));
                assert(bs.take(i as int + 1).last() == bs[i as int]);
            }
            let ghost o0 = out.deep_view();
            if !contains_str(&out, self.bindings[i].location_id.as_str()) {
                out.push(self.bindings[i].location_id.clone());
                proof {
                    assert(out.deep_view() =~= o0.push(bs[i as int].location_id));
                }
            }
            i = i + 1;
        }
        proof {
            assert(bs.take(n as int) =~= bs);
        }
        out
    }

    /// How many pickup rows the store holds for one location.
    pub fn count_events(&self, location_id: &str) -> (r: usize)
        ensures
            r == self@.events.filter(ev_at(location_id@)).len(),
    {
        let ghost es = self@.events;
        let ghost p = ev_at(location_id@);
        let n = self.events.len();
        let mut count: usize = 0;
        let mut i: usize = 0;
        proof {
            assert(es.take(0).filter(p) =~= Seq::<StoredEventView>::empty());
        }
        while i < n
            invariant
                i <= n == self@.events.len(),
                es == self@.events,
                p == ev_at(location_id@),
                count == es.take(i as int).filter(p).len(),
                count <= i,
            decreases n - i,
        {
            proof {
                lemma_filter_take_step(es, p, i as int);
            }
            if str_eq(self.events[i].location_id.as_str(), location_id) {
                count = count + 1;
            }
            i = i + 1;
        }
        proof {
            assert(es.take(n as int) =~= es);
        }
        count
    }

    /// Every binding of one subscriber, in insertion order.
    pub fn list_bindings(&self, chat_id: i64) -> (r: Vec<Binding>)
        ensures
            r.deep_view() == self@.bindings.filter(bind_of_chat(chat_id)),
    {
        let ghost bs = self@.bindings;
        let ghost p = bind_of_chat(chat_id);
        let n = self.bindings.len();
        let mut out: Vec<Binding> = Vec::new();
        let mut i: usize = 0;
        proof {
            assert(out.deep_view() =~= bs.take(0).filter(p));
        }
        while i < n
            invariant
                i <= n == self@.bindings.len(),
                bs == self@.bindings,
                p == bind_of_chat(chat_id),
                out.deep_view() == bs.take(i as int).filter(p),
            decreases n - i,
        {
            proof {
                lemma_filter_take_step(bs, p, i as int);
            }
            if self.bindings[i].chat_id == chat_id {
                let ghost o0 = out.deep_view();
                out.push(self.bindings[i].clone());
                proof {
                    assert(out.deep_view() =~= o0.push(bs[i as int]));
                }
            }
            i = i + 1;
        }
        proof {
            assert(bs.take(n as int) =~= bs);
        }
        out
    }
}

} // verus!
