//! What the store promises beyond each operation's own contract: a sync is
//! idempotent, never touches history or other locations, the matcher emits
//! exactly one task per due (binding, category), and deleting a subscriber
//! leaves nothing of theirs behind.

use vstd::prelude::*;

use crate::date::Date;
use crate::ical::{events_wf, PickupEventView};
use crate::store::{
    binding_matches, binding_tasks, bindings_without, due_tasks, ev_at, ev_keep, has_binding,
    has_stored_event, inv, labels_of, new_rows, same_binding_key, same_sub,
    sub_of_binding, subs_without, sync_events, task_of, target_date, BindingView,
    NotificationTaskView, StoreView, StoredEventView, SubscriptionView,
};

verus! {

broadcast use vstd::seq_lib::group_filter_ensures;

/// Filtering a sequence whose elements all pass keeps it whole.
proof fn lemma_filter_all<A>(s: Seq<A>, p: spec_fn(A) -> bool)
    requires
        forall|i: int| 0 <= i < s.len() ==> p(#[trigger] s[i]),
    ensures
        s.filter(p) == s,
    decreases s.len(),
{
    reveal(Seq::filter);
    if s.len() != 0 {
        let t = s.drop_last();
        assert forall|i: int| 0 <= i < t.len() implies p(#[trigger] t[i]) by {
            assert(t[i] == s[i]);
        }
        lemma_filter_all(t, p);
        assert(p(s[s.len() - 1]));
        assert(t.push(s.last()) =~= s);
    }
}

/// Filtering a sequence whose elements all fail empties it.
proof fn lemma_filter_none<A>(s: Seq<A>, p: spec_fn(A) -> bool)
    requires
        forall|i: int| 0 <= i < s.len() ==> !p(#[trigger] s[i]),
    ensures
        s.filter(p) == Seq::<A>::empty(),
    decreases s.len(),
{
    reveal(Seq::filter);
    if s.len() != 0 {
        let t = s.drop_last();
        assert forall|i: int| 0 <= i < t.len() implies !p(#[trigger] t[i]) by {
            assert(t[i] == s[i]);
        }
        lemma_filter_none(t, p);
        assert(!p(s[s.len() - 1]));
    }
}

/// *Idempotent sync*: replacing a location's future events with the same
/// batch a second time changes nothing — however often a sync runs, the
/// store ends as after the first run.
pub proof fn lemma_sync_idempotent(
    es: Seq<StoredEventView>,
    loc: Seq<char>,
    evs: Seq<PickupEventView>,
    today: Date,
)
    requires
        events_wf(evs),
    ensures
        sync_events(sync_events(es, loc, evs, today), loc, evs, today) == sync_events(
            es,
            loc,
            evs,
            today,
        ),
{
    let p = ev_keep(loc, today);
    let kept = es.filter(p);
    let fresh = new_rows(loc, evs, today);
    Seq::filter_distributes_over_add(kept, fresh, p);
    assert forall|i: int| 0 <= i < kept.len() implies p(#[trigger] kept[i]) by {}
    lemma_filter_all(kept, p);
    crate::store::lemma_new_rows_shape(loc, evs, today);
    assert forall|i: int| 0 <= i < fresh.len() implies !p(#[trigger] fresh[i]) by {}
    lemma_filter_none(fresh, p);
    assert(kept + Seq::<StoredEventView>::empty() =~= kept);
}

/// *History immutability*: an event dated before the sync's `today` is
/// still in the store after the sync, whatever the batch held.
pub proof fn lemma_sync_preserves_history(
    es: Seq<StoredEventView>,
    loc: Seq<char>,
    evs: Seq<PickupEventView>,
    today: Date,
    k: int,
)
    requires
        0 <= k < es.len(),
        es[k].date.num() < today.num(),
    ensures
        sync_events(es, loc, evs, today).contains(es[k]),
{
    let p = ev_keep(loc, today);
    assert(p(es[k]));
    assert(es.filter(p).contains(es[k]));
    let w = choose|w: int| 0 <= w < es.filter(p).len() && es.filter(p)[w] == es[k];
    assert(sync_events(es, loc, evs, today)[w] == es[k]);
}

/// *No cross-contamination*: a sync for one location leaves every other
/// location's events exactly as they were, order included.
pub proof fn lemma_sync_other_location(
    es: Seq<StoredEventView>,
    loc: Seq<char>,
    evs: Seq<PickupEventView>,
    today: Date,
    other: Seq<char>,
)
    requires
        other != loc,
        events_wf(evs),
    ensures
        sync_events(es, loc, evs, today).filter(ev_at(other)) == es.filter(ev_at(other)),
{
    let p = ev_keep(loc, today);
    let q = ev_at(other);
    let kept = es.filter(p);
    let fresh = new_rows(loc, evs, today);
    Seq::filter_distributes_over_add(kept, fresh, q);
    crate::store::lemma_new_rows_shape(loc, evs, today);
    assert forall|i: int| 0 <= i < fresh.len() implies !q(#[trigger] fresh[i]) by {}
    lemma_filter_none(fresh, q);
    lemma_filter_subsumed(es, p, q);
    assert(kept.filter(q) + Seq::<StoredEventView>::empty() =~= kept.filter(q));
}

/// Filtering by a property, then by a stronger one, is filtering by the
/// stronger one alone.
proof fn lemma_filter_subsumed<A>(s: Seq<A>, p: spec_fn(A) -> bool, q: spec_fn(A) -> bool)
    requires
        forall|x: A| #[trigger] q(x) ==> p(x),
    ensures
        s.filter(p).filter(q) == s.filter(q),
    decreases s.len(),
{
    reveal(Seq::filter);
    if s.len() != 0 {
        let t = s.drop_last();
        let x = s.last();
        lemma_filter_subsumed(t, p, q);
        if p(x) {
            assert(s.filter(p) == t.filter(p).push(x));
            assert(t.filter(p).push(x).drop_last() =~= t.filter(p));
            assert(t.filter(p).push(x).last() == x);
        }
    }
}


/// A binding's schedule picks a single target date per tick: offset 0 reads
/// today, offset 1 reads tomorrow, and the two never coincide, so no tick
/// can match one pickup under both phrasings.
pub proof fn lemma_offset_targets_disjoint(
    b0: BindingView,
    b1: BindingView,
    today: Date,
    tomorrow: Date,
)
    requires
        today.valid(),
        tomorrow == crate::date::spec_next_day(today),
        b0.day_offset == 0,
        b1.day_offset == 1,
    ensures
        target_date(b0, today, tomorrow) == today,
        target_date(b1, today, tomorrow) == tomorrow,
        target_date(b0, today, tomorrow) != target_date(b1, today, tomorrow),
{
    crate::date::lemma_next_day_increases(today);
}

/// How often a task occurs in a matcher result.
pub open spec fn occurrences(ts: Seq<NotificationTaskView>, t: NotificationTaskView) -> int
    decreases ts.len(),
{
    if ts.len() == 0 {
        0
    } else {
        occurrences(ts.drop_last(), t) + if ts.last() == t {
            1int
        } else {
            0int
        }
    }
}

/// Every task a binding contributes carries that binding's subscriber,
/// location, label and offset.
proof fn lemma_binding_tasks_shape(
    b: BindingView,
    ss: Seq<SubscriptionView>,
    es: Seq<StoredEventView>,
    today: Date,
    tomorrow: Date,
)
    ensures
        forall|q: int|
            0 <= q < binding_tasks(b, ss, es, today, tomorrow).len() ==> ((#[trigger] binding_tasks(
                b,
                ss,
                es,
                today,
                tomorrow,
            )[q]).chat_id == b.chat_id && binding_tasks(b, ss, es, today, tomorrow)[q].location_id
                == b.location_id),
    decreases ss.len(),
{
    if ss.len() != 0 {
        lemma_binding_tasks_shape(b, ss.drop_last(), es, today, tomorrow);
        let full = binding_tasks(b, ss, es, today, tomorrow);
        let rest = binding_tasks(b, ss.drop_last(), es, today, tomorrow);
        assert forall|q: int|
            0 <= q < full.len() implies ((#[trigger] full[q]).chat_id == b.chat_id
            && full[q].location_id == b.location_id) by {
            if q < rest.len() {
                assert(full[q] == rest[q]);
            }
        }
    }
}

/// A binding whose subscriptions never pair it with the notification's
/// category contributes that notification zero times.
proof fn lemma_binding_occ_zero(
    b: BindingView,
    ss: Seq<SubscriptionView>,
    es: Seq<StoredEventView>,
    today: Date,
    tomorrow: Date,
    t: NotificationTaskView,
)
    requires
        forall|k: int|
            0 <= k < ss.len() ==> !((#[trigger] ss[k]).chat_id == b.chat_id && ss[k].location_id
                == b.location_id && ss[k].waste_type == t.waste_type),
    ensures
        occurrences(binding_tasks(b, ss, es, today, tomorrow), t) == 0,
    decreases ss.len(),
{
    if ss.len() != 0 {
        let tt = ss.drop_last();
        assert forall|k: int|
            0 <= k < tt.len() implies !((#[trigger] tt[k]).chat_id == b.chat_id
            && tt[k].location_id == b.location_id && tt[k].waste_type == t.waste_type) by {
            assert(tt[k] == ss[k]);
        }
        lemma_binding_occ_zero(b, tt, es, today, tomorrow, t);
        let rest = binding_tasks(b, tt, es, today, tomorrow);
        let s = ss.last();
        assert(s == ss[ss.len() - 1]);
        if s.chat_id == b.chat_id && s.location_id == b.location_id && has_stored_event(
            es,
            b.location_id,
            target_date(b, today, tomorrow),
            s.waste_type,
        ) {
            let pushed = rest.push(task_of(b, s.waste_type, target_date(b, today, tomorrow)));
            assert(pushed.drop_last() =~= rest);
            assert(pushed.last() != t);
        }
    }
}

/// A binding with exactly one subscription pairing it with a notification's
/// category, whose pickup is stored, contributes that notification once.
proof fn lemma_binding_occ_one(
    b: BindingView,
    ss: Seq<SubscriptionView>,
    es: Seq<StoredEventView>,
    today: Date,
    tomorrow: Date,
    si: int,
)
    requires
        0 <= si < ss.len(),
        ss[si].chat_id == b.chat_id,
        ss[si].location_id == b.location_id,
        has_stored_event(es, b.location_id, target_date(b, today, tomorrow), ss[si].waste_type),
        forall|i: int, j: int|
            0 <= i < j < ss.len() ==> !same_sub(#[trigger] ss[i], #[trigger] ss[j]),
    ensures
        occurrences(
            binding_tasks(b, ss, es, today, tomorrow),
            task_of(b, ss[si].waste_type, target_date(b, today, tomorrow)),
        ) == 1,
    decreases ss.len(),
{
    let t = task_of(b, ss[si].waste_type, target_date(b, today, tomorrow));
    let tt = ss.drop_last();
    let s = ss.last();
    assert(s == ss[ss.len() - 1]);
    if si == ss.len() - 1 {
        assert forall|k: int|
            0 <= k < tt.len() implies !((#[trigger] tt[k]).chat_id == b.chat_id
            && tt[k].location_id == b.location_id && tt[k].waste_type == t.waste_type) by {
            assert(tt[k] == ss[k]);
            if ss[k].chat_id == b.chat_id && ss[k].location_id == b.location_id && ss[k].waste_type
                == t.waste_type {
                assert(same_sub(ss[k], ss[si]));
            }
        }
        lemma_binding_occ_zero(b, tt, es, today, tomorrow, t);
        let rest = binding_tasks(b, tt, es, today, tomorrow);
        let pushed = rest.push(t);
        assert(pushed.drop_last() =~= rest);
        assert(pushed.last() == t);
    } else {
        assert forall|i: int, j: int| 0 <= i < j < tt.len() implies !same_sub(
            #[trigger] tt[i],
            #[trigger] tt[j],
        ) by {
            assert(tt[i] == ss[i]);
            assert(tt[j] == ss[j]);
        }
        assert(tt[si] == ss[si]);
        lemma_binding_occ_one(b, tt, es, today, tomorrow, si);
        let rest = binding_tasks(b, tt, es, today, tomorrow);
        if s.chat_id == b.chat_id && s.location_id == b.location_id && has_stored_event(
            es,
            b.location_id,
            target_date(b, today, tomorrow),
            s.waste_type,
        ) {
            if s.waste_type == t.waste_type {
                assert(same_sub(ss[si], ss[ss.len() - 1]));
            }
            let pushed = rest.push(task_of(b, s.waste_type, target_date(b, today, tomorrow)));
            assert(pushed.drop_last() =~= rest);
            assert(pushed.last() != t);
        }
    }
}

/// Occurrence counts add over concatenation.
proof fn lemma_occurrences_add(
    a: Seq<NotificationTaskView>,
    c: Seq<NotificationTaskView>,
    t: NotificationTaskView,
)
    ensures
        occurrences(a + c, t) == occurrences(a, t) + occurrences(c, t),
    decreases c.len(),
{
    if c.len() == 0 {
        assert(a + c =~= a);
    } else {
        lemma_occurrences_add(a, c.drop_last(), t);
        assert((a + c).drop_last() =~= a + c.drop_last());
        assert((a + c).last() == c.last());
    }
}

/// Bindings whose key differs from a notification's contribute it zero times.
proof fn lemma_due_occ_zero(
    bs: Seq<BindingView>,
    ss: Seq<SubscriptionView>,
    es: Seq<StoredEventView>,
    slot: u8,
    today: Date,
    tomorrow: Date,
    t: NotificationTaskView,
)
    requires
        forall|k: int|
            0 <= k < bs.len() ==> !((#[trigger] bs[k]).chat_id == t.chat_id && bs[k].location_id
                == t.location_id),
    ensures
        occurrences(due_tasks(bs, ss, es, slot, today, tomorrow), t) == 0,
    decreases bs.len(),
{
    if bs.len() != 0 {
        let tb = bs.drop_last();
        assert forall|k: int|
            0 <= k < tb.len() implies !((#[trigger] tb[k]).chat_id == t.chat_id
            && tb[k].location_id == t.location_id) by {
            assert(tb[k] == bs[k]);
        }
        lemma_due_occ_zero(tb, ss, es, slot, today, tomorrow, t);
        let b = bs.last();
        assert(b == bs[bs.len() - 1]);
        if b.notify_hour == slot {
            let part = binding_tasks(b, ss, es, today, tomorrow);
            lemma_binding_tasks_shape(b, ss, es, today, tomorrow);
            assert forall|k: int|
                0 <= k < part.len() implies !((#[trigger] part[k]).chat_id == b.chat_id
                && part[k].location_id == b.location_id && part[k] == t) by {}
            assert forall|k: int| 0 <= k < part.len() implies !(#[trigger] part[k] == t) by {}
            lemma_occ_zero_of_neq(part, t);
            lemma_occurrences_add(due_tasks(tb, ss, es, slot, today, tomorrow), part, t);
        }
    }
}

/// A sequence free of a notification has it zero times.
proof fn lemma_occ_zero_of_neq(ts: Seq<NotificationTaskView>, t: NotificationTaskView)
    requires
        forall|k: int| 0 <= k < ts.len() ==> !(#[trigger] ts[k] == t),
    ensures
        occurrences(ts, t) == 0,
    decreases ts.len(),
{
    if ts.len() != 0 {
        let tt = ts.drop_last();
        assert forall|k: int| 0 <= k < tt.len() implies !(#[trigger] tt[k] == t) by {
            assert(tt[k] == ts[k]);
        }
        lemma_occ_zero_of_neq(tt, t);
        assert(!(ts[ts.len() - 1] == t));
    }
}

/// *Matcher exactness*: a binding scheduled at the queried slot, with a
/// subscribed category whose pickup is stored for the binding's target
/// date, yields exactly one task for that binding and category — no
/// duplicate, and nothing from bindings scheduled elsewhere, since every
/// emitted task names its binding's key and the contributing binding's slot.
pub proof fn lemma_matcher_exact(
    s: StoreView,
    slot: u8,
    today: Date,
    tomorrow: Date,
    bi: int,
    si: int,
)
    requires
        inv(s),
        0 <= bi < s.bindings.len(),
        0 <= si < s.subs.len(),
        s.bindings[bi].notify_hour == slot,
        s.subs[si].chat_id == s.bindings[bi].chat_id,
        s.subs[si].location_id == s.bindings[bi].location_id,
        has_stored_event(
            s.events,
            s.bindings[bi].location_id,
            target_date(s.bindings[bi], today, tomorrow),
            s.subs[si].waste_type,
        ),
    ensures
        occurrences(
            due_tasks(s.bindings, s.subs, s.events, slot, today, tomorrow),
            task_of(
                s.bindings[bi],
                s.subs[si].waste_type,
                target_date(s.bindings[bi], today, tomorrow),
            ),
        ) == 1,
{
    lemma_matcher_exact_rec(s.bindings, s.subs, s.events, slot, today, tomorrow, bi, si);
}

proof fn lemma_matcher_exact_rec(
    bs: Seq<BindingView>,
    ss: Seq<SubscriptionView>,
    es: Seq<StoredEventView>,
    slot: u8,
    today: Date,
    tomorrow: Date,
    bi: int,
    si: int,
)
    requires
        0 <= bi < bs.len(),
        0 <= si < ss.len(),
        bs[bi].notify_hour == slot,
        ss[si].chat_id == bs[bi].chat_id,
        ss[si].location_id == bs[bi].location_id,
        has_stored_event(es, bs[bi].location_id, target_date(bs[bi], today, tomorrow), ss[si].waste_type),
        forall|i: int, j: int|
            0 <= i < j < bs.len() ==> !same_binding_key(#[trigger] bs[i], #[trigger] bs[j]),
        forall|i: int, j: int|
            0 <= i < j < ss.len() ==> !same_sub(#[trigger] ss[i], #[trigger] ss[j]),
    ensures
        occurrences(
            due_tasks(bs, ss, es, slot, today, tomorrow),
            task_of(bs[bi], ss[si].waste_type, target_date(bs[bi], today, tomorrow)),
        ) == 1,
    decreases bs.len(),
{
    let t = task_of(bs[bi], ss[si].waste_type, target_date(bs[bi], today, tomorrow));
    let tb = bs.drop_last();
    let b = bs.last();
    assert(b == bs[bs.len() - 1]);
    assert forall|i: int, j: int| 0 <= i < j < tb.len() implies !same_binding_key(
        #[trigger] tb[i],
        #[trigger] tb[j],
    ) by {
        assert(tb[i] == bs[i]);
        assert(tb[j] == bs[j]);
    }
    if bi == bs.len() - 1 {
        assert forall|k: int|
            0 <= k < tb.len() implies !((#[trigger] tb[k]).chat_id == t.chat_id
            && tb[k].location_id == t.location_id) by {
            assert(tb[k] == bs[k]);
            if bs[k].chat_id == t.chat_id && bs[k].location_id == t.location_id {
                assert(same_binding_key(bs[k], bs[bi]));
            }
        }
        lemma_due_occ_zero(tb, ss, es, slot, today, tomorrow, t);
        lemma_binding_occ_one(b, ss, es, today, tomorrow, si);
        lemma_occurrences_add(
            due_tasks(tb, ss, es, slot, today, tomorrow),
            binding_tasks(b, ss, es, today, tomorrow),
            t,
        );
    } else {
        assert(tb[bi] == bs[bi]);
        lemma_matcher_exact_rec(tb, ss, es, slot, today, tomorrow, bi, si);
        if b.notify_hour == slot {
            let part = binding_tasks(b, ss, es, today, tomorrow);
            lemma_binding_tasks_shape(b, ss, es, today, tomorrow);
            assert(!same_binding_key(bs[bi], bs[bs.len() - 1]));
            assert forall|k: int| 0 <= k < part.len() implies !(#[trigger] part[k] == t) by {
                assert(part[k].chat_id == b.chat_id && part[k].location_id == b.location_id);
            }
            lemma_occ_zero_of_neq(part, t);
            lemma_occurrences_add(due_tasks(tb, ss, es, slot, today, tomorrow), part, t);
        }
    }
}

/// A task arises from some binding scheduled at `slot`, with that
/// binding's key, offset and label.
pub open spec fn task_from_slot(
    bs: Seq<BindingView>,
    slot: u8,
    today: Date,
    tomorrow: Date,
    t: NotificationTaskView,
) -> bool {
    exists|k: int|
        0 <= k < bs.len() && (#[trigger] bs[k]).notify_hour == slot && t == task_of(
            bs[k],
            t.waste_type,
            target_date(bs[k], today, tomorrow),
        )
}

/// Every due task names a binding that is scheduled at the queried slot and
/// carries that binding's offset and label: nothing comes from a binding
/// scheduled at another hour.
pub proof fn lemma_matcher_sound(
    bs: Seq<BindingView>,
    ss: Seq<SubscriptionView>,
    es: Seq<StoredEventView>,
    slot: u8,
    today: Date,
    tomorrow: Date,
)
    ensures
        forall|q: int|
            0 <= q < due_tasks(bs, ss, es, slot, today, tomorrow).len() ==> task_from_slot(
                bs,
                slot,
                today,
                tomorrow,
                #[trigger] due_tasks(bs, ss, es, slot, today, tomorrow)[q],
            ),
    decreases bs.len(),
{
    if bs.len() != 0 {
        let tb = bs.drop_last();
        let b = bs.last();
        assert(b == bs[bs.len() - 1]);
        lemma_matcher_sound(tb, ss, es, slot, today, tomorrow);
        let due = due_tasks(bs, ss, es, slot, today, tomorrow);
        let rest = due_tasks(tb, ss, es, slot, today, tomorrow);
        assert forall|q: int| 0 <= q < due.len() implies task_from_slot(
            bs,
            slot,
            today,
            tomorrow,
            #[trigger] due[q],
        ) by {
            if q < rest.len() {
                assert(due[q] == rest[q]);
                assert(task_from_slot(tb, slot, today, tomorrow, rest[q]));
                let k = choose|k: int|
                    0 <= k < tb.len() && (#[trigger] tb[k]).notify_hour == slot && rest[q]
                        == task_of(tb[k], rest[q].waste_type, target_date(tb[k], today, tomorrow));
                assert(bs[k] == tb[k]);
                assert(0 <= k < bs.len() && bs[k].notify_hour == slot && due[q] == task_of(
                    bs[k],
                    due[q].waste_type,
                    target_date(bs[k], today, tomorrow),
                ));
            } else {
                assert(b.notify_hour == slot);
                lemma_binding_task_form(b, ss, es, today, tomorrow, q - rest.len());
                assert(due[q] == binding_tasks(b, ss, es, today, tomorrow)[q - rest.len()]);
                let k = bs.len() - 1;
                assert(0 <= k < bs.len() && bs[k].notify_hour == slot && due[q] == task_of(
                    bs[k],
                    due[q].waste_type,
                    target_date(bs[k], today, tomorrow),
                ));
            }
        }
    }
}

/// Each of a binding's contributed tasks is `task_of` that binding and the
/// task's own category.
proof fn lemma_binding_task_form(
    b: BindingView,
    ss: Seq<SubscriptionView>,
    es: Seq<StoredEventView>,
    today: Date,
    tomorrow: Date,
    q: int,
)
    requires
        0 <= q < binding_tasks(b, ss, es, today, tomorrow).len(),
    ensures
        binding_tasks(b, ss, es, today, tomorrow)[q] == task_of(
            b,
            binding_tasks(b, ss, es, today, tomorrow)[q].waste_type,
            target_date(b, today, tomorrow),
        ),
    decreases ss.len(),
{
    if ss.len() != 0 {
        let rest = binding_tasks(b, ss.drop_last(), es, today, tomorrow);
        if q < rest.len() {
            lemma_binding_task_form(b, ss.drop_last(), es, today, tomorrow, q);
        }
    }
}

/// *Cascade*: after a subscriber is deleted, no binding of theirs remains
/// and listing their subscriptions under any location yields nothing.
pub proof fn lemma_cascade(s: StoreView, chat: i64, loc: Seq<char>)
    ensures
        !has_binding(bindings_without(s.bindings, chat), chat, loc),
        labels_of(subs_without(s.subs, chat), chat, loc) == Seq::<Seq<char>>::empty(),
{
    let bs1 = bindings_without(s.bindings, chat);
    assert forall|k: int| 0 <= k < bs1.len() implies !binding_matches(
        #[trigger] bs1[k],
        chat,
        loc,
    ) by {
        assert(bs1[k] == s.bindings.filter(crate::store::bind_not_chat(chat))[k]);
    }
    let ss1 = subs_without(s.subs, chat);
    assert forall|k: int| 0 <= k < ss1.len() implies !(sub_of_binding(chat, loc)(
        #[trigger] ss1[k],
    )) by {
        assert(ss1[k] == s.subs.filter(crate::store::sub_not_chat(chat))[k]);
    }
    lemma_filter_none(ss1, sub_of_binding(chat, loc));
    assert(labels_of(subs_without(s.subs, chat), chat, loc) =~= Seq::<Seq<char>>::empty());
}

} // verus!
