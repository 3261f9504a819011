//! What is read from the MIDI lane.
use crate::midi::{Control, Event, MidiRing, Note};
use vstd::prelude::*;

verus! {

/// A message that strikes a note.
pub open spec fn is_strike(event: Event) -> bool {
    0x90 <= event.status <= 0x9F && event.data2 > 0
}

/// A message that lets go of one.
pub open spec fn is_release(event: Event) -> bool {
    0x80 <= event.status <= 0x8F || (0x90 <= event.status <= 0x9F && event.data2 == 0)
}

/// Two messages are of the same key on the same channel.
pub open spec fn same_key(a: Event, b: Event) -> bool {
    a.status % 16 == b.status % 16 && a.data1 == b.data1
}

/// A status is a kind and a channel, and tells strikes from releases.
pub proof fn law_a_status_tells_strikes_from_releases(event: Event, other: Event)
    ensures
        event.spec_kind() + event.spec_channel() == event.status,
        event.spec_kind() % 16 == 0,
        event.spec_channel() < 16,
        event.on() == is_strike(event),
        event.off() == is_release(event),
        (event.voice() == other.voice()) == same_key(event, other),
{
}

/// Only messages of a channel are kept. One that is kept goes behind all the others, and the oldest
/// of these is given up for it exactly where the ring is full; any other message leaves the ring as
/// it is.
pub proof fn law_only_channel_messages_are_kept(
    before: &MidiRing,
    after: &MidiRing,
    event: Event,
)
    requires
        before.wf(),
        crate::midi::pushed(before, after, event),
    ensures
        0x80 <= event.status <= 0xEF ==> {
            &&& after.spec_written() == before.spec_written() + 1
            &&& after.spec_capacity() == before.spec_capacity()
            &&& before@.len() < before.spec_capacity() ==> after@ == before@.push(event)
            &&& before@.len() >= before.spec_capacity() ==> after@ == before@.push(
                event,
            ).drop_first()
        },
        event.status < 0x80 || event.status > 0xEF ==> *after == *before,
        before@.len() <= before.spec_capacity(),
        before@.len() <= before.spec_written(),
        before@.len() == before.spec_written() || before@.len() == before.spec_capacity(),
{
    crate::midi::law_what_is_held_is_counted(before);
    crate::midi::law_only_the_oldest_is_given_up(before, after, event);
}

/// How many of the messages between `i` and `j` strike the key that `i` strikes again.
pub open spec fn strikes_between(events: Seq<Event>, i: int, j: int) -> nat {
    events.subrange(i + 1, j).filter(
        |e: Event| is_strike(e) && same_key(e, events[i]),
    ).len()
}

/// How many of them let go of it.
pub open spec fn releases_between(events: Seq<Event>, i: int, j: int) -> nat {
    events.subrange(i + 1, j).filter(
        |e: Event| is_release(e) && same_key(e, events[i]),
    ).len()
}

proof fn lemma_depth(events: Seq<Event>, i: int, j: int)
    requires
        0 <= i < j <= events.len(),
    ensures
        crate::midi::depth(events, i, j) == 1 + strikes_between(events, i, j) - releases_between(
            events,
            i,
            j,
        ),
    decreases j,
{
    reveal(Seq::filter);
    let struck = |e: Event| is_strike(e) && same_key(e, events[i]);
    let let_go = |e: Event| is_release(e) && same_key(e, events[i]);
    let between = events.subrange(i + 1, j);
    if j == i + 1 {
        assert(between =~= Seq::empty());
        assert(between.filter(struck).len() == 0);
        assert(between.filter(let_go).len() == 0);
    } else {
        lemma_depth(events, i, j - 1);
        assert(between.drop_last() =~= events.subrange(i + 1, j - 1));
        assert(between.last() == events[j - 1]);
        law_a_status_tells_strikes_from_releases(events[j - 1], events[i]);
    }
}

/// A message lets go of a strike where it is a release of its key, as many strikes as releases of
/// that key lie between the two, and at no point between them more releases than strikes: a release
/// ends the most recent strike of its key that is still held.
pub proof fn law_a_release_ends_the_latest_strike_held(events: Seq<Event>, i: int, j: int)
    requires
        0 <= i < j < events.len(),
    ensures
        crate::midi::releases(events, i, j) <==> {
            &&& is_release(events[j])
            &&& same_key(events[j], events[i])
            &&& strikes_between(events, i, j) == releases_between(events, i, j)
            &&& forall|k: int|
                i < k <= j ==> #[trigger] strikes_between(events, i, k) >= releases_between(
                    events,
                    i,
                    k,
                )
        },
{
    lemma_depth(events, i, j);
    lemma_depth(events, i, j + 1);
    law_a_status_tells_strikes_from_releases(events[j], events[i]);
    if crate::midi::releases(events, i, j) {
        assert(crate::midi::depth(events, i, j) > 0);
        assert forall|k: int| i < k <= j implies #[trigger] strikes_between(events, i, k)
            >= releases_between(events, i, k) by {
            lemma_depth(events, i, k);
            assert(crate::midi::depth(events, i, k) > 0);
        }
    }
    if is_release(events[j]) && same_key(events[j], events[i]) && strikes_between(events, i, j)
        == releases_between(events, i, j) && (forall|k: int|
        i < k <= j ==> #[trigger] strikes_between(events, i, k) >= releases_between(events, i, k)) {
        assert forall|k: int| i < k <= j implies #[trigger] crate::midi::depth(events, i, k)
            > 0 by {
            lemma_depth(events, i, k);
            assert(strikes_between(events, i, k) >= releases_between(events, i, k));
        }
    }
}

/// One message lets go of a strike.
proof fn lemma_one_release(events: Seq<Event>, i: int, j: int, k: int)
    requires
        crate::midi::releases(events, i, j),
        crate::midi::releases(events, i, k),
    ensures
        j == k,
{
    if j < k {
        assert(crate::midi::depth(events, i, j + 1) > 0);
    } else if k < j {
        assert(crate::midi::depth(events, i, k + 1) > 0);
    }
}

/// What a note says of the strike at `i`: its frame, its channel, its key and its velocity.
pub open spec fn is_note_of(note: Note, struck: Event) -> bool {
    &&& note.start == struck.frame
    &&& note.channel == struck.status % 16
    &&& note.key == struck.data1
    &&& note.on_velocity == struck.data2
}

/// A note lasts until its key is let go: with ringing until then, and without no longer than the
/// selection. One that is never let go has no end.
pub open spec fn ends_with(
    note: Note,
    events: Seq<Event>,
    i: int,
    end: u64,
    let_ring: bool,
) -> bool {
    &&& forall|j: int|
        #[trigger] crate::midi::releases(events, i, j) ==> {
            &&& note.off_velocity == events[j].data2
            &&& let_ring || events[j].frame <= end ==> note.end == Some(events[j].frame)
            &&& !let_ring && events[j].frame > end ==> note.end == Some(end)
        }
    &&& (forall|j: int| !#[trigger] crate::midi::releases(events, i, j)) ==> note.end is None
        && note.off_velocity == 0
}

proof fn lemma_note_at(events: Seq<Event>, i: int, end: u64, let_ring: bool)
    ensures
        is_note_of(
            crate::midi::note_at(
                events,
                i,
                if let_ring {
                    None
                } else {
                    Some(end)
                },
            ),
            events[i],
        ),
        ends_with(
            crate::midi::note_at(
                events,
                i,
                if let_ring {
                    None
                } else {
                    Some(end)
                },
            ),
            events,
            i,
            end,
            let_ring,
        ),
{
    let edge = if let_ring {
        None
    } else {
        Some(end)
    };
    let note = crate::midi::note_at(events, i, edge);
    assert forall|j: int| #[trigger] crate::midi::releases(events, i, j) implies {
        &&& note.off_velocity == events[j].data2
        &&& let_ring || events[j].frame <= end ==> note.end == Some(events[j].frame)
        &&& !let_ring && events[j].frame > end ==> note.end == Some(end)
    } by {
        let k = choose|k: int| crate::midi::releases(events, i, k);
        lemma_one_release(events, i, j, k);
    }
}

/// Every note that is listed was struck inside the selection, and lasts until its key is let go.
pub proof fn law_a_listed_note_was_played(
    events: Seq<Event>,
    start: u64,
    end: u64,
    let_ring: bool,
    n: int,
) -> (i: int)
    requires
        0 <= n < crate::midi::notes_of(events, start, end, let_ring).len(),
    ensures
        0 <= i < events.len(),
        is_strike(events[i]),
        start <= events[i].frame < end,
        is_note_of(crate::midi::notes_of(events, start, end, let_ring)[n], events[i]),
        ends_with(
            crate::midi::notes_of(events, start, end, let_ring)[n],
            events,
            i,
            end,
            let_ring,
        ),
{
    let i = crate::midi::onsets(events, start, end)[n];
    lemma_onset(events, start, end, n);
    lemma_note_at(events, i, end, let_ring);
    i
}

proof fn lemma_onset(events: Seq<Event>, start: u64, end: u64, n: int)
    requires
        0 <= n < crate::midi::onsets(events, start, end).len(),
    ensures
        ({
            let i = crate::midi::onsets(events, start, end)[n];
            0 <= i < events.len() && is_strike(events[i]) && start <= events[i].frame < end
        }),
    decreases events.len(),
{
    let earlier = crate::midi::onsets(events.drop_last(), start, end);
    if n < earlier.len() {
        lemma_onset(events.drop_last(), start, end, n);
    }
}

/// Every strike inside the selection is listed as a note, as many notes as strikes, in the order in
/// which they were struck.
pub proof fn law_every_strike_inside_is_listed(
    events: Seq<Event>,
    start: u64,
    end: u64,
    let_ring: bool,
    i: int,
) -> (n: int)
    requires
        0 <= i < events.len(),
        is_strike(events[i]),
        start <= events[i].frame < end,
    ensures
        0 <= n < crate::midi::notes_of(events, start, end, let_ring).len(),
        n == events.take(i).filter(|e: Event| is_strike(e) && start <= e.frame < end).len(),
        is_note_of(crate::midi::notes_of(events, start, end, let_ring)[n], events[i]),
        ends_with(
            crate::midi::notes_of(events, start, end, let_ring)[n],
            events,
            i,
            end,
            let_ring,
        ),
        crate::midi::notes_of(events, start, end, let_ring).len() == events.filter(
            |e: Event| is_strike(e) && start <= e.frame < end,
        ).len(),
{
    let n = lemma_onset_of(events, start, end, i);
    lemma_onset_count(events, start, end);
    lemma_note_at(events, i, end, let_ring);
    n
}

proof fn lemma_onset_count(events: Seq<Event>, start: u64, end: u64)
    ensures
        crate::midi::onsets(events, start, end).len() == events.filter(
            |e: Event| is_strike(e) && start <= e.frame < end,
        ).len(),
    decreases events.len(),
{
    reveal(Seq::filter);
    if events.len() > 0 {
        lemma_onset_count(events.drop_last(), start, end);
    }
}

proof fn lemma_onset_of(events: Seq<Event>, start: u64, end: u64, i: int) -> (n: int)
    requires
        0 <= i < events.len(),
        is_strike(events[i]),
        start <= events[i].frame < end,
    ensures
        0 <= n < crate::midi::onsets(events, start, end).len(),
        crate::midi::onsets(events, start, end)[n] == i,
        n == events.take(i).filter(|e: Event| is_strike(e) && start <= e.frame < end).len(),
    decreases events.len(),
{
    let shorter = events.drop_last();
    let earlier = crate::midi::onsets(shorter, start, end);
    if i < shorter.len() {
        let n = lemma_onset_of(shorter, start, end, i);
        assert(shorter.take(i) =~= events.take(i));
        n
    } else {
        lemma_onset_count(shorter, start, end);
        assert(shorter =~= events.take(i));
        earlier.len() as int
    }
}

/// A controller that was changed before `at` is in the snapshot at the value of its last change.
pub proof fn law_a_snapshot_has_the_last_change(events: Seq<Event>, at: u64, last: int) -> (n: int)
    requires
        0 <= last < events.len(),
        0xB0 <= events[last].status <= 0xBF,
        events[last].frame < at,
        forall|i: int|
            last < i < events.len() ==> !(0xB0 <= (#[trigger] events[i]).status <= 0xBF
                && events[i].frame < at && same_key(events[i], events[last])),
    ensures
        0 <= n < crate::midi::controls_of(events, at).len(),
        crate::midi::controls_of(events, at)[n] == (Control {
            channel: (events[last].status - 0xB0) as u8,
            controller: events[last].data1,
            value: events[last].data2,
        }),
{
    let chosen = |e: Event| crate::midi::precedes(e, 0xB0, at);
    let parameter = |e: Event| e.voice();
    let n = crate::midi::lemma_firsts_cover(events, chosen, parameter, last);
    let which = events[last].voice();
    crate::midi::lemma_latest(events, chosen, parameter, which);
    let found = crate::midi::latest(events, chosen, parameter, which);
    assert(chosen(events[last]) && parameter(events[last]) == which);
    assert(found >= last);
    if found > last {
        law_a_status_tells_strikes_from_releases(events[found], events[last]);
        assert(chosen(events[found]));
    }
    n
}

/// The snapshot of controllers holds nothing but last changes, one for each.
pub proof fn law_a_snapshot_holds_only_last_changes(events: Seq<Event>, at: u64, n: int) -> (last:
    int)
    requires
        0 <= n < crate::midi::controls_of(events, at).len(),
    ensures
        0 <= last < events.len(),
        0xB0 <= events[last].status <= 0xBF,
        events[last].frame < at,
        forall|i: int|
            last < i < events.len() ==> !(0xB0 <= (#[trigger] events[i]).status <= 0xBF
                && events[i].frame < at && same_key(events[i], events[last])),
        crate::midi::controls_of(events, at)[n] == (Control {
            channel: (events[last].status - 0xB0) as u8,
            controller: events[last].data1,
            value: events[last].data2,
        }),
        forall|m: int|
            0 <= m < crate::midi::controls_of(events, at).len() && m != n ==> (
            #[trigger] crate::midi::controls_of(events, at)[m]).channel
                != crate::midi::controls_of(events, at)[n].channel || crate::midi::controls_of(
                events,
                at,
            )[m].controller != crate::midi::controls_of(events, at)[n].controller,
{
    let chosen = |e: Event| crate::midi::precedes(e, 0xB0, at);
    let parameter = |e: Event| e.voice();
    let last = crate::midi::law_snapshot_is_the_latest_of_each(events, chosen, parameter, n);
    let held = crate::midi::in_force(events, chosen, parameter);
    assert(crate::midi::precedes(events[last], 0xB0, at));
    assert forall|i: int| last < i < events.len() implies !(0xB0 <= (#[trigger] events[i]).status
        <= 0xBF && events[i].frame < at && same_key(events[i], events[last])) by {
        law_a_status_tells_strikes_from_releases(events[i], events[last]);
        if chosen(events[i]) {
            assert(parameter(events[i]) != parameter(events[last]));
        }
    }
    assert forall|m: int|
        0 <= m < crate::midi::controls_of(events, at).len() && m != n implies (
    #[trigger] crate::midi::controls_of(events, at)[m]).channel != crate::midi::controls_of(
        events,
        at,
    )[n].channel || crate::midi::controls_of(events, at)[m].controller
        != crate::midi::controls_of(events, at)[n].controller by {
        assert(parameter(held[m]) != parameter(events[last]));
    }
    last
}

/// A channel that was bent before `at` is in the snapshot of bends at its last bend.
pub proof fn law_a_snapshot_has_the_last_bend(events: Seq<Event>, at: u64, last: int) -> (n: int)
    requires
        0 <= last < events.len(),
        0xE0 <= events[last].status <= 0xEF,
        events[last].frame < at,
        forall|i: int|
            last < i < events.len() ==> !((#[trigger] events[i]).status == events[last].status
                && events[i].frame < at),
    ensures
        0 <= n < crate::midi::bends_of(events, at).len(),
        crate::midi::bends_of(events, at)[n].0 == events[last].status - 0xE0,
        crate::midi::bends_of(events, at)[n].1 == (events[last].data1 as u16) | ((
        events[last].data2 as u16) << 7),
{
    let chosen = |e: Event| crate::midi::precedes(e, 0xE0, at);
    let parameter = |e: Event| e.spec_channel();
    let n = crate::midi::lemma_firsts_cover(events, chosen, parameter, last);
    let which = events[last].spec_channel();
    crate::midi::lemma_latest(events, chosen, parameter, which);
    let found = crate::midi::latest(events, chosen, parameter, which);
    assert(chosen(events[last]) && parameter(events[last]) == which);
    assert(found >= last);
    if found > last {
        assert(chosen(events[found]));
        assert(events[found].status == events[last].status);
    }
    crate::laws::bytes::law_halves_are_joined(events[last].data1, events[last].data2);
    n
}

/// The snapshot of bends holds nothing but last bends, one for each channel.
pub proof fn law_a_snapshot_holds_only_last_bends(events: Seq<Event>, at: u64, n: int) -> (last:
    int)
    requires
        0 <= n < crate::midi::bends_of(events, at).len(),
    ensures
        0 <= last < events.len(),
        0xE0 <= events[last].status <= 0xEF,
        events[last].frame < at,
        crate::midi::bends_of(events, at)[n].0 == events[last].status - 0xE0,
        forall|i: int|
            last < i < events.len() ==> !((#[trigger] events[i]).status == events[last].status
                && events[i].frame < at),
        forall|m: int|
            0 <= m < crate::midi::bends_of(events, at).len() && m != n ==> (
            #[trigger] crate::midi::bends_of(events, at)[m]).0 != crate::midi::bends_of(
                events,
                at,
            )[n].0,
{
    let chosen = |e: Event| crate::midi::precedes(e, 0xE0, at);
    let parameter = |e: Event| e.spec_channel();
    let last = crate::midi::law_snapshot_is_the_latest_of_each(events, chosen, parameter, n);
    let held = crate::midi::in_force(events, chosen, parameter);
    assert(crate::midi::precedes(events[last], 0xE0, at));
    assert forall|i: int| last < i < events.len() implies !((#[trigger] events[i]).status
        == events[last].status && events[i].frame < at) by {
        if chosen(events[i]) {
            assert(parameter(events[i]) != parameter(events[last]));
        }
    }
    assert forall|m: int|
        0 <= m < crate::midi::bends_of(events, at).len() && m != n implies (
    #[trigger] crate::midi::bends_of(events, at)[m]).0 != crate::midi::bends_of(events, at)[n].0 by {
        assert(parameter(held[m]) != parameter(events[last]));
    }
    last
}

proof fn lemma_no_latest<K>(
    events: Seq<Event>,
    chosen: spec_fn(Event) -> bool,
    parameter: spec_fn(Event) -> K,
    which: K,
    k: int,
)
    requires
        crate::midi::latest(events, chosen, parameter, which) < 0,
        0 <= k < events.len(),
    ensures
        !(chosen(events[k]) && parameter(events[k]) == which),
    decreases events.len(),
{
    if k < events.len() - 1 {
        lemma_no_latest(events.drop_last(), chosen, parameter, which, k);
    }
}

/// Where a parameter first shows up stands before where a later one does.
proof fn lemma_firsts<K>(
    events: Seq<Event>,
    chosen: spec_fn(Event) -> bool,
    parameter: spec_fn(Event) -> K,
    n: int,
    k: int,
)
    requires
        0 <= n < crate::midi::firsts(events, chosen, parameter).len(),
    ensures
        ({
            let order = crate::midi::firsts(events, chosen, parameter);
            &&& 0 <= order[n] < events.len()
            &&& chosen(events[order[n]])
            &&& 0 < n ==> order[n - 1] < order[n]
            &&& 0 <= k < order[n] ==> !(chosen(events[k]) && parameter(events[k]) == parameter(
                events[order[n]],
            ))
        }),
    decreases events.len(),
{
    let before = events.drop_last();
    let earlier = crate::midi::firsts(before, chosen, parameter);
    let order = crate::midi::firsts(events, chosen, parameter);
    if n < earlier.len() {
        lemma_firsts(before, chosen, parameter, n, k);
        assert(order[n] == earlier[n]);
        if n > 0 {
            assert(order[n - 1] == earlier[n - 1]);
        }
    } else {
        if n > 0 {
            lemma_firsts(before, chosen, parameter, n - 1, 0);
            assert(order[n - 1] == earlier[n - 1]);
        }
        if 0 <= k < order[n] {
            lemma_no_latest(before, chosen, parameter, parameter(events.last()), k);
            assert(before[k] == events[k]);
        }
    }
}

proof fn lemma_latest_sets<K>(
    events: Seq<Event>,
    chosen: spec_fn(Event) -> bool,
    parameter: spec_fn(Event) -> K,
    which: K,
    k: int,
)
    requires
        0 <= k < events.len(),
        chosen(events[k]),
        parameter(events[k]) == which,
    ensures
        ({
            let last = crate::midi::latest(events, chosen, parameter, which);
            0 <= last < events.len() && chosen(events[last]) && parameter(events[last]) == which
        }),
    decreases events.len(),
{
    if !(chosen(events.last()) && parameter(events.last()) == which) {
        lemma_latest_sets(events.drop_last(), chosen, parameter, which, k);
        let last = crate::midi::latest(events.drop_last(), chosen, parameter, which);
        assert(events[last] == events.drop_last()[last]);
    }
}

/// The snapshot of controllers is in the order in which they were first changed: next to each other
/// in it, the first change of the one comes before the first change of the other.
pub proof fn law_controllers_come_as_they_were_first_changed(
    events: Seq<Event>,
    at: u64,
    n: int,
) -> (firsts: (int, int))
    requires
        0 < n < crate::midi::controls_of(events, at).len(),
    ensures
        ({
            let (i, j) = firsts;
            let one = crate::midi::controls_of(events, at)[n - 1];
            let other = crate::midi::controls_of(events, at)[n];
            &&& 0 <= i < j < events.len()
            &&& events[i].status == 0xB0 + one.channel && events[i].data1 == one.controller
            &&& events[i].frame < at
            &&& events[j].status == 0xB0 + other.channel && events[j].data1 == other.controller
            &&& events[j].frame < at
            &&& forall|k: int|
                0 <= k < i ==> !((#[trigger] events[k]).status == events[i].status
                    && events[k].data1 == events[i].data1 && events[k].frame < at)
            &&& forall|k: int|
                0 <= k < j ==> !((#[trigger] events[k]).status == events[j].status
                    && events[k].data1 == events[j].data1 && events[k].frame < at)
        }),
{
    let chosen = |e: Event| crate::midi::precedes(e, 0xB0, at);
    let parameter = |e: Event| e.voice();
    let order = crate::midi::firsts(events, chosen, parameter);
    let i = order[n - 1];
    let j = order[n];
    lemma_firsts(events, chosen, parameter, n - 1, 0);
    lemma_firsts(events, chosen, parameter, n, 0);
    lemma_latest_sets(events, chosen, parameter, parameter(events[i]), i);
    lemma_latest_sets(events, chosen, parameter, parameter(events[j]), j);
    assert forall|k: int| 0 <= k < i implies !((#[trigger] events[k]).status == events[i].status
        && events[k].data1 == events[i].data1 && events[k].frame < at) by {
        lemma_firsts(events, chosen, parameter, n - 1, k);
    }
    assert forall|k: int| 0 <= k < j implies !((#[trigger] events[k]).status == events[j].status
        && events[k].data1 == events[j].data1 && events[k].frame < at) by {
        lemma_firsts(events, chosen, parameter, n, k);
    }
    (i, j)
}

/// The snapshot of bends is in the order in which the channels were first bent.
pub proof fn law_bends_come_as_they_were_first_made(
    events: Seq<Event>,
    at: u64,
    n: int,
) -> (firsts: (int, int))
    requires
        0 < n < crate::midi::bends_of(events, at).len(),
    ensures
        ({
            let (i, j) = firsts;
            let one = crate::midi::bends_of(events, at)[n - 1].0;
            let other = crate::midi::bends_of(events, at)[n].0;
            &&& 0 <= i < j < events.len()
            &&& events[i].status == 0xE0 + one && events[i].frame < at
            &&& events[j].status == 0xE0 + other && events[j].frame < at
            &&& forall|k: int|
                0 <= k < i ==> !((#[trigger] events[k]).status == events[i].status
                    && events[k].frame < at)
            &&& forall|k: int|
                0 <= k < j ==> !((#[trigger] events[k]).status == events[j].status
                    && events[k].frame < at)
        }),
{
    let chosen = |e: Event| crate::midi::precedes(e, 0xE0, at);
    let parameter = |e: Event| e.spec_channel();
    let order = crate::midi::firsts(events, chosen, parameter);
    let i = order[n - 1];
    let j = order[n];
    lemma_firsts(events, chosen, parameter, n - 1, 0);
    lemma_firsts(events, chosen, parameter, n, 0);
    lemma_latest_sets(events, chosen, parameter, parameter(events[i]), i);
    lemma_latest_sets(events, chosen, parameter, parameter(events[j]), j);
    assert forall|k: int| 0 <= k < i implies !((#[trigger] events[k]).status == events[i].status
        && events[k].frame < at) by {
        lemma_firsts(events, chosen, parameter, n - 1, k);
    }
    assert forall|k: int| 0 <= k < j implies !((#[trigger] events[k]).status == events[j].status
        && events[k].frame < at) by {
        lemma_firsts(events, chosen, parameter, n, k);
    }
    (i, j)
}

} // verus!
