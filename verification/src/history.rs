//! What holds of the store after any run of events: which sources a cycle
//! updates and which it leaves alone, and that nothing stands in the store
//! that no fetch put there.

use crate::exposition::{
    grouping, lemma_grouping_lists_each_entry_once, lemma_sample_is_published, line_of,
};
use crate::gauges::{field_named, lemma_field_named, metric_name};
use crate::reading::{AirData, Field};
use crate::refresh::{
    lemma_recorded, lemma_step_keeps_valid, lookup, step_model, valid, ActionView, EventView,
    FetchErrorView, LoopState, Phase, StepView,
};
use crate::store::{ascending, key_of, lemma_listed, table_of, EntryView, Key};
use vstd::prelude::*;

verus! {

/// The loop and the table after the events of `events`, one step each.
pub open spec fn run(state: LoopState, table: Map<Key, u64>, events: Seq<EventView>) -> (
    LoopState,
    Map<Key, u64>,
)
    decreases events.len(),
{
    if events.len() == 0 {
        (state, table)
    } else {
        let before = run(state, table, events.drop_last());
        let after = step_model(before.0, before.1, events.last());
        (after.state, after.table)
    }
}

/// A run leaves a loop valid, with the sources and the interval it had.
pub proof fn lemma_run_keeps_valid(state: LoopState, table: Map<Key, u64>, events: Seq<EventView>)
    requires
        valid(state),
    ensures
        valid(run(state, table, events).0),
        run(state, table, events).0.sources == state.sources,
        run(state, table, events).0.interval == state.interval,
    decreases events.len(),
{
    if events.len() > 0 {
        lemma_run_keeps_valid(state, table, events.drop_last());
        let before = run(state, table, events.drop_last());
        lemma_step_keeps_valid(before.0, before.1, events.last());
    }
}

/// Of the first `count` fetches of a cycle, the last that gave an
/// observation of `source`: what the cycle leaves in the store for it.
/// `outcomes[i]` is how the fetch of `sources[i]` went.
pub open spec fn last_report(
    sources: Seq<Seq<char>>,
    outcomes: Seq<EventView>,
    source: Seq<char>,
    count: nat,
) -> Option<AirData>
    decreases count,
{
    if count == 0 {
        None
    } else if sources[count - 1] == source && outcomes[count - 1] is Fetched {
        Some(outcomes[count - 1]->Fetched_0)
    } else {
        last_report(sources, outcomes, source, (count - 1) as nat)
    }
}

/// What stands under `key` once `report` was recorded over `table`: the
/// measurement of the key's gauge, where there is a report and the key's
/// metric is a gauge's; else what `table` has.
pub open spec fn refreshed(table: Map<Key, u64>, report: Option<AirData>, key: Key) -> Option<u64> {
    match (report, field_named(key.0)) {
        (Some(data), Some(field)) => Some(data.value_of(field)),
        _ => lookup(table, key),
    }
}

/// The events of one cycle: the wake-up, then how each fetch went.
pub open spec fn cycle(outcomes: Seq<EventView>) -> Seq<EventView> {
    seq![EventView::Wake] + outcomes
}

/// After the wake-up and the first `count` fetches of a cycle, the loop is
/// at the next source, or asleep after the last, and the table holds the
/// last report of each source over what it held before.
proof fn lemma_cycle_so_far(
    state: LoopState,
    table: Map<Key, u64>,
    outcomes: Seq<EventView>,
    count: nat,
)
    requires
        valid(state),
        state.phase !is Fetching,
        outcomes.len() == state.sources.len(),
        forall|i: int| 0 <= i < outcomes.len() ==> (#[trigger] outcomes[i]) !is Wake,
        count <= outcomes.len(),
    ensures
        run(state, table, cycle(outcomes.take(count as int))).0 == (LoopState {
            phase: if count < outcomes.len() {
                Phase::Fetching { index: count as usize }
            } else {
                Phase::Sleeping
            },
            ..state
        }),
        forall|key: Key|
            lookup(#[trigger] run(state, table, cycle(outcomes.take(count as int))).1, key)
                == refreshed(table, last_report(state.sources, outcomes, key.1, count), key),
    decreases count,
{
    let events = cycle(outcomes.take(count as int));
    if count == 0 {
        assert(events.drop_last() =~= Seq::<EventView>::empty());
        assert(events.last() == EventView::Wake);
        assert(run(state, table, events.drop_last()) == (state, table));
    } else {
        let earlier = cycle(outcomes.take(count - 1));
        lemma_cycle_so_far(state, table, outcomes, (count - 1) as nat);
        assert(events.drop_last() =~= earlier);
        assert(events.last() == outcomes[count - 1]);
        let before = run(state, table, earlier);
        let source = state.sources[count - 1];
        assert(before.0.phase == Phase::Fetching { index: (count - 1) as usize });
        assert forall|key: Key|
            lookup(#[trigger] run(state, table, events).1, key) == refreshed(
                table,
                last_report(state.sources, outcomes, key.1, count),
                key,
            ) by {
            assert(lookup(before.1, key) == refreshed(
                table,
                last_report(state.sources, outcomes, key.1, (count - 1) as nat),
                key,
            ));
            if outcomes[count - 1] is Fetched {
                lemma_recorded(before.1, source, outcomes[count - 1]->Fetched_0, key);
            }
        }
    }
}

/// A cycle updates the sources whose fetch succeeded, and no others.
///
/// The loop is between cycles and is handed a wake-up and then, for each
/// source in turn, how its fetch went. Afterwards it is asleep. Under every
/// key of a source that gave an observation stands, for each gauge, the
/// measurement of the last observation that the source gave in this cycle.
/// Every other key is as it was before the cycle: present with the value it
/// had, or absent. So a source whose fetch failed keeps what it had, or
/// stays without entries.
pub proof fn lemma_cycle_updates_what_succeeded(
    state: LoopState,
    table: Map<Key, u64>,
    outcomes: Seq<EventView>,
)
    requires
        valid(state),
        state.phase !is Fetching,
        outcomes.len() == state.sources.len(),
        forall|i: int| 0 <= i < outcomes.len() ==> (#[trigger] outcomes[i]) !is Wake,
    ensures
        run(state, table, cycle(outcomes)).0 == (LoopState { phase: Phase::Sleeping, ..state }),
        forall|key: Key|
            lookup(#[trigger] run(state, table, cycle(outcomes)).1, key) == refreshed(
                table,
                last_report(state.sources, outcomes, key.1, outcomes.len()),
                key,
            ),
{
    lemma_cycle_so_far(state, table, outcomes, outcomes.len());
    assert(outcomes.take(outcomes.len() as int) =~= outcomes);
}

/// What the loop hands back for each event of `events`, in order.
pub open spec fn steps(state: LoopState, table: Map<Key, u64>, events: Seq<EventView>) -> Seq<
    StepView,
>
    decreases events.len(),
{
    if events.len() == 0 {
        Seq::empty()
    } else {
        let before = run(state, table, events.drop_last());
        steps(state, table, events.drop_last()).push(
            step_model(before.0, before.1, events.last()).step,
        )
    }
}

/// What a cycle over the sources of `state` is to hand back, whatever the
/// table holds: first the fetch of the first source; then, after each
/// fetch, the failure if it failed, with the fetch of the next source or,
/// after the last, the sleep.
pub open spec fn schedule(state: LoopState, outcomes: Seq<EventView>) -> Seq<StepView> {
    Seq::new(
        (outcomes.len() + 1) as nat,
        |i: int|
            StepView {
                action: if i < state.sources.len() {
                    ActionView::Fetch { source: state.sources[i] }
                } else {
                    ActionView::Sleep { seconds: state.interval }
                },
                failure: if i > 0 && outcomes[i - 1] is Failed {
                    Some(
                        FetchErrorView {
                            source: state.sources[i - 1],
                            cause: outcomes[i - 1]->Failed_0,
                        },
                    )
                } else {
                    None
                },
            },
    )
}

/// A cycle tries every source, in order, however the fetches before went.
///
/// The loop is between cycles and is handed a wake-up and then, for each
/// source in turn, how its fetch went. It asks for the fetch of each source
/// once, in the order of the sources, and then for the sleep; a failure
/// neither ends the cycle nor skips a source, and is handed back with the
/// name of the source that failed.
pub proof fn lemma_cycle_tries_every_source(
    state: LoopState,
    table: Map<Key, u64>,
    outcomes: Seq<EventView>,
)
    requires
        valid(state),
        state.phase !is Fetching,
        outcomes.len() == state.sources.len(),
        forall|i: int| 0 <= i < outcomes.len() ==> (#[trigger] outcomes[i]) !is Wake,
    ensures
        steps(state, table, cycle(outcomes)) == schedule(state, outcomes),
{
    lemma_steps_so_far(state, table, outcomes, outcomes.len());
    assert(outcomes.take(outcomes.len() as int) =~= outcomes);
    assert(schedule(state, outcomes).take(outcomes.len() as int + 1) =~= schedule(state, outcomes));
}

/// After the wake-up and the first `count` fetches of a cycle, the loop has
/// handed back the first `count + 1` steps of the schedule.
proof fn lemma_steps_so_far(
    state: LoopState,
    table: Map<Key, u64>,
    outcomes: Seq<EventView>,
    count: nat,
)
    requires
        valid(state),
        state.phase !is Fetching,
        outcomes.len() == state.sources.len(),
        forall|i: int| 0 <= i < outcomes.len() ==> (#[trigger] outcomes[i]) !is Wake,
        count <= outcomes.len(),
    ensures
        steps(state, table, cycle(outcomes.take(count as int))) == schedule(state, outcomes).take(
            count as int + 1,
        ),
    decreases count,
{
    let events = cycle(outcomes.take(count as int));
    let wanted = schedule(state, outcomes).take(count as int + 1);
    if count == 0 {
        assert(events.drop_last() =~= Seq::<EventView>::empty());
        assert(events.last() == EventView::Wake);
        assert(run(state, table, events.drop_last()) == (state, table));
        assert(steps(state, table, events.drop_last()) =~= Seq::<StepView>::empty());
        assert(steps(state, table, events) =~= wanted);
    } else {
        let earlier = cycle(outcomes.take(count - 1));
        lemma_steps_so_far(state, table, outcomes, (count - 1) as nat);
        lemma_cycle_so_far(state, table, outcomes, (count - 1) as nat);
        assert(events.drop_last() =~= earlier);
        assert(events.last() == outcomes[count - 1]);
        assert(steps(state, table, events) =~= wanted);
    }
}

/// The report of a source is the observation of its last fetch that
/// succeeded.
pub proof fn lemma_report_of_last_success(
    sources: Seq<Seq<char>>,
    outcomes: Seq<EventView>,
    count: nat,
    last: int,
)
    requires
        0 <= last < count <= outcomes.len(),
        outcomes[last] is Fetched,
        forall|i: int|
            last < i < count && sources[i] == sources[last] ==> (#[trigger] outcomes[i])
                !is Fetched,
    ensures
        last_report(sources, outcomes, sources[last], count) == Some(outcomes[last]->Fetched_0),
    decreases count,
{
    if last < count - 1 {
        lemma_report_of_last_success(sources, outcomes, (count - 1) as nat, last);
    }
}

/// A source whose every fetch in a cycle failed has no report.
pub proof fn lemma_no_report_without_success(
    sources: Seq<Seq<char>>,
    outcomes: Seq<EventView>,
    source: Seq<char>,
    count: nat,
)
    requires
        count <= outcomes.len(),
        forall|i: int|
            0 <= i < count && sources[i] == source ==> (#[trigger] outcomes[i]) !is Fetched,
    ensures
        last_report(sources, outcomes, source, count) is None,
    decreases count,
{
    if count > 0 {
        lemma_no_report_without_success(sources, outcomes, source, (count - 1) as nat);
    }
}

/// The fetch at `place` gave an observation, and no later fetch of the same
/// source in the cycle gave another.
pub open spec fn succeeded_last(
    sources: Seq<Seq<char>>,
    outcomes: Seq<EventView>,
    place: int,
) -> bool {
    &&& 0 <= place < outcomes.len()
    &&& outcomes[place] is Fetched
    &&& forall|i: int|
        place < i < outcomes.len() && sources[i] == sources[place] ==> (#[trigger] outcomes[i])
            !is Fetched
}

/// No fetch of `source` in the cycle gave an observation: each failed, or
/// the source is none of the loop's.
pub open spec fn never_succeeded(
    sources: Seq<Seq<char>>,
    outcomes: Seq<EventView>,
    source: Seq<char>,
) -> bool {
    forall|i: int|
        0 <= i < outcomes.len() && sources[i] == source ==> (#[trigger] outcomes[i]) !is Fetched
}

/// A failure touches nothing but its own source, and of that nothing.
///
/// The loop is between cycles and is handed a wake-up and then, for each
/// source in turn, how its fetch went. Afterwards every gauge of a source
/// whose fetch succeeded holds the measurement that was fetched, and every
/// key of a source whose fetch failed is as it was before the cycle: it
/// holds what an earlier cycle left, or is absent if the source has never
/// answered.
pub proof fn lemma_cycle_isolates_failures(
    state: LoopState,
    table: Map<Key, u64>,
    outcomes: Seq<EventView>,
)
    requires
        valid(state),
        state.phase !is Fetching,
        outcomes.len() == state.sources.len(),
        forall|i: int| 0 <= i < outcomes.len() ==> (#[trigger] outcomes[i]) !is Wake,
    ensures
        forall|place: int, field: Field| #[trigger]
            succeeded_last(state.sources, outcomes, place) ==> lookup(
                run(state, table, cycle(outcomes)).1,
                (#[trigger] metric_name(field), state.sources[place]),
            ) == Some(outcomes[place]->Fetched_0.value_of(field)),
        forall|key: Key|
            never_succeeded(state.sources, outcomes, key.1) ==> #[trigger] lookup(
                run(state, table, cycle(outcomes)).1,
                key,
            ) == lookup(table, key),
{
    let end = run(state, table, cycle(outcomes)).1;
    lemma_cycle_updates_what_succeeded(state, table, outcomes);
    assert forall|place: int, field: Field| #[trigger]
        succeeded_last(state.sources, outcomes, place) implies lookup(
        end,
        (#[trigger] metric_name(field), state.sources[place]),
    ) == Some(outcomes[place]->Fetched_0.value_of(field)) by {
        lemma_report_of_last_success(state.sources, outcomes, outcomes.len(), place);
        lemma_field_named(field);
    }
    assert forall|key: Key|
        never_succeeded(state.sources, outcomes, key.1) implies #[trigger] lookup(end, key)
        == lookup(table, key) by {
        lemma_no_report_without_success(state.sources, outcomes, key.1, outcomes.len());
    }
}

/// Some fetch of `source` has given an observation in the course of
/// `events`.
pub open spec fn heard_from(
    state: LoopState,
    table: Map<Key, u64>,
    events: Seq<EventView>,
    source: Seq<char>,
) -> bool {
    exists|n: int|
        0 <= n < events.len() && events[n] is Fetched && fetching(
            #[trigger] run(state, table, events.take(n)).0,
            source,
        )
}

/// The fetch of `source` is under way.
pub open spec fn fetching(state: LoopState, source: Seq<char>) -> bool {
    state.phase matches Phase::Fetching { index } && state.sources[index as int] == source
}

/// Nothing stands in the store that no fetch put there.
///
/// Whatever the events, a key that the table holds afterwards was there
/// before, or is the key of a gauge and of a source that has given an
/// observation. A store that began empty therefore has no entry, under any
/// metric, for a source whose fetch has never succeeded.
pub proof fn lemma_entries_come_from_reports(
    state: LoopState,
    table: Map<Key, u64>,
    events: Seq<EventView>,
    key: Key,
)
    requires
        valid(state),
        run(state, table, events).1.dom().contains(key),
    ensures
        table.dom().contains(key) || (heard_from(state, table, events, key.1) && field_named(
            key.0,
        ) is Some),
    decreases events.len(),
{
    if events.len() > 0 {
        let earlier = events.drop_last();
        let before = run(state, table, earlier);
        lemma_run_keeps_valid(state, table, earlier);
        if before.1.dom().contains(key) {
            lemma_entries_come_from_reports(state, table, earlier, key);
            if heard_from(state, table, earlier, key.1) {
                let n = choose|n: int|
                    0 <= n < earlier.len() && earlier[n] is Fetched && fetching(
                        #[trigger] run(state, table, earlier.take(n)).0,
                        key.1,
                    );
                assert(events.take(n) =~= earlier.take(n));
                assert(events[n] == earlier[n]);
            }
        } else {
            let index = before.0.phase->Fetching_index;
            lemma_recorded(before.1, state.sources[index as int], events.last()->Fetched_0, key);
            assert(events.take(events.len() - 1) =~= earlier);
            assert(fetching(run(state, table, events.take(events.len() - 1)).0, key.1));
        }
    }
}

/// No source is published before it has reported.
///
/// The store began empty and `list` is a snapshot of it after the events of
/// `events`. Every sample of every family gathered from `list` names a
/// source of which some fetch has succeeded: of a source that has never
/// answered nothing is published, under any metric and with any value.
pub proof fn lemma_no_sample_before_first_report(
    state: LoopState,
    events: Seq<EventView>,
    list: Seq<EntryView>,
    which: int,
    place: int,
)
    requires
        valid(state),
        ascending(list),
        table_of(list) == run(state, Map::empty(), events).1,
        0 <= which < grouping(list).len(),
        0 <= place < grouping(list)[which].samples.len(),
    ensures
        heard_from(state, Map::empty(), events, grouping(list)[which].samples[place].source),
{
    let line = line_of(grouping(list)[which], place);
    lemma_grouping_lists_each_entry_once(list);
    lemma_sample_is_published(grouping(list), which, place);
    let k = choose|k: int| 0 <= k < list.len() && list[k] == line;
    lemma_listed(list, k);
    lemma_entries_come_from_reports(state, Map::empty(), events, key_of(line));
}

/// The table after the entries of `writes` were written over `table`, one
/// after the other.
pub open spec fn applied(table: Map<Key, u64>, writes: Seq<EntryView>) -> Map<Key, u64>
    decreases writes.len(),
{
    if writes.len() == 0 {
        table
    } else {
        applied(table, writes.drop_last()).insert(key_of(writes.last()), writes.last().value)
    }
}

/// `writes[n]` is the last write to `key`.
pub open spec fn last_write(writes: Seq<EntryView>, key: Key, n: int) -> bool {
    &&& 0 <= n < writes.len()
    &&& key_of(writes[n]) == key
    &&& forall|m: int| n < m < writes.len() ==> key_of(#[trigger] writes[m]) != key
}

/// A store holds written values only.
///
/// After any writes to an empty store, in whatever order the writers took
/// their turns, a key that the store holds was written, and its value is the
/// one that the last write to it gave: never an earlier one, and never one
/// that nobody wrote.
pub proof fn lemma_values_were_written(writes: Seq<EntryView>, key: Key)
    requires
        applied(Map::empty(), writes).dom().contains(key),
    ensures
        exists|n: int| #[trigger]
            last_write(writes, key, n) && applied(Map::empty(), writes)[key] == writes[n].value,
    decreases writes.len(),
{
    if writes.len() > 0 {
        let earlier = writes.drop_last();
        if key_of(writes.last()) == key {
            assert(last_write(writes, key, writes.len() - 1));
        } else {
            lemma_values_were_written(earlier, key);
            let n = choose|n: int| #[trigger]
                last_write(earlier, key, n) && applied(Map::empty(), earlier)[key]
                    == earlier[n].value;
            assert forall|m: int| n < m < writes.len() implies key_of(#[trigger] writes[m])
                != key by {
                if m < earlier.len() {
                    assert(writes[m] == earlier[m]);
                }
            }
            assert(last_write(writes, key, n));
        }
    }
}

} // verus!
