//! The refresh loop: which source to fetch next, what to write when a fetch
//! comes back, and when to sleep.
//!
//! The loop itself neither fetches nor sleeps. Whoever drives it performs the
//! action it is handed and reports back what happened; `step` then says what
//! to do next. A fetch that fails is reported and changes nothing in the
//! store; the loop goes on to the next source as after a success.

use crate::gauges::{
    field_named, lemma_field_named, lemma_metric_names_differ, metric_name, name_of,
};
use crate::reading::{all_fields, AirData, Field};
use crate::store::{Key, MetricStore};
use vstd::prelude::*;

verus! {

/// The seconds between two cycles, unless the loop is made with another
/// number.
pub const DEFAULT_INTERVAL_SECS: u64 = 30;

/// Where the loop stands in its cycle.
#[derive(Clone, Copy, Debug, PartialEq, Eq, Structural)]
pub enum Phase {
    /// No cycle has begun.
    Idle,
    /// The fetch of the source at `index` is under way.
    Fetching { index: usize },
    /// Every source was tried; the next cycle begins at the next wake-up.
    Sleeping,
}

/// What happened outside the loop.
#[derive(Debug, PartialEq, Eq)]
pub enum Event {
    /// It is time to begin a cycle: the loop was started, or its sleep ended.
    Wake,
    /// The fetch that was under way gave an observation.
    Fetched(AirData),
    /// The fetch that was under way failed, for the reason given.
    Failed(String),
}

/// What an `Event` says.
pub enum EventView {
    Wake,
    Fetched(AirData),
    Failed(Seq<char>),
}

impl View for Event {
    type V = EventView;

    open spec fn view(&self) -> EventView {
        match self {
            Event::Wake => EventView::Wake,
            Event::Fetched(data) => EventView::Fetched(*data),
            Event::Failed(cause) => EventView::Failed(cause@),
        }
    }
}

/// What the driver of the loop is to do next.
#[derive(Debug, PartialEq, Eq)]
pub enum Action {
    /// Fetch an observation from `source`, and report how it went.
    Fetch { source: String },
    /// Sleep for `seconds`, then report a wake-up.
    Sleep { seconds: u64 },
    /// Nothing new: the event was not the one the loop is waiting for.
    Wait,
}

/// What an `Action` says.
pub enum ActionView {
    Fetch { source: Seq<char> },
    Sleep { seconds: u64 },
    Wait,
}

impl View for Action {
    type V = ActionView;

    open spec fn view(&self) -> ActionView {
        match self {
            Action::Fetch { source } => ActionView::Fetch { source: source@ },
            Action::Sleep { seconds } => ActionView::Sleep { seconds: *seconds },
            Action::Wait => ActionView::Wait,
        }
    }
}

/// A fetch that failed: the source, and why.
#[derive(Debug, PartialEq, Eq)]
pub struct FetchError {
    pub source: String,
    pub cause: String,
}

/// What a `FetchError` says.
pub struct FetchErrorView {
    pub source: Seq<char>,
    pub cause: Seq<char>,
}

impl View for FetchError {
    type V = FetchErrorView;

    open spec fn view(&self) -> FetchErrorView {
        FetchErrorView { source: self.source@, cause: self.cause@ }
    }
}

impl FetchError {
    /// The sentence that reports the failure.
    pub open spec fn message_text(self) -> Seq<char> {
        "unable to get air-data from "@ + self.source@ + ": "@ + self.cause@
    }

    /// The sentence that reports the failure.
    pub fn message(&self) -> (message: String)
        ensures
            message@ == self.message_text(),
    {
        let mut message = "unable to get air-data from ".to_owned();
        message.append(self.source.as_str());
        message.append(": ");
        message.append(self.cause.as_str());
        message
    }
}

/// What one step of the loop hands back: the next action, and the failure
/// to report, if the event was one.
#[derive(Debug, PartialEq, Eq)]
pub struct Step {
    pub action: Action,
    pub failure: Option<FetchError>,
}

/// What a `Step` says.
pub struct StepView {
    pub action: ActionView,
    pub failure: Option<FetchErrorView>,
}

impl View for Step {
    type V = StepView;

    open spec fn view(&self) -> StepView {
        StepView {
            action: self.action@,
            failure: match self.failure {
                Some(failure) => Some(failure@),
                None => None,
            },
        }
    }
}

/// Why a loop cannot be made.
#[derive(Clone, Copy, Debug, PartialEq, Eq, Structural)]
pub enum ConfigError {
    /// No source was given.
    NoSources,
}

/// The table after the first `count` measurements of `data` were written
/// under `source`, in the order of `all_fields`.
pub open spec fn written(table: Map<Key, u64>, source: Seq<char>, data: AirData, count: nat) -> Map<
    Key,
    u64,
>
    decreases count,
{
    if count == 0 {
        table
    } else {
        let field = all_fields()[count - 1];
        written(table, source, data, (count - 1) as nat).insert(
            (metric_name(field), source),
            data.value_of(field),
        )
    }
}

/// The table after every measurement of `data` was written under `source`.
pub open spec fn recorded(table: Map<Key, u64>, source: Seq<char>, data: AirData) -> Map<Key, u64> {
    written(table, source, data, all_fields().len())
}

/// The value filed under `key`, if there is one.
pub open spec fn lookup(table: Map<Key, u64>, key: Key) -> Option<u64> {
    if table.dom().contains(key) {
        Some(table[key])
    } else {
        None
    }
}

/// Recording an observation files each of its measurements under its
/// gauge's name and the source, and leaves every other key as it was.
pub proof fn lemma_recorded(table: Map<Key, u64>, source: Seq<char>, data: AirData, key: Key)
    ensures
        lookup(recorded(table, source, data), key) == match field_named(key.0) {
            Some(field) if key.1 == source => Some(data.value_of(field)),
            _ => lookup(table, key),
        },
{
    assert forall|a: Field, b: Field| a != b implies metric_name(a) != metric_name(b) by {
        lemma_metric_names_differ(a, b);
    }
    assert forall|field: Field| field_named(metric_name(field)) == Some(field) by {
        lemma_field_named(field);
    }
    reveal_with_fuel(written, 7);
    assert(all_fields().len() == 6);
    assert(all_fields()[0] == Field::Score);
    assert(all_fields()[1] == Field::Temp);
    assert(all_fields()[2] == Field::Humid);
    assert(all_fields()[3] == Field::Co2);
    assert(all_fields()[4] == Field::Voc);
    assert(all_fields()[5] == Field::Pm25);
}

/// Writes every measurement of `data` into `store` under `source`, in the
/// order of `all_fields`.
pub fn record(store: &mut MetricStore, source: &str, data: &AirData)
    ensures
        final(store)@ == recorded(old(store)@, source@, *data),
{
    let fields = Field::all();
    let mut i: usize = 0;
    while i < fields.len()
        invariant
            i <= fields.len(),
            fields@ == all_fields(),
            store@ == written(old(store)@, source@, *data, i as nat),
        decreases fields.len() - i,
    {
        let field = fields[i];
        let name = name_of(field);
        store.set(name.as_str(), source, data.value(field));
        i = i + 1;
    }
}

/// The loop as its steps see it.
pub struct LoopState {
    pub sources: Seq<Seq<char>>,
    pub interval: u64,
    pub phase: Phase,
}

/// A loop has a source to fetch, and fetches none that it does not have.
pub open spec fn valid(state: LoopState) -> bool {
    &&& 0 < state.sources.len() <= usize::MAX
    &&& state.phase matches Phase::Fetching { index } ==> index < state.sources.len()
}

/// What one step comes to: the loop and the table after it, and what it
/// hands back.
pub struct Transition {
    pub state: LoopState,
    pub table: Map<Key, u64>,
    pub step: StepView,
}

/// The cycle begins: the first source is fetched.
pub open spec fn begun(state: LoopState, table: Map<Key, u64>) -> Transition {
    Transition {
        state: LoopState { phase: Phase::Fetching { index: 0 }, ..state },
        table,
        step: StepView { action: ActionView::Fetch { source: state.sources[0] }, failure: None },
    }
}

/// Where the loop stands once the fetch of the source at `index` is over:
/// at the next source, or asleep after the last.
pub open spec fn phase_after(state: LoopState, index: usize) -> Phase {
    if index + 1 < state.sources.len() {
        Phase::Fetching { index: (index + 1) as usize }
    } else {
        Phase::Sleeping
    }
}

/// What is to be done once the fetch of the source at `index` is over: the
/// fetch of the next source, or the sleep after the last.
pub open spec fn action_after(state: LoopState, index: usize) -> ActionView {
    if index + 1 < state.sources.len() {
        ActionView::Fetch { source: state.sources[index + 1] }
    } else {
        ActionView::Sleep { seconds: state.interval }
    }
}

/// The fetch of the source at `index` is over, with `table` and `failure`
/// to show for it: the loop moves on.
pub open spec fn moved_on(
    state: LoopState,
    index: usize,
    table: Map<Key, u64>,
    failure: Option<FetchErrorView>,
) -> Transition {
    Transition {
        state: LoopState { phase: phase_after(state, index), ..state },
        table,
        step: StepView { action: action_after(state, index), failure },
    }
}

/// What `event` does to the loop and to the table.
///
/// A wake-up begins a cycle unless one is under way. A fetched observation
/// is recorded under the source whose fetch was under way; a failure is
/// handed back with that source's name and leaves the table as it is; after
/// either the loop moves on. Any other event changes nothing.
pub open spec fn step_model(
    state: LoopState,
    table: Map<Key, u64>,
    event: EventView,
) -> Transition {
    match (state.phase, event) {
        (Phase::Idle, EventView::Wake) => begun(state, table),
        (Phase::Sleeping, EventView::Wake) => begun(state, table),
        (Phase::Fetching { index }, EventView::Fetched(data)) => moved_on(
            state,
            index,
            recorded(table, state.sources[index as int], data),
            None,
        ),
        (Phase::Fetching { index }, EventView::Failed(cause)) => moved_on(
            state,
            index,
            table,
            Some(FetchErrorView { source: state.sources[index as int], cause }),
        ),
        _ => Transition {
            state,
            table,
            step: StepView { action: ActionView::Wait, failure: None },
        },
    }
}

/// A step leaves a loop valid, with the sources and the interval it had.
pub proof fn lemma_step_keeps_valid(state: LoopState, table: Map<Key, u64>, event: EventView)
    requires
        valid(state),
    ensures
        valid(step_model(state, table, event).state),
        step_model(state, table, event).state.sources == state.sources,
        step_model(state, table, event).state.interval == state.interval,
{
}

/// What a list of texts says, text by text.
pub open spec fn texts(list: Seq<String>) -> Seq<Seq<char>> {
    Seq::new(list.len(), |i: int| list[i]@)
}

/// The refresh loop over a fixed list of sources.
pub struct RefreshLoop {
    sources: Vec<String>,
    interval: u64,
    phase: Phase,
}

impl View for RefreshLoop {
    type V = LoopState;

    closed spec fn view(&self) -> LoopState {
        LoopState { sources: texts(self.sources@), interval: self.interval, phase: self.phase }
    }
}

impl RefreshLoop {
    #[verifier::type_invariant]
    spec fn well_formed(&self) -> bool {
        valid(self@)
    }

    /// A loop over `sources`, in their order, that sleeps for `interval`
    /// seconds between two cycles. It needs at least one source.
    pub fn new(sources: Vec<String>, interval: u64) -> (made: Result<RefreshLoop, ConfigError>)
        ensures
            sources@.len() == 0 <==> made is Err,
            made matches Ok(refresh) ==> valid(refresh@) && refresh@ == (LoopState {
                sources: texts(sources@),
                interval,
                phase: Phase::Idle,
            }),
            made matches Err(error) ==> error == ConfigError::NoSources,
    {
        if sources.len() == 0 {
            Err(ConfigError::NoSources)
        } else {
            assert(texts(sources@).len() > 0);
            Ok(RefreshLoop { sources, interval, phase: Phase::Idle })
        }
    }

    /// Where the loop stands in its cycle.
    pub fn phase(&self) -> (phase: Phase)
        ensures
            phase == self@.phase,
    {
        self.phase
    }

    /// The seconds that the loop sleeps between two cycles.
    pub fn interval(&self) -> (seconds: u64)
        ensures
            seconds == self@.interval,
    {
        self.interval
    }

    /// The sources, in the order in which a cycle fetches them.
    pub fn sources(&self) -> (sources: &Vec<String>)
        ensures
            texts(sources@) == self@.sources,
            sources@.len() > 0,
    {
        proof {
            use_type_invariant(self);
        }
        &self.sources
    }

    /// Takes in what happened, writes to `store` what a fetched observation
    /// holds, and says what to do next.
    pub fn step(&mut self, store: &mut MetricStore, event: Event) -> (step: Step)
        ensures
            valid(old(self)@),
            valid(final(self)@),
            final(self)@ == step_model(old(self)@, old(store)@, event@).state,
            final(store)@ == step_model(old(self)@, old(store)@, event@).table,
            step@ == step_model(old(self)@, old(store)@, event@).step,
    {
        proof {
            use_type_invariant(&*self);
        }
        match self.phase {
            Phase::Idle | Phase::Sleeping => match event {
                Event::Wake => {
                    self.phase = Phase::Fetching { index: 0 };
                    let source = self.sources[0].clone();
                    Step { action: Action::Fetch { source }, failure: None }
                },
                _ => Step { action: Action::Wait, failure: None },
            },
            Phase::Fetching { index } => match event {
                Event::Wake => Step { action: Action::Wait, failure: None },
                Event::Fetched(data) => {
                    record(store, self.sources[index].as_str(), &data);
                    let action = self.move_on(index);
                    Step { action, failure: None }
                },
                Event::Failed(cause) => {
                    let failure = FetchError { source: self.sources[index].clone(), cause };
                    let action = self.move_on(index);
                    Step { action, failure: Some(failure) }
                },
            },
        }
    }

    /// Leaves the source at `index` behind.
    fn move_on(&mut self, index: usize) -> (action: Action)
        requires
            old(self)@.phase == (Phase::Fetching { index }),
        ensures
            final(self)@ == (LoopState { phase: phase_after(old(self)@, index), ..old(self)@ }),
            action@ == action_after(old(self)@, index),
    {
        proof {
            use_type_invariant(&*self);
            assert(index < self@.sources.len());
        }
        if index + 1 < self.sources.len() {
            self.phase = Phase::Fetching { index: index + 1 };
            Action::Fetch { source: self.sources[index + 1].clone() }
        } else {
            self.phase = Phase::Sleeping;
            Action::Sleep { seconds: self.interval }
        }
    }
}

} // verus!
