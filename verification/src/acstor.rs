//! A planner that names the next piece of work, and a workload that answers
//! with ticks.

use vstd::prelude::*;

verus! {

/// What the planner asks for.
pub enum PlannerMessage {
    Hello,
    DoA,
    DoB,
    Stop,
}

/// What the workload tells itself.
pub enum WorkloadMessage {
    Tick,
}

/// Anything that travels between planner and workload.
pub enum Event {
    Planner(PlannerMessage),
    Workload(WorkloadMessage),
}

/// Who an event is meant for.
pub enum Recipient {
    Workload,
    Planner,
}

/// How a workload runs.
pub struct WorkloadConfig {
    pub ticker_interval_ms: u64,
    /// The most ticks that greetings may cause; `None` for no limit.
    pub max_events: Option<usize>,
}

impl Default for WorkloadConfig {
    /// A tick every three seconds, and no limit.
    fn default() -> (config: Self)
        ensures
            config.ticker_interval_ms == 3000,
            config.max_events is None,
    {
        Self { ticker_interval_ms: 3000, max_events: None }
    }
}

/// The message that the planner sends as its `count`-th.
pub open spec fn planned(count: usize) -> PlannerMessage {
    if count % 3 == 0 {
        PlannerMessage::Hello
    } else if count % 3 == 1 {
        PlannerMessage::DoA
    } else {
        PlannerMessage::DoB
    }
}

/// Plans the work: `DoA`, `DoB`, `Hello`, and so on in turn.
pub struct Planner {
    event_count: usize,
}

impl View for Planner {
    type V = usize;

    /// The number of messages planned so far.
    closed spec fn view(&self) -> usize {
        self.event_count
    }
}

impl Planner {
    /// A planner that has planned nothing.
    pub fn new() -> (planner: Self)
        ensures
            planner@ == 0,
    {
        Planner { event_count: 0 }
    }

    /// The number of messages planned so far.
    pub fn planned_so_far(&self) -> (n: usize)
        ensures
            n == self@,
    {
        self.event_count
    }

    /// The next message.
    pub fn next_event(&mut self) -> (message: PlannerMessage)
        requires
            old(self)@ < usize::MAX,
        ensures
            final(self)@ == old(self)@ + 1,
            message == planned(final(self)@),
    {
        self.event_count += 1;
        let turn = self.event_count % 3;
        if turn == 0 {
            PlannerMessage::Hello
        } else if turn == 1 {
            PlannerMessage::DoA
        } else {
            PlannerMessage::DoB
        }
    }
}

/// Whether a workload that has ticked `event_counter` times for greetings
/// may do so once more.
pub open spec fn may_tick(config: WorkloadConfig, event_counter: usize) -> bool {
    match config.max_events {
        Some(max) => event_counter < max,
        None => true,
    }
}

/// The state of a workload: its settings and the ticks it has caused.
pub struct Workload {
    config: WorkloadConfig,
    event_counter: usize,
}

impl Workload {
    /// The settings that the workload runs with.
    pub closed spec fn config(&self) -> WorkloadConfig {
        self.config
    }

    /// The number of ticks that greetings have caused.
    pub closed spec fn event_counter(&self) -> usize {
        self.event_counter
    }

    /// A workload that has done nothing.
    pub fn new(config: WorkloadConfig) -> (workload: Self)
        ensures
            workload.config() == config,
            workload.event_counter() == 0,
    {
        Workload { config, event_counter: 0 }
    }

    /// The number of ticks that greetings have caused.
    pub fn ticks(&self) -> (n: usize)
        ensures
            n == self.event_counter(),
    {
        self.event_counter
    }

    /// What the workload does on a message of the planner, as the event that
    /// it sends and to whom, if it sends one.
    ///
    /// A greeting causes a tick for the workload itself while the limit
    /// allows, and is counted; `DoA` always causes a tick for the planner,
    /// uncounted; nothing else causes anything.
    pub fn handle_planner_event(&mut self, event: PlannerMessage) -> (sent: Option<
        (Recipient, Event),
    >)
        requires
            old(self).event_counter() < usize::MAX,
        ensures
            final(self).config() == old(self).config(),
            match event {
                PlannerMessage::Hello => if may_tick(old(self).config(), old(self).event_counter()) {
                    &&& sent == Some((Recipient::Workload, Event::Workload(WorkloadMessage::Tick)))
                    &&& final(self).event_counter() == old(self).event_counter() + 1
                } else {
                    sent is None && final(self).event_counter() == old(self).event_counter()
                },
                PlannerMessage::DoA => sent == Some(
                    (Recipient::Planner, Event::Workload(WorkloadMessage::Tick)),
                ) && final(self).event_counter() == old(self).event_counter(),
                _ => sent is None && final(self).event_counter() == old(self).event_counter(),
            },
    {
        match event {
            PlannerMessage::Hello => {
                let allowed = match self.config.max_events {
                    Some(max) => self.event_counter < max,
                    None => true,
                };
                if allowed {
                    self.event_counter += 1;
                    Some((Recipient::Workload, Event::Workload(WorkloadMessage::Tick)))
                } else {
                    None
                }
            },
            PlannerMessage::DoA => Some((Recipient::Planner, Event::Workload(WorkloadMessage::Tick))),
            _ => None,
        }
    }
}

} // verus!
