//! Where diagnostic records go.
use vstd::prelude::*;

verus! {

/// How severe a record is.
#[derive(Debug, Clone, Copy, PartialEq, Eq, Structural)]
pub enum LogLevel {
    Error,
    Warn,
    Info,
    Debug,
}

impl LogLevel {
    pub open spec fn spec_code(self) -> u32 {
        match self {
            LogLevel::Error => 1,
            LogLevel::Warn => 2,
            LogLevel::Info => 3,
            LogLevel::Debug => 4,
        }
    }

    /// The number by which the level is known outside.
    pub fn code(self) -> (r: u32)
        ensures
            r == self.spec_code(),
    {
        match self {
            LogLevel::Error => 1,
            LogLevel::Warn => 2,
            LogLevel::Info => 3,
            LogLevel::Debug => 4,
        }
    }
}

/// Where a record goes: to the sink, or without one to standard error.
pub enum Delivery<'a, S> {
    Sink { sink: &'a S, level: LogLevel, message: &'a str },
    StandardError { message: &'a str },
}

/// The sink that is installed once one has been offered: the first one.
pub open spec fn installed_after<S>(installed: Option<S>, sink: S) -> Option<S> {
    match installed {
        Some(first) => Some(first),
        None => Some(sink),
    }
}

/// Installs a sink, unless one is installed already: then it is handed back, and the first one
/// stays.
pub fn set_log_sink<S>(installed: &mut Option<S>, sink: S) -> (r: Result<(), S>)
    ensures
        *final(installed) == installed_after(*old(installed), sink),
        r == (match *old(installed) {
            Some(_) => Err::<(), S>(sink),
            None => Ok::<(), S>(()),
        }),
{
    if installed.is_some() {
        return Err(sink);
    }
    *installed = Some(sink);
    Ok(())
}

/// Says where a record goes.
pub fn emit_log<'a, S>(installed: &'a Option<S>, level: LogLevel, message: &'a str) -> (r: Delivery<
    'a,
    S,
>)
    ensures
        match r {
            Delivery::Sink { sink, level: at, message: text } => *installed == Some(*sink) && at
                == level && text@ == message@,
            Delivery::StandardError { message: text } => *installed is None && text@ == message@,
        },
{
    match installed {
        Some(sink) => Delivery::Sink { sink, level, message },
        None => Delivery::StandardError { message },
    }
}

/// What can happen to the place of a sink: one is offered, or a record is emitted.
pub enum LogEvent<S> {
    Install { sink: S },
    Emit { level: LogLevel, message: Seq<char> },
}

/// The sink that is installed after all that has happened.
pub open spec fn installed_by<S>(installed: Option<S>, events: Seq<LogEvent<S>>) -> Option<S>
    decreases events.len(),
{
    if events.len() == 0 {
        installed
    } else {
        let before = installed_by(installed, events.drop_last());
        match events.last() {
            LogEvent::Install { sink } => installed_after(before, sink),
            LogEvent::Emit { .. } => before,
        }
    }
}

/// The records that are emitted, in their order.
pub open spec fn emitted<S>(events: Seq<LogEvent<S>>) -> Seq<(LogLevel, Seq<char>)>
    decreases events.len(),
{
    if events.len() == 0 {
        Seq::empty()
    } else {
        let before = emitted(events.drop_last());
        match events.last() {
            LogEvent::Install { .. } => before,
            LogEvent::Emit { level, message } => before.push((level, message)),
        }
    }
}

/// The records in the order in which they are handed out, each with the sink that it is handed to.
pub open spec fn delivered<S>(installed: Option<S>, events: Seq<LogEvent<S>>) -> Seq<
    (Option<S>, LogLevel, Seq<char>),
>
    decreases events.len(),
{
    if events.len() == 0 {
        Seq::empty()
    } else {
        let front = events.drop_last();
        let before = delivered(installed, front);
        match events.last() {
            LogEvent::Install { .. } => before,
            LogEvent::Emit { level, message } => before.push(
                (installed_by(installed, front), level, message),
            ),
        }
    }
}

/// Once a sink is installed it stays, and every record that is emitted goes to it, once and in
/// order.
pub proof fn each_record_goes_once_to_the_first_sink<S>(first: S, events: Seq<LogEvent<S>>)
    ensures
        installed_by(Some(first), events) == Some(first),
        delivered(Some(first), events).len() == emitted(events).len(),
        forall|i: int|
            0 <= i < emitted(events).len() ==> #[trigger] delivered(Some(first), events)[i] == (
                Some(first),
                emitted(events)[i].0,
                emitted(events)[i].1,
            ),
    decreases events.len(),
{
    if events.len() > 0 {
        each_record_goes_once_to_the_first_sink(first, events.drop_last());
    }
}

} // verus!
