//! Log levels.

use vstd::prelude::*;

verus! {

/// How important a log record is, most important first.
#[derive(Clone, Copy, Debug, PartialEq, Eq, Structural)]
pub enum LogLevel {
    Error,
    Warn,
    Info,
    Debug,
    Trace,
}

impl LogLevel {
    /// The level's name, in capitals.
    pub fn as_str(&self) -> (r: &'static str)
        ensures
            *self == LogLevel::Error ==> r@ == "ERROR"@,
            *self == LogLevel::Warn ==> r@ == "WARN"@,
            *self == LogLevel::Info ==> r@ == "INFO"@,
            *self == LogLevel::Debug ==> r@ == "DEBUG"@,
            *self == LogLevel::Trace ==> r@ == "TRACE"@,
    {
        match self {
            LogLevel::Error => "ERROR",
            LogLevel::Warn => "WARN",
            LogLevel::Info => "INFO",
            LogLevel::Debug => "DEBUG",
            LogLevel::Trace => "TRACE",
        }
    }

    /// The level's number: 1 for [`LogLevel::Error`] up to 5 for [`LogLevel::Trace`].
    pub fn number(&self) -> (r: u8)
        ensures
            *self == LogLevel::Error ==> r == 1,
            *self == LogLevel::Warn ==> r == 2,
            *self == LogLevel::Info ==> r == 3,
            *self == LogLevel::Debug ==> r == 4,
            *self == LogLevel::Trace ==> r == 5,
    {
        match self {
            LogLevel::Error => 1,
            LogLevel::Warn => 2,
            LogLevel::Info => 3,
            LogLevel::Debug => 4,
            LogLevel::Trace => 5,
        }
    }
}

/// The logger of the system, which can be set once: until then records go nowhere.
pub struct LoggerSlot<L> {
    logger: Option<L>,
}

impl<L> LoggerSlot<L> {
    /// The logger, once set.
    pub closed spec fn logger(&self) -> Option<L> {
        self.logger
    }

    /// A slot with no logger set.
    pub fn new() -> (r: Self)
        ensures
            r.logger() is None,
    {
        LoggerSlot { logger: None }
    }

    /// Sets the logger, unless one was set before: then the slot keeps it and this fails.
    pub fn set_logger(&mut self, logger: L) -> (r: Result<(), ()>)
        ensures
            old(self).logger() is None ==> r is Ok && final(self).logger() == Some(logger),
            old(self).logger() is Some ==> r is Err && final(self).logger() == old(self).logger(),
    {
        if self.logger.is_some() {
            return Err(());
        }
        self.logger = Some(logger);
        Ok(())
    }

    /// The logger, if one was set; records go nowhere otherwise.
    pub fn get_logger(&self) -> (r: Option<&L>)
        ensures
            r matches Some(l) ==> self.logger() == Some(*l),
            r is None <==> self.logger() is None,
    {
        self.logger.as_ref()
    }
}

} // verus!
