//! Settings of the loggers that report on crunching and decrunching.
use vstd::prelude::*;

verus! {

/// Levels of logging.
///
/// Logging of "dump" level is not possible this way as it slows the process too much down.
#[derive(Copy, Clone, Debug, PartialEq, Eq, Structural, PartialOrd, Ord)]
pub enum Level {
    Debug,
    Normal,
    Brief,
    /// Please note that [`Level::Warning`] is currently not used and thus identical to [`Level::Error`].
    Warning,
    Error,
}

/// Logs to a writer, at `level` and above.
pub struct Logger<W> {
    pub level: Level,
    pub writer: W,
    pub progress_bar_length: usize,
}

impl<W> Logger<W> {
    /// Create a new [`Logger`].
    ///
    /// Defaults:
    /// - `level`: [`Level::Normal`]
    /// - `progress_bar_length`: `64`
    pub fn with_writer(writer: W) -> (r: Self)
        ensures
            r.level == Level::Normal,
            r.writer == writer,
            r.progress_bar_length == 64,
    {
        Self { level: Level::Normal, writer, progress_bar_length: 64 }
    }

    /// Set the `level`.
    pub fn level(&mut self, level: Level) -> (r: &mut Self)
        ensures
            *r == (Self { level, ..*old(self) }),
            *final(self) == *final(r),
    {
        self.level = level;
        self
    }

    /// Set the `progress_bar_length`.
    pub fn progress_bar_length(&mut self, progress_bar_length: usize) -> (r: &mut Self)
        ensures
            *r == (Self { progress_bar_length, ..*old(self) }),
            *final(self) == *final(r),
    {
        self.progress_bar_length = progress_bar_length;
        self
    }
}

/// Logs everything, including dump level, to a writer.
pub struct LoggerDump<W> {
    pub writer: W,
}

} // verus!
