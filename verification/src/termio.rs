//! Repairing the terminal after a child that owned it: the reset sequence,
//! and when to stop draining input the child left behind.
use vstd::prelude::*;

verus! {

/// Escape sequences that undo terminal state a remote session may have left
/// behind when it died: the alternate screen, mouse and focus reporting,
/// bracketed paste, application keypad, alternate charsets, a clamped scroll
/// region, stale SGR, hidden cursor.
///
/// The leading CAN (0x18) aborts any escape sequence the remote truncated
/// mid-flight, so the reset itself is not swallowed by a half-parsed CSI.
/// Deliberately not RIS (`ESC c`), which clears scrollback on many terminals.
/// The alternate-screen exit comes early, so everything after it applies to
/// the screen the user is left looking at.
pub const TTY_RESTORE: &'static str = "\x18\x1b[?1049l\x1b[?1047l\x0f\x1b(B\x1b)B\x1b[?1000l\x1b[?1002l\x1b[?1003l\x1b[?1005l\x1b[?1006l\x1b[?1015l\x1b[?1004l\x1b[?2004l\x1b[?2026l\x1b[?1l\x1b>\x1b[?7h\x1b[r\x1b[m\x1b[?25h";

/// What one non-blocking read of the terminal gave.
#[derive(Debug, Clone, Copy, PartialEq, Eq, Structural)]
pub enum ReadOutcome {
    /// Some bytes were read (and dropped).
    Bytes,
    /// End of input.
    Eof,
    /// Nothing is waiting right now.
    WouldBlock,
    /// Any other error.
    Failed,
}

/// What draining does next.
#[derive(Debug, Clone, Copy, PartialEq, Eq, Structural)]
pub enum DrainStep {
    /// Read again at once.
    ReadAgain,
    /// Sleep for `DRAIN_SLEEP_MS`, then read again.
    SleepThenRead,
    /// Stop draining.
    Stop,
}

/// Input counts as settled once nothing has arrived for this long.
pub const DRAIN_QUIET_MS: u64 = 50;

/// Draining never runs longer than this.
pub const DRAIN_MAX_MS: u64 = 500;

/// The pause between reads while waiting for more input.
pub const DRAIN_SLEEP_MS: u64 = 10;

/// The next step of draining, after a read that gave `outcome`, given the
/// milliseconds since draining began and since bytes last arrived: keep
/// reading while bytes come; on an empty read stop once input has been quiet
/// for `DRAIN_QUIET_MS` or draining has run `DRAIN_MAX_MS`, else wait and
/// read again; stop at end of input or on any other error.
pub open spec fn drain_next(outcome: ReadOutcome, since_start_ms: u64, since_last_read_ms: u64) -> DrainStep {
    match outcome {
        ReadOutcome::Bytes => DrainStep::ReadAgain,
        ReadOutcome::WouldBlock => if since_last_read_ms >= DRAIN_QUIET_MS || since_start_ms >= DRAIN_MAX_MS {
            DrainStep::Stop
        } else {
            DrainStep::SleepThenRead
        },
        _ => DrainStep::Stop,
    }
}

/// Decides the next step of draining terminal input.
pub fn drain_step(outcome: ReadOutcome, since_start_ms: u64, since_last_read_ms: u64) -> (r: DrainStep)
    ensures
        r == drain_next(outcome, since_start_ms, since_last_read_ms),
{
    match outcome {
        ReadOutcome::Bytes => DrainStep::ReadAgain,
        ReadOutcome::WouldBlock => {
            if since_last_read_ms >= DRAIN_QUIET_MS {
                DrainStep::Stop
            } else if since_start_ms >= DRAIN_MAX_MS {
                DrainStep::Stop
            } else {
                DrainStep::SleepThenRead
            }
        },
        ReadOutcome::Eof => DrainStep::Stop,
        ReadOutcome::Failed => DrainStep::Stop,
    }
}

/// Draining always ends: once `DRAIN_MAX_MS` have passed, an empty read
/// stops it, and only reads that return bytes keep it going without a wait.
pub proof fn lemma_drain_bounded(outcome: ReadOutcome, since_start_ms: u64, since_last_read_ms: u64)
    ensures
        since_start_ms >= DRAIN_MAX_MS && outcome != ReadOutcome::Bytes ==> drain_next(
            outcome,
            since_start_ms,
            since_last_read_ms,
        ) == DrainStep::Stop,
        drain_next(outcome, since_start_ms, since_last_read_ms) == DrainStep::ReadAgain ==> outcome
            == ReadOutcome::Bytes,
{
}

} // verus!
