//! The state of one call into a guest.
//!
//! Every call gets a fresh state, so that calls are isolated from one another.

use vstd::prelude::*;

verus! {

/// How much of a guest's standard error is kept.
pub const STDERR_BYTES: usize = 65536;

/// Host-managed timer entry.
#[derive(Debug, Clone)]
pub struct TimerSlot {
    pub id: i32,
    /// When the timer fires, in milliseconds of the host's monotonic clock.
    pub fire_at: u64,
    /// `None` = one-shot (`setTimeout`); `Some(ms)` = repeating
    /// (`setInterval`). On fire the host re-arms with a new `fire_at`.
    pub interval_ms: Option<u64>,
    /// Ref'd timers keep the daemon event loop alive. `unref()` clears
    /// this; `ref()` re-sets it.
    pub is_ref: bool,
}

/// Framing of [`HostState::pending_input`], read by the guest through the
/// `host_input_format` import.
#[derive(Debug, Clone, Copy, PartialEq, Eq, Structural)]
pub enum InputFormat {
    /// JSON text of the call's input value.
    Json,
    /// Opaque bytes.
    Raw,
}

impl InputFormat {
    /// The number that the guest sees.
    pub open spec fn number(self) -> i32 {
        match self {
            InputFormat::Json => 0,
            InputFormat::Raw => 1,
        }
    }

    /// The number that the guest sees.
    pub fn code(&self) -> (r: i32)
        ensures
            r == self.number(),
    {
        match self {
            InputFormat::Json => 0,
            InputFormat::Raw => 1,
        }
    }
}

impl Default for InputFormat {
    fn default() -> (r: Self)
        ensures
            r == InputFormat::Json,
    {
        InputFormat::Json
    }
}

/// Per-call host state.
pub struct HostState {
    /// Per-call output ceiling. Bounds the stdout capture and the raw reply
    /// alike.
    pub output_ceiling: usize,
    /// Detailed message for the last failed host call.
    pub last_error: String,
    /// Input bytes for the bytecode-cache invoke path. Framing is described by
    /// `input_format`.
    pub pending_input: Vec<u8>,
    /// Framing of `pending_input`.
    pub input_format: InputFormat,
    /// JSON envelope for the daemon path's re-entry.
    pub pending_envelope: Vec<u8>,
    /// Result blob of a columnar call. `None` means that the call has not
    /// completed, or was no columnar call.
    pub pending_columnar_reply: Option<Vec<u8>>,
    /// Raw result bytes posted by the guest. `None` means that the call produced
    /// a JSON result, or nothing.
    pub pending_raw_output: Option<Vec<u8>>,
    /// Set when a posted raw reply exceeded `output_ceiling`.
    pub raw_output_overflow: bool,
    /// Host-managed timers.
    pub timers: Vec<TimerSlot>,
    /// Timer id counter. Starts at 1, so that 0 can mean "no timer".
    pub next_timer_id: i32,
}

impl HostState {
    /// Nothing is pending, no timer is set and nothing has overflowed.
    pub open spec fn idle(self) -> bool {
        &&& self.last_error@.len() == 0
        &&& self.pending_envelope@.len() == 0
        &&& self.pending_columnar_reply is None
        &&& self.pending_raw_output is None
        &&& !self.raw_output_overflow
        &&& self.timers@.len() == 0
        &&& self.next_timer_id == 1
    }

    /// The state of a call whose input goes through stdin.
    pub fn new(output_ceiling: usize) -> (r: Self)
        ensures
            r.idle(),
            r.output_ceiling == output_ceiling,
            r.pending_input@.len() == 0,
            r.input_format == InputFormat::Json,
    {
        HostState {
            output_ceiling,
            last_error: String::new(),
            pending_input: Vec::new(),
            input_format: InputFormat::Json,
            pending_envelope: Vec::new(),
            pending_columnar_reply: None,
            pending_raw_output: None,
            raw_output_overflow: false,
            timers: Vec::new(),
            next_timer_id: 1,
        }
    }

    /// The state of a call whose input the guest asks for.
    pub fn new_with_input(
        input: Vec<u8>,
        input_format: InputFormat,
        output_ceiling: usize,
    ) -> (r: Self)
        ensures
            r.idle(),
            r.output_ceiling == output_ceiling,
            r.pending_input@ == input@,
            r.input_format == input_format,
    {
        let mut s = HostState::new(output_ceiling);
        s.pending_input = input;
        s.input_format = input_format;
        s
    }

    /// `true` when this call's output exceeded the ceiling on either delivery
    /// channel: the raw reply, or the stdout capture, whose own flag is given.
    pub fn output_overflowed(&self, stdout_overflowed: bool) -> (r: bool)
        ensures
            r == (self.raw_output_overflow || stdout_overflowed),
    {
        self.raw_output_overflow || stdout_overflowed
    }
}

} // verus!
