use vstd::prelude::*;

verus! {

/// How long a toast stays visible, in milliseconds.
pub const TOAST_DURATION_MS: u64 = 3000;

/// The flavor of a transient notification.
#[derive(Clone, Copy, Debug, PartialEq, Eq, Structural)]
pub enum ToastVariant {
    Error,
    Success,
}

/// A transient notification.  The core has no clock: the caller supplies
/// the current time, as milliseconds of any monotonically growing clock,
/// both at creation and when asking whether the toast has expired.
pub struct Toast {
    pub message: String,
    pub created_at_ms: u64,
    pub duration_ms: u64,
    pub variant: ToastVariant,
}

impl Toast {
    pub fn new(message: String, variant: ToastVariant, now_ms: u64) -> (t: Toast)
        ensures
            t.message == message,
            t.variant == variant,
            t.created_at_ms == now_ms,
            t.duration_ms == TOAST_DURATION_MS,
    {
        Toast { message, created_at_ms: now_ms, duration_ms: TOAST_DURATION_MS, variant }
    }

    /// Whether more than the toast's duration has elapsed between its
    /// creation and `now_ms`, read on the same clock.
    pub fn is_expired(&self, now_ms: u64) -> (r: bool)
        requires
            now_ms >= self.created_at_ms,
        ensures
            r == (now_ms - self.created_at_ms > self.duration_ms),
    {
        now_ms - self.created_at_ms > self.duration_ms
    }
}

} // verus!
