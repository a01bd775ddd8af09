//! One active display output bound to a CRTC/connector pair: its swapchain,
//! its published logical output, the render/submit history and the
//! single-flight render scheduling state.

use vstd::prelude::*;
use crate::types::Output;
use crate::types::Mode;

verus! {

/// The rotating buffer set bound to an output while it is enabled: the mode
/// it scans out, whether a buffer has been queued for display and awaits its
/// completion event, and whether the buffers must be reacquired before the
/// next render.
pub struct Swapchain {
    pub mode: Mode,
    pub queued: bool,
    pub dirty: bool,
}

/// What the driver reports back for one firing of a surface's render timer:
/// acquiring the next buffer failed, composition failed, composition
/// succeeded but queueing the buffer for display failed, or the buffer was
/// queued for display.
#[derive(Clone, Copy, PartialEq, Eq, Structural, Debug)]
pub enum RenderOutcome {
    BufferFailure,
    RenderFailure,
    QueueFailure { buffer: u64 },
    Queued { buffer: u64 },
}

/// What the event loop should do with the timer registration after a firing:
/// drop it, or re-arm it to fire again after one refresh interval.
#[derive(Clone, Copy, PartialEq, Eq, Structural, Debug)]
pub enum TimerAction {
    Stop,
    Retry,
}

/// One logical output on one device.  `pending` enforces at most one
/// outstanding render: it is set while a render timer is registered
/// (`render_timer`) or a queued buffer awaits its completion event.
pub struct Surface {
    pub connector: u32,
    pub output: Output,
    pub swapchain: Option<Swapchain>,
    pub last_render: Option<(u64, u64)>,
    pub last_submit: Option<u64>,
    pub refresh_mhz: u32,
    pub vrr: bool,
    pub pending: bool,
    pub render_timer: Option<u64>,
}

/// The transition a surface makes when its render timer fires, together with
/// what the event loop should do with the timer registration afterwards.
/// With no swapchain the firing is spent cleaning up; with one, any failure
/// leaves the pending flag set and re-arms the timer to retry after one
/// refresh interval, while a queued buffer drops the timer and waits for the
/// completion event.
pub open spec fn render_step(s: Surface, now: u64, needs_reset: bool, outcome: RenderOutcome) -> (
    Surface,
    TimerAction,
) {
    match s.swapchain {
        None => ((Surface { pending: false, render_timer: None, ..s }), TimerAction::Stop),
        Some(sc) => {
            let sc1 = (Swapchain { queued: false, dirty: sc.dirty || needs_reset, ..sc });
            match outcome {
                RenderOutcome::BufferFailure => (
                    (Surface { swapchain: Some(sc1), ..s }),
                    TimerAction::Retry,
                ),
                RenderOutcome::RenderFailure => (
                    (Surface { swapchain: Some((Swapchain { dirty: true, ..sc1 })), ..s }),
                    TimerAction::Retry,
                ),
                RenderOutcome::QueueFailure { buffer } => (
                    (Surface {
                        swapchain: Some((Swapchain { dirty: false, ..sc1 })),
                        last_render: Some((buffer, now)),
                        ..s
                    }),
                    TimerAction::Retry,
                ),
                RenderOutcome::Queued { buffer } => (
                    (Surface {
                        swapchain: Some((Swapchain { queued: true, dirty: false, ..sc1 })),
                        last_render: Some((buffer, now)),
                        render_timer: None,
                        ..s
                    }),
                    TimerAction::Stop,
                ),
            }
        },
    }
}

impl Surface {
    /// A buffer has been queued for display and its completion has not yet
    /// arrived.
    pub open spec fn in_flight(self) -> bool {
        self.swapchain matches Some(sc) && sc.queued
    }

    /// The single-flight discipline: `pending` holds exactly while a render
    /// timer is registered or a submission is in flight, and never both at
    /// once.
    pub open spec fn wf(self) -> bool {
        &&& self.pending <==> (self.render_timer is Some || self.in_flight())
        &&& !(self.in_flight() && self.render_timer is Some)
    }

    /// Step the surface for one firing of its render timer.  `needs_reset`
    /// reports the external signal that the buffers must be discarded first;
    /// `outcome` reports what the driver's render attempt produced; `now` is
    /// the render timestamp.  Returns what to do with the timer registration:
    /// on success the timer is dropped (the next render needs an external
    /// trigger), on any failure it is re-armed to retry after one refresh
    /// interval.
    pub fn render_output(&mut self, now: u64, needs_reset: bool, outcome: RenderOutcome) -> (act:
        TimerAction)
        requires
            old(self).wf(),
            old(self).render_timer is Some,
        ensures
            final(self).wf(),
            (*final(self), act) == render_step(*old(self), now, needs_reset, outcome),
            act == TimerAction::Stop ==> final(self).render_timer is None,
            act == TimerAction::Retry ==> final(self).render_timer == old(self).render_timer,
    {
        match &mut self.swapchain {
            None => {
                self.pending = false;
                self.render_timer = None;
                TimerAction::Stop
            },
            Some(sc) => {
                if needs_reset {
                    sc.dirty = true;
                }
                sc.queued = false;
                match outcome {
                    RenderOutcome::BufferFailure => TimerAction::Retry,
                    RenderOutcome::RenderFailure => {
                        sc.dirty = true;
                        TimerAction::Retry
                    },
                    RenderOutcome::QueueFailure { buffer } => {
                        self.last_render = Some((buffer, now));
                        sc.dirty = false;
                        TimerAction::Retry
                    },
                    RenderOutcome::Queued { buffer } => {
                        self.last_render = Some((buffer, now));
                        sc.dirty = false;
                        sc.queued = true;
                        self.render_timer = None;
                        TimerAction::Stop
                    },
                }
            },
        }
    }

    /// Confirm a display-flip completion event for this surface: when a
    /// queued buffer was awaiting it, mark the submission confirmed, record
    /// the completion timestamp and clear the pending flag.  Returns whether
    /// a frame was confirmed (so the compositor can send frame callbacks).
    pub fn confirm_completion(&mut self, time: Option<u64>) -> (confirmed: bool)
        requires
            old(self).wf(),
        ensures
            final(self).wf(),
            confirmed == old(self).in_flight(),
            old(self).in_flight() ==> {
                &&& *final(self) == (Surface {
                    swapchain: Some(
                        (Swapchain { queued: false, ..old(self).swapchain.unwrap() }),
                    ),
                    last_submit: time,
                    pending: false,
                    ..*old(self)
                })
            },
            !old(self).in_flight() ==> *final(self) == *old(self),
    {
        match &mut self.swapchain {
            Some(sc) => {
                if sc.queued {
                    sc.queued = false;
                    self.last_submit = time;
                    self.pending = false;
                    true
                } else {
                    false
                }
            },
            None => false,
        }
    }
}

} // verus!
