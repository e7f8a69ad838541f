//! What a click on the timeline means: a selection, or a double click that
//! zooms to the event.
use crate::data::EventId;
use vstd::prelude::*;

verus! {

/// The longest time between the clicks of a double click, in milliseconds.
pub const DOUBLE_CLICK_MS: u64 = 400;

/// What releasing the button over the timeline asks for.
#[derive(Debug, Clone, Copy, PartialEq, Eq, Structural)]
pub enum ClickOutcome {
    /// Nothing: the pointer was dragged, or did not press and release on one
    /// event.
    Nothing,
    /// Select the event.
    Selected(EventId),
    /// Zoom to the event, clicked twice in a row.
    DoubleClicked(EventId),
}

/// The last click on an event, kept to recognise a double click.
#[derive(Debug, Clone, Copy, Default)]
pub struct ClickTracker {
    /// The event last clicked and when (in milliseconds on the caller's
    /// clock).
    pub last_click: Option<(EventId, u64)>,
}

/// The outcome of releasing the button over `released`, having pressed it
/// over `pressed`, given the last click.
pub open spec fn click_outcome(
    last_click: Option<(EventId, u64)>,
    pressed: Option<EventId>,
    released: Option<EventId>,
    dragging: bool,
    now_ms: u64,
) -> ClickOutcome {
    match (pressed, released) {
        (Some(p), Some(r)) => if !dragging && p == r {
            match last_click {
                Some((prev, at)) => if prev == r && crate::data::sat_sub(now_ms, at) <= DOUBLE_CLICK_MS {
                    ClickOutcome::DoubleClicked(r)
                } else {
                    ClickOutcome::Selected(r)
                },
                None => ClickOutcome::Selected(r),
            }
        } else {
            ClickOutcome::Nothing
        },
        _ => ClickOutcome::Nothing,
    }
}

/// The last click once the button is released with `outcome`: a selection
/// is remembered, a double click forgotten.
pub open spec fn last_click_after(last_click: Option<(EventId, u64)>, outcome: ClickOutcome, now_ms: u64) -> Option<
    (EventId, u64),
> {
    match outcome {
        ClickOutcome::Selected(r) => Some((r, now_ms)),
        ClickOutcome::DoubleClicked(_) => None,
        ClickOutcome::Nothing => last_click,
    }
}

impl ClickTracker {
    /// No click yet.
    pub fn new() -> (t: Self)
        ensures
            t.last_click is None,
    {
        ClickTracker { last_click: None }
    }

    /// Decides what releasing the button means: pressing and releasing on
    /// the same event without dragging selects it, or, when it is the event
    /// clicked last and at most `DOUBLE_CLICK_MS` ago, zooms to it.
    pub fn release(&mut self, pressed: Option<EventId>, released: Option<EventId>, dragging: bool, now_ms: u64) -> (r:
        ClickOutcome)
        ensures
            r == click_outcome(old(self).last_click, pressed, released, dragging, now_ms),
            final(self).last_click == last_click_after(old(self).last_click, r, now_ms),
    {
        let outcome = match (pressed, released) {
            (Some(p), Some(r)) => {
                if !dragging && p.0 == r.0 {
                    match self.last_click {
                        Some((prev, at)) => {
                            if prev.0 == r.0 && now_ms.saturating_sub(at) <= DOUBLE_CLICK_MS {
                                ClickOutcome::DoubleClicked(r)
                            } else {
                                ClickOutcome::Selected(r)
                            }
                        },
                        None => ClickOutcome::Selected(r),
                    }
                } else {
                    ClickOutcome::Nothing
                }
            },
            _ => ClickOutcome::Nothing,
        };
        match outcome {
            ClickOutcome::Selected(r) => {
                self.last_click = Some((r, now_ms));
            },
            ClickOutcome::DoubleClicked(_) => {
                self.last_click = None;
            },
            ClickOutcome::Nothing => {},
        }
        outcome
    }
}

/// A second click on the same event soon after a selection zooms to it, and
/// a third click selects it again.
pub proof fn law_double_click_alternates(e: EventId, t0: u64, t1: u64, t2: u64)
    requires
        t0 <= t1 <= t0 + DOUBLE_CLICK_MS,
    ensures
        ({
            let first = click_outcome(None, Some(e), Some(e), false, t0);
            let after_first = last_click_after(None, first, t0);
            let second = click_outcome(after_first, Some(e), Some(e), false, t1);
            let after_second = last_click_after(after_first, second, t1);
            &&& first == ClickOutcome::Selected(e)
            &&& second == ClickOutcome::DoubleClicked(e)
            &&& click_outcome(after_second, Some(e), Some(e), false, t2) == ClickOutcome::Selected(e)
        }),
{
}

} // verus!
