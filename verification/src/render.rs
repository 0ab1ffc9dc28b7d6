use vstd::prelude::*;

use crate::sim::Step;

verus! {

/// The outline a renderer must give the bar at one column: the primary
/// highlight (the marked element of the active pair), the secondary
/// highlight (its candidate partner), or no outline at all.
#[derive(Clone, Copy, Debug, PartialEq, Eq, Structural)]
pub enum Highlight {
    Marked,
    Candidate,
    NoOutline,
}

/// The color rule of the animation, keyed by the step kind and the column's
/// offset from the cursor: the marked highlight sits on the cursor column
/// while marking and comparing, the candidate highlight on the right
/// neighbour while comparing; after a swap the two highlights trade places;
/// every other column is plain.
pub open spec fn highlight_spec(step: Step, i: int, cursor: int) -> Highlight {
    if step == Step::Mark && i == cursor {
        Highlight::Marked
    } else if step == Step::Compare && i == cursor {
        Highlight::Marked
    } else if step == Step::Compare && i == cursor + 1 {
        Highlight::Candidate
    } else if step == Step::SwapHappened && i == cursor {
        Highlight::Candidate
    } else if step == Step::SwapHappened && i == cursor + 1 {
        Highlight::Marked
    } else {
        Highlight::NoOutline
    }
}

/// The outline for the bar at column `i` when the cursor stands at column
/// `cursor`: exactly the color rule of the animation.
pub fn highlight_for(step: Step, i: usize, cursor: usize) -> (h: Highlight)
    ensures
        h == highlight_spec(step, i as int, cursor as int),
{
    let on_cursor = i == cursor;
    let right_of_cursor = i > cursor && i - cursor == 1;
    match step {
        Step::Mark => {
            if on_cursor {
                Highlight::Marked
            } else {
                Highlight::NoOutline
            }
        },
        Step::Compare => {
            if on_cursor {
                Highlight::Marked
            } else if right_of_cursor {
                Highlight::Candidate
            } else {
                Highlight::NoOutline
            }
        },
        Step::SwapHappened => {
            if on_cursor {
                Highlight::Candidate
            } else if right_of_cursor {
                Highlight::Marked
            } else {
                Highlight::NoOutline
            }
        },
        Step::Next => Highlight::NoOutline,
        Step::Finished => Highlight::NoOutline,
    }
}

/// Whether the cursor indicator is drawn beneath the cursor column: on every
/// step except `Finished`.
pub fn shows_cursor(step: Step) -> (r: bool)
    ensures
        r == (step != Step::Finished),
{
    match step {
        Step::Finished => false,
        _ => true,
    }
}

} // verus!
