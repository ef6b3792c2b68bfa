//! Going to the status screen.

use vstd::prelude::*;

verus! {

/// Leaves the screen the program was started on at the bottom of the stack: it is
/// the status screen already when it was started without arguments, and where it
/// isn't (a log, git's pager, the sequence editor) quitting status should land back
/// on it. Whether a status screen has to be pushed on top is returned.
pub fn goto_status_screen<T>(screens: &mut Vec<T>, bottom_is_status: bool) -> (push: bool)
    requires
        old(screens)@.len() > 0,
    ensures
        final(screens)@ == old(screens)@.take(1),
        push == !bottom_is_status,
{
    while screens.len() > 1
        invariant
            1 <= screens@.len() <= old(screens)@.len(),
            screens@ == old(screens)@.take(screens@.len() as int),
        decreases screens@.len(),
    {
        let ghost before = screens@;
        screens.pop();
        proof {
            assert(screens@ =~= old(screens)@.take(before.len() - 1));
        }
    }
    !bottom_is_status
}

} // verus!
