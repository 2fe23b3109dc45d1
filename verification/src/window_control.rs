//! Control of the foreground window.
use vstd::prelude::*;

verus! {

/// Brings the chosen window to the foreground: nothing is done yet.
pub fn set_foreground_window() {
}

} // verus!
