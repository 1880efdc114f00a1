//! Terminal dimensions, as the driver's progress display reports them.
//! Measuring the terminal is a syscall and stays with the driver; the
//! library only defines the two dimensions.

use vstd::prelude::*;

verus! {

/// The width of a terminal in characters.
pub struct Width(pub u16);

/// The height of a terminal in characters.
pub struct Height(pub u16);

} // verus!
