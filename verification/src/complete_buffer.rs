//! Capability bundles: named requirements that compose the mark and
//! cursor capabilities, for bounds that ask for several at once without
//! spelling each out.

use vstd::prelude::*;

use crate::cursor::{CursorReadBuffer, CursorWriteBuffer};
use crate::mark::{MarkReadBuffer, MarkWriteBuffer};

verus! {

/// Asks for read access to marks.
pub trait MarkReadRequirement: MarkReadBuffer {

}

impl<T: MarkReadBuffer> MarkReadRequirement for T {

}

/// Asks for write access to marks.
pub trait MarkWriteRequirement: MarkWriteBuffer {

}

impl<T: MarkWriteBuffer> MarkWriteRequirement for T {

}

/// Asks for read access to a cursor.
pub trait CursorReadRequirement: CursorReadBuffer {

}

impl<T: CursorReadBuffer> CursorReadRequirement for T {

}

/// Asks for write access to a cursor.
pub trait CursorWriteRequirement: CursorWriteBuffer {

}

impl<T: CursorWriteBuffer> CursorWriteRequirement for T {

}

} // verus!
