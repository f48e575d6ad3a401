//! The abstract configuration capability: a typed structure that knows
//! how to read itself from, and write itself to, its fixed file path.
//!
//! The trait is a thin declaration over the codec engine. Implementors
//! bind a concrete value container to one file path and one schema, and
//! realize `read` and `write` by performing the file I/O around the
//! engine's `deserialize` and `serialize` operations; every failure is
//! reported through [`Error`](crate::error::Error).

use vstd::prelude::*;

use crate::error::Error;

verus! {

/// A configuration structure bound to a fixed file path.
pub trait Config: Sized {
    /// The fixed path where the configuration file resides.
    const PATH: &'static str;

    /// Read the configuration file and parse it into a fresh value.
    fn read() -> Result<Self, Error>;

    /// Overwrite the configuration file with this value's fields.
    fn write(&self) -> Result<(), Error>;
}

} // verus!
