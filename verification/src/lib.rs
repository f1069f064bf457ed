//! The decisions behind running an Android game engine on a desktop host.
//!
//! - [`elf`] reads the undefined symbols out of an ELF64 shared object, one
//!   region at a time, and [`survey`] unions them over a directory.
//!   [`layout`] says what follows from the bytes of an object.
//! - [`permissions`] answers the engine's permission requests.
//! - [`versions`] says what the Version page shows about the builds on disk.
//!
//! Everything here is computed from plain values. Opening files, talking to the
//! engine and drawing widgets is left to the program around the library.

pub mod bytes;
pub mod elf;
pub mod imports;
pub mod json;
pub mod layout;
pub mod permissions;
pub mod survey;
pub mod text;
pub mod utf8;
pub mod versions;
