//! Editing of firmware setup dumps: reading and writing AMI SCEWIN `nvram.txt` files, presets,
//! validation of edited values, and the state of an editor over such a dump.

pub mod change_format;
pub mod codec;
pub mod editor;
pub mod grammar;
pub mod layout;
pub mod nvram;
pub mod presets;
pub mod roundtrip;
pub mod scewin;
pub mod search;
pub mod stars;
pub mod text;
pub mod validation;
