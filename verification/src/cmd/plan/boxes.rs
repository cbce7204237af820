// The ftyp and moov of the planned file are built by the same code as those
// of the generated hybrid MP4.
pub use crate::cmd::generate::boxes::{generate_ftyp, generate_hybrid_moov};
