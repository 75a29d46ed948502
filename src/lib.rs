//! Decoders for the two asset formats of the game: palettized, run-length
//! compressed sprite images ("ART") and flat resource archives ("DAT").
use vstd::prelude::*;

pub mod art;
pub mod art_frame;
pub mod art_header;
pub mod art_id;
pub mod bytes;
pub mod color;
pub mod dat;
pub mod state;
