//! A live view of a musical performance: protocol bytes framed into events,
//! a performance state driven by them, and a bounded table of sounding notes
//! in pitch order, ready to be drawn on a small LED panel.

pub mod helper;
pub mod meter;
pub mod midi;
pub mod notes;
pub mod table_laws;
pub mod table_lemmas;
