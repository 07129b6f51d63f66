//! Local audio transcription with WhatsApp chat-export support: the
//! verified core (chat parsing, selection, merging, output rendering,
//! batch bookkeeping).

use vstd::prelude::*;

pub mod attachment;
pub mod audio;
pub mod batch;
pub mod cli;
pub mod collect;
pub mod date;
pub mod header;
pub mod engine;
pub mod manifest;
pub mod model;
pub mod path;
pub mod text;
pub mod whatsapp;
pub mod writers;

verus! {

} // verus!
