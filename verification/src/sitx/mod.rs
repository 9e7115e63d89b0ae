pub mod aids_laws;
pub mod archive;
pub mod archive_laws;
pub mod archive_writing;
pub mod blend;
pub mod blend_laws;
pub mod brimstone;
pub mod bwt;
pub mod catalog_laws;
pub mod cyanide;
pub mod cyanide_laws;
pub mod darkhorse;
pub mod darkhorse_laws;
pub mod element_laws;
pub mod elements;
pub mod english;
pub mod english_laws;
pub mod english_sentences;
pub mod entry_laws;
pub mod format_laws;
pub mod iron;
pub mod iron_laws;
pub mod names;
pub mod nodes;
pub mod p2;
pub mod ppmd;
pub mod range_encoding;
pub mod rangecoder;
pub mod refusal_laws;
pub mod rotations;
pub mod sending;
pub mod st4_laws;
pub mod stream;
pub mod stream_laws;
pub mod writing;
pub mod x86;
pub mod x86_laws;

pub use archive::{SitxArchive, SitxEntry};
