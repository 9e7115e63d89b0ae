pub mod bits;
pub mod canonical;
pub mod catalog;
pub mod checksum;
pub mod checksum_laws;
pub mod compress;
pub mod compress_laws;
pub mod error;
pub mod fork_laws;
pub mod huffman;
pub mod lzss;
pub mod method_laws;
pub mod methods;
pub mod prefix_code;
pub mod rc4;
pub mod rc4_laws;
pub mod refusal_laws;
pub mod rle90;
pub mod sit5;
pub mod sit5_laws;
pub mod sit5_writing;
pub mod sitx;
pub mod stuffit;
pub mod stuffit_laws;
pub mod stuffit_writing;
pub mod stuffit13;
pub mod stuffit13_laws;
pub mod stuffit13_meta;
pub mod stuffit13_sets;
pub mod stuffit13_sums;
pub mod stuffit13_tables;
pub mod stuffit15;
pub mod stuffit15_encoding;
pub mod stuffit15_forks;
pub mod stuffit15_gaps;
pub mod stuffit15_laws;
pub mod stuffit5;
pub mod stuffit5_laws;
pub mod stuffit5_writing;
