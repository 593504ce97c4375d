pub mod decoder;
pub mod cano_huff_table;
