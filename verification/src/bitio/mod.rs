pub mod small_bit_vec;
