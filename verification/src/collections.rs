pub mod comb_map;
pub mod set;
pub mod index;
pub mod par_map;
pub mod csv_layout;
