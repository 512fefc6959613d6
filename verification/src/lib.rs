pub mod collector;
pub mod heap;
pub mod laws;
pub mod reach;
pub mod seq_facts;
pub mod test_utils;
