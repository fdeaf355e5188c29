//! Signal processing: everything here works on plain sample sequences.
pub mod f0decode;
pub mod mel;
pub mod resample;
pub mod sola;
pub mod table;
