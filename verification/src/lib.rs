use vstd::prelude::*;

pub mod algorithms;
pub mod data_structures;
pub mod errors;
pub mod io;
pub mod models;
pub mod multi_thread;
pub mod numeral;
pub mod pkg;
pub mod server;
pub mod service_io;
pub mod single_thread;
pub mod threading;
pub mod utils;

verus! {

} // verus!
