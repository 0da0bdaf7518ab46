use vstd::prelude::*;
use crate::threading::Threader;

verus! {

/// The state the front ends share: the collection of services they drive.
pub struct AppState {
    pub service_manager: ServiceManager,
}

impl AppState {
    /// Wraps a service collection into application state.
    pub fn new(service_manager: ServiceManager) -> (r: Self) {
        AppState { service_manager }
    }
}

/// The collection of services: the benchmark driver.
pub struct ServiceManager {
    pub threader: Threader,
}

impl ServiceManager {
    /// A fresh collection with a fresh driver.
    pub fn new() -> (r: Self) {
        let threader = Threader::new();
        ServiceManager { threader }
    }
}

} // verus!
