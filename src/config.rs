use crate::trigger::TriggerKind;
use std::collections::HashMap;
use vstd::prelude::*;

verus! {

/// The applications to launch, by name.
pub struct Config {
    pub applications: HashMap<String, AppConfig>,
}

/// One application: the executable to start, and the trigger that starts it.
pub struct AppConfig {
    pub bin_path: String,
    pub trigger: TriggerKind,
}

} // verus!
