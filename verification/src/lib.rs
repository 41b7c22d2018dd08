//! Background services of a companion application: a size-capped line log, a
//! watched-directory reconciler, and a network service discovery engine.

pub mod decimal;
pub mod logfile;
pub mod discovery;
pub mod textorder;
pub mod mdns;
pub mod watch;
