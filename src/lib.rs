use vstd::prelude::*;

pub mod time;
pub mod clock;
pub mod driver;
pub mod interval;
pub mod timeout;
pub mod wheel;
pub mod store;
pub mod storage;
pub mod delay_queue;

verus! {

/// The outcome of polling something that may not be ready yet.
#[derive(Debug, PartialEq, Eq)]
pub enum Poll<T> {
    Ready(T),
    Pending,
}

} // verus!
