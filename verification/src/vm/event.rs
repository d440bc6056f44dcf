//! Events on the device.
use crate::ffi::{CUevent, CU_EVENT_DEFAULT, CU_STREAM_DEFAULT};
use crate::vm::{Call, Reply};
use vstd::prelude::*;

verus! {

/// An event, for timing a region of work on the device.
#[derive(Debug)]
pub struct Event {
    pub ev: CUevent,
}

impl Event {
    /// The call that creates an event.
    pub fn new_call() -> (r: Call)
        ensures
            r == (Call::EventCreate { flags: CU_EVENT_DEFAULT }),
    {
        Call::EventCreate { flags: CU_EVENT_DEFAULT }
    }

    /// The event that was created.
    pub fn new(reply: &Reply) -> (r: Result<Event, String>)
        ensures
            match r {
                Ok(e) => reply.worked() && e.ev == reply.handle_given(),
                Err(e) => !reply.worked() && e@ == reply.failure("cuEventCreate"@),
            },
    {
        match reply.check("cuEventCreate") {
            Ok(_) => Ok(Event { ev: reply.handle() }),
            Err(e) => Err(e),
        }
    }

    /// The call that records the event on the default stream.
    pub fn record_call(&self) -> (r: Call)
        ensures
            r == (Call::EventRecord { event: self.ev, stream: CU_STREAM_DEFAULT }),
    {
        Call::EventRecord { event: self.ev, stream: CU_STREAM_DEFAULT }
    }

    /// What comes of recording.
    pub fn record(&self, reply: &Reply) -> (r: Result<(), String>)
        ensures
            match r {
                Ok(_) => reply.worked(),
                Err(e) => !reply.worked() && e@ == reply.failure("cuEventRecord"@),
            },
    {
        reply.check("cuEventRecord")
    }

    /// The call that waits for the event.
    pub fn synchronize_call(&self) -> (r: Call)
        ensures
            r == (Call::EventSynchronize { event: self.ev }),
    {
        Call::EventSynchronize { event: self.ev }
    }

    /// What comes of waiting.
    pub fn synchronize(&self, reply: &Reply) -> (r: Result<(), String>)
        ensures
            match r {
                Ok(_) => reply.worked(),
                Err(e) => !reply.worked() && e@ == reply.failure("cuEventSynchronize"@),
            },
    {
        reply.check("cuEventSynchronize")
    }
}

} // verus!
