use vstd::prelude::*;

verus! {

/// One write-ahead-log record: an opaque serialized event payload.
///
/// The log stores each event length-framed, so a reader can recover every
/// record's extent from the framing alone.
pub struct Event {
    pub data: Vec<u8>,
}

impl Event {
    pub fn new(data: Vec<u8>) -> (r: Self)
        ensures
            r.data@ == data@,
    {
        Event { data }
    }
}

/// The interface by which replayed or live events are dispatched to whatever
/// consumes them; it decouples the write-ahead log from its consumer.
///
/// Replay may redeliver events that were already applied before a crash, so
/// an implementation must be idempotent.
pub trait EventReceiver {
    fn receive(&mut self, event: Event) -> Result<(), ()>;
}

} // verus!
