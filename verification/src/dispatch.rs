//! The dispatcher's fan-out.
//!
//! On each timer tick the dispatcher publishes one heartbeat broadcast
//! and then exactly one ping per enumerated endpoint, from a fresh
//! enumeration each cycle. A failure on any single publish aborts the
//! remainder of the cycle — that fail-fast policy belongs to the loop
//! around this module, which performs the actual publishing.

use vstd::prelude::*;

use crate::db::EndpointRecord;
use crate::queue::subject;
use crate::queue::subject_view;

verus! {

/// One message to publish: a subject and its payload.
pub struct Message {
    pub subject: String,
    pub payload: String,
}

/// The messages of one dispatch cycle, in publishing order: first the
/// broadcast heartbeat, then one ping per record, each carrying that
/// record's encoded key.
pub fn cycle_messages(queue_prefix: &str, records: &Vec<EndpointRecord>) -> (msgs: Vec<Message>)
    ensures
        msgs@.len() == records@.len() + 1,
        msgs@[0].subject@ == subject_view(queue_prefix@, "hello"@),
        msgs@[0].payload@ == "Hello, world!"@,
        forall|i: int|
            1 <= i < msgs@.len() ==> (#[trigger] msgs@[i]).subject@ == subject_view(
                queue_prefix@,
                "ping"@,
            ) && msgs@[i].payload@ == records@[i - 1]@.key.encode(),
{
    let mut msgs: Vec<Message> = Vec::new();
    msgs.push(
        Message { subject: subject(queue_prefix, "hello"), payload: "Hello, world!".to_owned() },
    );
    let n = records.len();
    let mut i: usize = 0;
    while i < n
        invariant
            i <= n,
            n == records@.len(),
            msgs@.len() == i + 1,
            msgs@[0].subject@ == subject_view(queue_prefix@, "hello"@),
            msgs@[0].payload@ == "Hello, world!"@,
            forall|a: int|
                1 <= a < msgs@.len() ==> (#[trigger] msgs@[a]).subject@ == subject_view(
                    queue_prefix@,
                    "ping"@,
                ) && msgs@[a].payload@ == records@[a - 1]@.key.encode(),
        decreases n - i,
    {
        let payload = records[i].key.encode();
        msgs.push(Message { subject: subject(queue_prefix, "ping"), payload });
        i += 1;
    }
    msgs
}

} // verus!
