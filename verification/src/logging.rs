//! The in-memory log: messages drained from a channel into one list, and
//! scoped work markers that write paired start and end messages. The
//! channel itself lives with the caller; this module owns the verified
//! bookkeeping and the exact message texts.

use vstd::prelude::*;

verus! {

/// Severity of a log message.
#[derive(Clone, Copy, Debug, PartialEq, Eq, Structural)]
pub enum MsgType {
    Info,
    Error,
}

/// One log message: where it came from and what it says.
pub struct Message {
    pub content: String,
    pub from: String,
    pub msg_type: MsgType,
}

/// The received messages, oldest first.
pub struct MessageQueue {
    pub messages: Vec<Message>,
}

impl MessageQueue {
    pub fn new() -> (r: MessageQueue)
        ensures
            r.messages@ == Seq::<Message>::empty(),
    {
        MessageQueue { messages: Vec::new() }
    }
}

/// Drains every pending message into the stored list, keeping arrival
/// order.
pub fn recv_all(queue: &mut MessageQueue, pending: Vec<Message>)
    ensures
        final(queue).messages@ == old(queue).messages@ + pending@,
{
    let mut incoming = pending;
    queue.messages.append(&mut incoming);
}

/// One tick of log upkeep: drains the pending messages.
pub fn update(queue: &mut MessageQueue, pending: Vec<Message>)
    ensures
        final(queue).messages@ == old(queue).messages@ + pending@,
{
    recv_all(queue, pending);
}

/// Relies on `String::push_str`: appends the characters of `s` to `out`.
#[verifier::external_body]
fn append_str(out: &mut String, s: &str)
    ensures
        final(out)@ == old(out)@ + s@,
{
    out.push_str(s);
}

/// A scoped work marker: names who started what. Its creation writes the
/// start message; `finish` writes the matching end message. (The release
/// is explicit: a message written from a destructor is not expressible
/// here.)
pub struct LogGuard {
    pub from: String,
    pub work: String,
}

impl LogGuard {
    /// Opens the scope: appends the `start {work}.` message and keeps the
    /// names for the matching end message.
    pub fn new(queue: &mut MessageQueue, from: String, work: String) -> (r: LogGuard)
        ensures
            r.from == from,
            r.work == work,
            ({
                let m = final(queue).messages@.last();
                &&& final(queue).messages@ == old(queue).messages@.push(m)
                &&& m.msg_type == MsgType::Info
                &&& m.from@ == from@
                &&& m.content@ == "start "@ + work@ + "."@
            }),
    {
        let mut content = String::new();
        append_str(&mut content, "start ");
        append_str(&mut content, work.as_str());
        append_str(&mut content, ".");
        proof {
            assert(content@ =~= "start "@ + work@ + "."@);
        }
        let message = Message { content, from: from.clone(), msg_type: MsgType::Info };
        queue.messages.push(message);
        LogGuard { from, work }
    }

    /// Closes the scope: appends the matching `end {work}.` message.
    pub fn finish(self, queue: &mut MessageQueue)
        ensures
            ({
                let m = final(queue).messages@.last();
                &&& final(queue).messages@ == old(queue).messages@.push(m)
                &&& m.msg_type == MsgType::Info
                &&& m.from@ == self.from@
                &&& m.content@ == "end "@ + self.work@ + "."@
            }),
    {
        let mut content = String::new();
        append_str(&mut content, "end ");
        append_str(&mut content, self.work.as_str());
        append_str(&mut content, ".");
        proof {
            assert(content@ =~= "end "@ + self.work@ + "."@);
        }
        let message = Message { content, from: self.from, msg_type: MsgType::Info };
        queue.messages.push(message);
    }
}

/// Opens a scoped work marker, writing its start message.
pub fn scope(queue: &mut MessageQueue, from: String, work: String) -> (r: LogGuard)
    ensures
        r.from == from,
        r.work == work,
        ({
            let m = final(queue).messages@.last();
            &&& final(queue).messages@ == old(queue).messages@.push(m)
            &&& m.msg_type == MsgType::Info
            &&& m.from@ == from@
            &&& m.content@ == "start "@ + work@ + "."@
        }),
{
    LogGuard::new(queue, from, work)
}

} // verus!
