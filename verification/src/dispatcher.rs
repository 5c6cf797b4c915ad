//! The message dispatcher's bookkeeping: the queue of each channel, the
//! sinks that a message can go out on, and what a receiver or sender does
//! next.

use crate::assoc::{
    assoc_map, distinct_keys, has_key, lemma_assoc_absent, lemma_assoc_at, lemma_assoc_push, lemma_assoc_update,
};
use crate::hash::hash_eq;
use crate::idset::lemma_push_contains;
use std::collections::VecDeque;
use vstd::prelude::*;

verus! {

/// Seconds without a message sent after which a keep-alive goes out.
pub const KEEP_ALIVE_SEND_INTERVAL_SECS: u64 = 30;

/// Seconds without a byte received after which a stream counts as dead.
pub const KEEP_ALIVE_RECV_INTERVAL_SECS: u64 = 60;

/// Whether a keep-alive is due: nothing was sent for the send interval.
pub fn keep_alive_due(secs_since_last_send: u64) -> (r: bool)
    ensures
        r == (secs_since_last_send >= KEEP_ALIVE_SEND_INTERVAL_SECS),
{
    secs_since_last_send >= KEEP_ALIVE_SEND_INTERVAL_SECS
}

/// Whether a stream counts as dead: nothing was received for the receive
/// interval.
pub fn stream_is_dead(secs_since_last_recv: u64) -> (r: bool)
    ensures
        r == (secs_since_last_recv >= KEEP_ALIVE_RECV_INTERVAL_SECS),
{
    secs_since_last_recv >= KEEP_ALIVE_RECV_INTERVAL_SECS
}

/// A message on the wire: where it belongs and what it carries.
#[derive(Debug)]
pub struct Message {
    pub seq_num: u64,
    pub channel: crate::hash::Hash,
    pub content: Vec<u8>,
}

/// The messages that wait on one channel, the oldest in front.
#[derive(Debug)]
pub struct ChannelQueue {
    pub channel: crate::hash::Hash,
    pub items: VecDeque<Vec<u8>>,
}

/// The channel of a queue.
pub open spec fn channel_of() -> spec_fn(ChannelQueue) -> crate::hash::Hash {
    |q: ChannelQueue| q.channel
}

/// The contents that wait in a queue, the oldest in front.
pub open spec fn contents_of() -> spec_fn(ChannelQueue) -> Seq<Seq<u8>> {
    |q: ChannelQueue| q.items@.map_values(|v: Vec<u8>| v@)
}

/// The queues of all channels on which a message has arrived.
#[derive(Debug)]
pub struct ChannelQueues {
    queues: Vec<ChannelQueue>,
}

/// Finds the queue of `channel`.
fn find_channel(queues: &Vec<ChannelQueue>, channel: &crate::hash::Hash) -> (r: Option<usize>)
    ensures
        match r {
            Some(i) => i < queues@.len() && queues@[i as int].channel == *channel,
            None => !assoc_map(queues@, channel_of(), contents_of()).dom().contains(*channel),
        },
{
    let mut i: usize = 0;
    while i < queues.len()
        invariant
            0 <= i <= queues@.len(),
            forall|j: int| 0 <= j < i ==> (#[trigger] queues@[j]).channel != *channel,
        decreases queues@.len() - i,
    {
        if hash_eq(&queues[i].channel, channel) {
            return Some(i);
        }
        i = i + 1;
    }
    proof {
        assert forall|j: int| 0 <= j < queues@.len() implies channel_of()(#[trigger] queues@[j]) != *channel by {
            assert(queues@[j].channel != *channel);
        }
        lemma_assoc_absent(queues@, channel_of(), contents_of(), *channel);
    }
    None
}

/// What a receiver on a channel does next.
#[derive(Debug)]
pub enum RecvStep {
    /// Hand this content to the consumer.
    Deliver(Vec<u8>),
    /// Report that the channel is closed.
    Closed,
    /// Wait for a message to arrive or for the queues to change.
    Wait,
}

impl ChannelQueues {
    /// Each channel has one queue.
    pub closed spec fn wf(&self) -> bool {
        distinct_keys(self.queues@, channel_of())
    }

    /// The contents that wait on `channel`, in the order of their arrival.
    pub closed spec fn pending(&self, channel: crate::hash::Hash) -> Seq<Seq<u8>> {
        let m = assoc_map(self.queues@, channel_of(), contents_of());
        if m.dom().contains(channel) {
            m[channel]
        } else {
            Seq::empty()
        }
    }

    /// No message waits on any channel.
    pub fn new() -> (r: Self)
        ensures
            r.wf(),
            forall|c: crate::hash::Hash| #[trigger] r.pending(c) == Seq::<Seq<u8>>::empty(),
    {
        ChannelQueues { queues: Vec::new() }
    }

    /// Puts the content of a message at the back of the queue of its channel.
    pub fn push(&mut self, message: Message)
        requires
            old(self).wf(),
        ensures
            final(self).wf(),
            final(self).pending(message.channel) == old(self).pending(message.channel).push(message.content@),
            forall|c: crate::hash::Hash| c != message.channel ==> #[trigger] final(self).pending(c) == old(self).pending(c),
    {
        let ghost channel = message.channel;
        let ghost content = message.content@;
        match find_channel(&self.queues, &message.channel) {
            Some(i) => {
                proof {
                    lemma_assoc_at(self.queues@, channel_of(), contents_of(), i as int);
                }
                let ghost before = self.queues@[i as int].items@;
                self.queues[i].items.push_back(message.content);
                proof {
                    assert(self.queues@[i as int].items@ == before.push(message.content));
                    assert(before.push(message.content).map_values(|v: Vec<u8>| v@) =~= before.map_values(
                        |v: Vec<u8>| v@,
                    ).push(content));
                    assert(channel_of()(self.queues@[i as int]) == channel_of()(old(self).queues@[i as int]));
                    lemma_assoc_update(old(self).queues@, channel_of(), contents_of(), i as int, self.queues@);
                }
            },
            None => {
                let mut items: VecDeque<Vec<u8>> = VecDeque::new();
                items.push_back(message.content);
                let queue = ChannelQueue { channel: message.channel, items };
                proof {
                    assert(channel_of()(queue) == channel);
                    assert(!has_key(self.queues@, channel_of(), channel));
                    lemma_assoc_push(self.queues@, channel_of(), contents_of(), queue);
                    assert(contents_of()(queue) =~= Seq::<Seq<u8>>::empty().push(content));
                }
                self.queues.push(queue);
            },
        }
    }

    /// Takes the oldest content off the queue of `channel`.
    pub fn pop(&mut self, channel: &crate::hash::Hash) -> (r: Option<Vec<u8>>)
        requires
            old(self).wf(),
        ensures
            final(self).wf(),
            forall|c: crate::hash::Hash| c != *channel ==> #[trigger] final(self).pending(c) == old(self).pending(c),
            match r {
                Some(content) => old(self).pending(*channel).len() > 0 && content@ == old(self).pending(*channel)[0]
                    && final(self).pending(*channel) == old(self).pending(*channel).drop_first(),
                None => old(self).pending(*channel).len() == 0 && final(self).pending(*channel) == old(self).pending(
                    *channel,
                ),
            },
    {
        match find_channel(&self.queues, channel) {
            Some(i) => {
                proof {
                    lemma_assoc_at(self.queues@, channel_of(), contents_of(), i as int);
                }
                let ghost before = self.queues@[i as int].items@;
                let r = self.queues[i].items.pop_front();
                proof {
                    assert(channel_of()(self.queues@[i as int]) == channel_of()(old(self).queues@[i as int]));
                    lemma_assoc_update(old(self).queues@, channel_of(), contents_of(), i as int, self.queues@);
                    if before.len() > 0 {
                        assert(self.queues@[i as int].items@ == before.subrange(1, before.len() as int));
                        assert(before.subrange(1, before.len() as int).map_values(|v: Vec<u8>| v@) =~= before.map_values(
                            |v: Vec<u8>| v@,
                        ).drop_first());
                    } else {
                        assert(self.queues@[i as int].items@ == before);
                    }
                }
                r
            },
            None => None,
        }
    }

    /// Takes in a message that has arrived while a consumer waits on
    /// `channel`: a message for that channel is handed over at once, any
    /// other is queued for its channel.
    pub fn accept_or_queue(&mut self, channel: &crate::hash::Hash, message: Message) -> (r: Option<Vec<u8>>)
        requires
            old(self).wf(),
        ensures
            final(self).wf(),
            match r {
                Some(content) => message.channel == *channel && content == message.content && forall|c: crate::hash::Hash| #[trigger]
                    final(self).pending(c) == old(self).pending(c),
                None => message.channel != *channel && final(self).pending(message.channel) == old(self).pending(
                    message.channel,
                ).push(message.content@) && forall|c: crate::hash::Hash|
                    c != message.channel ==> #[trigger] final(self).pending(c) == old(self).pending(c),
            },
    {
        if hash_eq(&message.channel, channel) {
            Some(message.content)
        } else {
            self.push(message);
            None
        }
    }

    /// What a receiver on `channel` does next: it takes the oldest content
    /// that waits; where none waits, it gives up if the streams have
    /// closed, and else waits.
    pub fn next_recv_step(&mut self, channel: &crate::hash::Hash, closed: bool) -> (r: RecvStep)
        requires
            old(self).wf(),
        ensures
            final(self).wf(),
            forall|c: crate::hash::Hash| c != *channel ==> #[trigger] final(self).pending(c) == old(self).pending(c),
            match r {
                RecvStep::Deliver(content) => old(self).pending(*channel).len() > 0 && content@ == old(self).pending(
                    *channel,
                )[0] && final(self).pending(*channel) == old(self).pending(*channel).drop_first(),
                RecvStep::Closed => closed && old(self).pending(*channel).len() == 0 && final(self).pending(*channel)
                    == old(self).pending(*channel),
                RecvStep::Wait => !closed && old(self).pending(*channel).len() == 0 && final(self).pending(*channel)
                    == old(self).pending(*channel),
            },
    {
        match self.pop(channel) {
            Some(content) => RecvStep::Deliver(content),
            None => if closed {
                RecvStep::Closed
            } else {
                RecvStep::Wait
            },
        }
    }
}

/// Gives out the sequence number of the next message and moves on to the
/// one after it, starting over after the last.
pub fn take_seq_num(next_seq_num: &mut u64) -> (r: u64)
    ensures
        r == *old(next_seq_num),
        *final(next_seq_num) == (if *old(next_seq_num) == u64::MAX {
            0
        } else {
            (*old(next_seq_num) + 1) as u64
        }),
{
    let r = *next_seq_num;
    *next_seq_num = if r == u64::MAX {
        0
    } else {
        r + 1
    };
    r
}

/// How a sink has answered when asked whether it can take a message.
#[derive(Clone, Copy, Debug, PartialEq, Eq, Structural)]
pub enum SinkPoll {
    Ready,
    Failed,
    Pending,
}

/// What a sender does next.
#[derive(Clone, Copy, Debug, PartialEq, Eq, Structural)]
pub enum SendStep {
    /// Hand the message to the first sink.
    Start,
    /// The message is out: report success.
    Done,
    /// The first sink was dropped: try again with the next.
    Retry,
    /// Wait until the first sink can take a message.
    Wait,
    /// No sink is left: report that the channel is closed.
    Closed,
}

/// The sinks that a message can go out on, by id. A message goes to the
/// first one; a sink that fails is dropped.
#[derive(Debug)]
pub struct SinkSet {
    pub sinks: Vec<u64>,
}

/// The sinks after the first one was dropped: the last one takes its place.
pub open spec fn without_first(sinks: Seq<u64>) -> Seq<u64> {
    if sinks.len() == 0 {
        sinks
    } else {
        sinks.update(0, sinks.last()).drop_last()
    }
}

impl SinkSet {
    pub fn new() -> (r: Self)
        ensures
            r.sinks@ == Seq::<u64>::empty(),
    {
        SinkSet { sinks: Vec::new() }
    }

    /// Binds one more sink.
    pub fn add(&mut self, sink: u64)
        ensures
            final(self).sinks@ == old(self).sinks@.push(sink),
    {
        self.sinks.push(sink);
    }

    /// Drops all sinks.
    pub fn close(&mut self)
        ensures
            final(self).sinks@ == Seq::<u64>::empty(),
    {
        self.sinks.clear();
    }

    pub fn is_empty(&self) -> (r: bool)
        ensures
            r == (self.sinks@.len() == 0),
    {
        self.sinks.len() == 0
    }

    /// The sink that the next message goes to.
    pub fn first(&self) -> (r: Option<u64>)
        ensures
            r == (if self.sinks@.len() == 0 {
                None
            } else {
                Some(self.sinks@[0])
            }),
    {
        if self.sinks.len() == 0 {
            None
        } else {
            Some(self.sinks[0])
        }
    }

    /// Drops the first sink, which has failed.
    pub fn drop_first(&mut self)
        ensures
            final(self).sinks@ == without_first(old(self).sinks@),
    {
        if self.sinks.len() > 0 {
            let _ = self.sinks.swap_remove(0);
        }
    }

    /// What a sender does after the first sink has answered. `unsent` says
    /// whether the message is still to be handed to a sink.
    pub fn send_step(&mut self, unsent: bool, poll: SinkPoll) -> (r: SendStep)
        ensures
            r == (if old(self).sinks@.len() == 0 {
                SendStep::Closed
            } else {
                match poll {
                    SinkPoll::Ready => if unsent {
                        SendStep::Start
                    } else {
                        SendStep::Done
                    },
                    SinkPoll::Failed => SendStep::Retry,
                    SinkPoll::Pending => SendStep::Wait,
                }
            }),
            final(self).sinks@ == (if poll == SinkPoll::Failed {
                without_first(old(self).sinks@)
            } else {
                old(self).sinks@
            }),
    {
        if self.sinks.len() == 0 {
            return SendStep::Closed;
        }
        match poll {
            SinkPoll::Ready => if unsent {
                SendStep::Start
            } else {
                SendStep::Done
            },
            SinkPoll::Failed => {
                self.drop_first();
                SendStep::Retry
            },
            SinkPoll::Pending => SendStep::Wait,
        }
    }
}

/// Whether the dispatcher is closed: it has no stream to read from or no
/// sink to write to.
pub fn dispatcher_is_closed(streams: usize, sinks: usize) -> (r: bool)
    ensures
        r == (streams == 0 || sinks == 0),
{
    streams == 0 || sinks == 0
}

/// Whether `x` occurs in `v`.
fn contains_u64(v: &Vec<u64>, x: u64) -> (r: bool)
    ensures
        r == v@.contains(x),
{
    let mut i: usize = 0;
    while i < v.len()
        invariant
            0 <= i <= v@.len(),
            forall|j: int| 0 <= j < i ==> v@[j] != x,
        decreases v@.len() - i,
    {
        if v[i] == x {
            return true;
        }
        i = i + 1;
    }
    false
}

/// The connections that are live in both directions: those that occur
/// among the streams and among the sinks, each once.
pub fn live_connections(streams: &Vec<u64>, sinks: &Vec<u64>) -> (r: Vec<u64>)
    ensures
        r@.to_set() == streams@.to_set().intersect(sinks@.to_set()),
        r@.no_duplicates(),
{
    let mut out: Vec<u64> = Vec::new();
    let mut i: usize = 0;
    assert(streams@.take(0) =~= Seq::<u64>::empty());
    while i < streams.len()
        invariant
            0 <= i <= streams@.len(),
            out@.no_duplicates(),
            forall|x: u64| out@.contains(x) <==> streams@.take(i as int).contains(x) && sinks@.contains(x),
        decreases streams@.len() - i,
    {
        let x = streams[i];
        let ghost seen = streams@.take(i as int);
        let ghost before = out@;
        assert(streams@.take(i + 1) =~= seen.push(x));
        if contains_u64(sinks, x) && !contains_u64(&out, x) {
            out.push(x);
            proof {
                assert forall|a: int, b: int| 0 <= a < b < out@.len() implies out@[a] != out@[b] by {
                    if b == before.len() {
                        assert(before.contains(before[a]));
                    } else {
                        assert(before[a] != before[b]);
                    }
                }
            }
        }
        proof {
            assert forall|y: u64| out@.contains(y) <==> seen.push(x).contains(y) && sinks@.contains(y) by {
                lemma_push_contains(seen, x, y);
                lemma_push_contains(before, x, y);
                assert(before.contains(y) <==> seen.contains(y) && sinks@.contains(y));
            }
        }
        i = i + 1;
    }
    proof {
        assert(streams@.take(streams@.len() as int) =~= streams@);
        assert(out@.to_set() =~= streams@.to_set().intersect(sinks@.to_set()));
    }
    out
}

} // verus!
