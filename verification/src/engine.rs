//! The duplex event engine: the decisions of the read and write loops as
//! pure functions, and the `Speaker` subscription handle as a verified
//! state machine. The surrounding tasks perform the waiting and the I/O
//! and follow exactly these decisions.

use vstd::prelude::*;

use crate::Error;
use crate::message::Incoming;
use crate::message::spec_decode;
use crate::message::incoming_wf;
use crate::message::spec_control_frame;
use crate::message::unsubscribe_frame;

verus! {

// ---------------------------------------------------------------------------
// Read loop decisions
// ---------------------------------------------------------------------------

/// What the read loop observed while suspended.
pub enum ReadEvent {
    /// A text frame arrived.
    Frame(String),
    /// The transport reported an error or closed.
    TransportClosed,
    /// The cancellation signal fired.
    Cancelled,
}

/// What the read loop does next.
pub enum ReadAction {
    /// Hand the decoded event to the consumer queue, then continue.
    Deliver(Incoming),
    /// Drop the frame (empty or malformed) and continue.
    Skip,
    /// Leave the loop.
    Stop,
}

/// The read loop's decision on one observation: an empty frame is skipped
/// silently, a malformed frame is dropped without ending the loop, a
/// well-formed frame is delivered, and a transport failure or the
/// cancellation signal ends the loop.
pub fn read_step(ev: ReadEvent) -> (a: ReadAction)
    ensures
        match ev {
            ReadEvent::Frame(f) => {
                &&& f@.len() == 0 ==> a is Skip
                &&& f@.len() > 0 && spec_decode(f@) is None ==> a is Skip
                &&& f@.len() > 0 && spec_decode(f@) is Some ==> (a matches ReadAction::Deliver(inc)
                    && spec_decode(f@) == Some(inc@) && incoming_wf(inc@))
            },
            ReadEvent::TransportClosed => a is Stop,
            ReadEvent::Cancelled => a is Stop,
        },
{
    match ev {
        ReadEvent::Frame(f) => {
            if f.as_str().unicode_len() == 0 {
                return ReadAction::Skip;
            }
            match Incoming::decode(f.as_str()) {
                Option::Some(inc) => ReadAction::Deliver(inc),
                Option::None => ReadAction::Skip,
            }
        },
        ReadEvent::TransportClosed => ReadAction::Stop,
        ReadEvent::Cancelled => ReadAction::Stop,
    }
}

// ---------------------------------------------------------------------------
// Write loop decisions
// ---------------------------------------------------------------------------

/// What the write loop observed while suspended.
pub enum WriteEvent {
    /// An outbound frame was handed over by a producer.
    Item(String),
    /// The producer side of the outbound queue is gone.
    QueueClosed,
    /// The cancellation signal fired.
    Cancelled,
}

/// What the write loop does next.
pub enum WriteAction {
    /// Send exactly this text frame on the transport, then continue.
    Forward(String),
    /// Leave the loop.
    Stop,
}

/// The write loop's decision on one observation: an item is forwarded to
/// the transport unchanged; a closed queue or the cancellation signal ends
/// the loop.
pub fn write_step(ev: WriteEvent) -> (a: WriteAction)
    ensures
        match ev {
            WriteEvent::Item(m) => a matches WriteAction::Forward(f) && f@ == m@,
            WriteEvent::QueueClosed => a is Stop,
            WriteEvent::Cancelled => a is Stop,
        },
{
    match ev {
        WriteEvent::Item(m) => WriteAction::Forward(m),
        WriteEvent::QueueClosed => WriteAction::Stop,
        WriteEvent::Cancelled => WriteAction::Stop,
    }
}

// ---------------------------------------------------------------------------
// The Speaker
// ---------------------------------------------------------------------------

/// Lifecycle phase of a `Speaker`.
#[derive(PartialEq, Eq, Structural, Clone, Copy, Debug)]
pub enum Phase {
    /// Both loops run; frames may be sent and received.
    Active,
    /// Teardown has run: the unsubscribe frame was submitted and
    /// cancellation was broadcast.
    Closing,
    /// Both loops have observed cancellation and exited.
    Closed,
}

/// The character sequences of a sequence of frames.
pub open spec fn frames_of(v: Seq<String>) -> Seq<Seq<char>> {
    Seq::new(v.len(), |i: int| v[i]@)
}

/// The subscription handle, as the state machine the two loop tasks and
/// the caller follow. `outbound` is the submission queue the write loop
/// drains onto the transport (`wired`); `inbound` is the consumer queue
/// the read loop fills; `submitted` is the full submission history.
pub struct Speaker {
    /// Lifecycle phase.
    pub phase: Phase,
    /// The event channel this Speaker subscribed to.
    pub channel: String,
    /// Outbound frames accepted and not yet on the transport.
    pub outbound: Vec<String>,
    /// Frames handed to the transport so far, in order.
    pub wired: Vec<String>,
    /// Events delivered to the consumer queue and not yet taken.
    pub inbound: Vec<Incoming>,
    /// Whether cancellation has been broadcast.
    pub cancelled: bool,
    /// Every frame ever accepted for sending, in order.
    pub submitted: Ghost<Seq<Seq<char>>>,
}

impl Speaker {
    /// The frames on the transport followed by the frames still queued are
    /// exactly the submission history: nothing is lost, duplicated or
    /// reordered.
    pub open spec fn wf(&self) -> bool {
        self.submitted@ == frames_of(self.wired@) + frames_of(self.outbound@)
    }

    /// Opens a subscription to `channel`: both queues empty, no frame sent,
    /// the loops running.
    pub fn subscribe(channel: String) -> (sp: Speaker)
        ensures
            sp.wf(),
            sp.phase == Phase::Active,
            sp.channel@ == channel@,
            sp.outbound@.len() == 0,
            sp.wired@.len() == 0,
            sp.inbound@.len() == 0,
            !sp.cancelled,
            sp.submitted@ == Seq::<Seq<char>>::empty(),
    {
        let sp = Speaker {
            phase: Phase::Active,
            channel,
            outbound: Vec::new(),
            wired: Vec::new(),
            inbound: Vec::new(),
            cancelled: false,
            submitted: Ghost(Seq::empty()),
        };
        proof {
            assert(frames_of(sp.wired@) + frames_of(sp.outbound@) =~= Seq::<Seq<char>>::empty());
        }
        sp
    }

    /// Accepts one outbound frame while active: it joins the back of the
    /// submission queue. After teardown has begun the frame is refused.
    pub fn send(&mut self, msg: String) -> (r: Result<(), Error>)
        requires
            old(self).wf(),
        ensures
            final(self).wf(),
            old(self).phase == Phase::Active ==> r is Ok && final(self).outbound@ == old(self).outbound@.push(msg) && final(self).submitted@ == old(self).submitted@.push(msg@),
            old(self).phase != Phase::Active ==> (r matches Err(e) && e == Error::SendErr) && *final(self) == *old(self),
            final(self).phase == old(self).phase,
            final(self).channel == old(self).channel,
            final(self).wired == old(self).wired,
            final(self).inbound == old(self).inbound,
            final(self).cancelled == old(self).cancelled,
    {
        if self.phase == Phase::Active {
            let ghost msgv = msg@;
            self.outbound.push(msg);
            proof {
                self.submitted@ = self.submitted@.push(msgv);
                assert(frames_of(self.wired@) + frames_of(self.outbound@) =~= old(self).submitted@.push(msgv));
            }
            Ok(())
        } else {
            Err(Error::SendErr)
        }
    }

    /// The write loop takes the oldest queued frame and puts it on the
    /// transport; submission order is preserved.
    pub fn pump_outbound(&mut self) -> (r: Option<String>)
        requires
            old(self).wf(),
        ensures
            final(self).wf(),
            old(self).outbound@.len() == 0 ==> r is None && *final(self) == *old(self),
            old(self).outbound@.len() > 0 ==> r == Some(old(self).outbound@[0]) && final(self).outbound@ == old(self).outbound@.drop_first() && final(self).wired@ == old(self).wired@.push(old(self).outbound@[0]),
            final(self).submitted@ == old(self).submitted@,
            final(self).phase == old(self).phase,
            final(self).channel == old(self).channel,
            final(self).inbound == old(self).inbound,
            final(self).cancelled == old(self).cancelled,
    {
        if self.outbound.len() == 0 {
            return None;
        }
        let frame = self.outbound.remove(0);
        let out = frame.clone();
        self.wired.push(frame);
        proof {
            assert(old(self).outbound@.subrange(1, old(self).outbound@.len() as int) =~= old(self).outbound@.drop_first());
            assert(frames_of(final(self).wired@) + frames_of(final(self).outbound@) =~= frames_of(
                old(self).wired@,
            ) + frames_of(old(self).outbound@));
        }
        Some(out)
    }

    /// The read loop hands one arrived frame to the Speaker: an empty
    /// frame never reaches the consumer queue, a malformed frame is
    /// dropped and changes nothing, a well-formed frame is appended.
    pub fn accept_frame(&mut self, frame: String) -> (delivered: bool)
        ensures
            frame@.len() == 0 ==> !delivered && *final(self) == *old(self),
            frame@.len() > 0 && spec_decode(frame@) is None ==> !delivered && *final(self) == *old(self),
            frame@.len() > 0 && spec_decode(frame@) is Some ==> delivered && final(self).inbound@.len() == old(self).inbound@.len() + 1 && spec_decode(frame@) == Some(
                final(self).inbound@.last()@,
            ) && final(self).inbound@.take(old(self).inbound@.len() as int) == old(self).inbound@,
            final(self).outbound == old(self).outbound,
            final(self).wired == old(self).wired,
            final(self).submitted == old(self).submitted,
            final(self).phase == old(self).phase,
            final(self).channel == old(self).channel,
            final(self).cancelled == old(self).cancelled,
            final(self).wf() == old(self).wf(),
    {
        match read_step(ReadEvent::Frame(frame)) {
            ReadAction::Deliver(inc) => {
                self.inbound.push(inc);
                proof {
                    assert(self.inbound@.take(old(self).inbound@.len() as int) =~= old(self).inbound@);
                }
                true
            },
            ReadAction::Skip => false,
            ReadAction::Stop => false,
        }
    }

    /// The consumer takes the oldest delivered event, if any.
    pub fn next_event(&mut self) -> (r: Option<Incoming>)
        ensures
            old(self).inbound@.len() == 0 ==> r is None && *final(self) == *old(self),
            old(self).inbound@.len() > 0 ==> r == Some(old(self).inbound@[0]) && final(self).inbound@ == old(self).inbound@.drop_first(),
            final(self).outbound == old(self).outbound,
            final(self).wired == old(self).wired,
            final(self).submitted == old(self).submitted,
            final(self).phase == old(self).phase,
            final(self).channel == old(self).channel,
            final(self).cancelled == old(self).cancelled,
            final(self).wf() == old(self).wf(),
    {
        if self.inbound.len() == 0 {
            return None;
        }
        let ev = self.inbound.remove(0);
        proof {
            assert(old(self).inbound@.subrange(1, old(self).inbound@.len() as int) =~= old(self).inbound@.drop_first());
        }
        Some(ev)
    }

    /// Teardown. Run exactly once, on the first call: submits the
    /// unsubscribe control frame `[6,"<channel>"]` for the subscribed
    /// channel to the outbound queue, then broadcasts cancellation. Later
    /// calls change nothing. Teardown never fails and never blocks.
    pub fn close(&mut self)
        requires
            old(self).wf(),
        ensures
            final(self).wf(),
            old(self).phase == Phase::Active ==> {
                &&& final(self).outbound@.len() == old(self).outbound@.len() + 1
                &&& final(self).outbound@.last()@ == spec_control_frame(6, old(self).channel@)
                &&& final(self).outbound@.take(old(self).outbound@.len() as int) == old(self).outbound@
                &&& final(self).submitted@ == old(self).submitted@.push(
                    spec_control_frame(6, old(self).channel@),
                )
                &&& final(self).cancelled
                &&& final(self).phase == Phase::Closing
            },
            old(self).phase != Phase::Active ==> *final(self) == *old(self),
            final(self).wired == old(self).wired,
            final(self).inbound == old(self).inbound,
            final(self).channel == old(self).channel,
    {
        if self.phase == Phase::Active {
            let frame = unsubscribe_frame(self.channel.as_str());
            let ghost framev = frame@;
            self.outbound.push(frame);
            proof {
                self.submitted@ = self.submitted@.push(framev);
                assert(frames_of(self.wired@) + frames_of(self.outbound@) =~= old(self).submitted@.push(framev));
                assert(self.outbound@.take(old(self).outbound@.len() as int) =~= old(self).outbound@);
            }
            self.cancelled = true;
            self.phase = Phase::Closing;
        }
    }

    /// Records that both loops have observed cancellation and exited.
    pub fn mark_closed(&mut self)
        requires
            old(self).phase == Phase::Closing,
        ensures
            *final(self) == (Speaker { phase: Phase::Closed, ..*old(self) }),
    {
        self.phase = Phase::Closed;
    }
}

// ---------------------------------------------------------------------------
// Ordering laws
// ---------------------------------------------------------------------------

/// Outbound frames reach the transport in submission order: at every
/// state, what is on the wire followed by what is still queued is the
/// submission history, so the wire is always a prefix of the history.
pub proof fn lemma_wire_order(sp: &Speaker)
    requires
        sp.wf(),
    ensures
        sp.submitted@ == frames_of(sp.wired@) + frames_of(sp.outbound@),
        frames_of(sp.wired@) == sp.submitted@.take(sp.wired@.len() as int),
{
    assert(frames_of(sp.wired@) =~= sp.submitted@.take(sp.wired@.len() as int));
}

} // verus!
