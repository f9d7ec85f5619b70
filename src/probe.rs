//! The decisions of probing one address: which probe to send next, when to
//! stop, and which round-trip time stands for the address.
use vstd::prelude::*;

verus! {

/// What came of one probe.
#[derive(Clone, Copy, Debug, PartialEq, Eq, Structural)]
pub enum ProbeOutcome {
    /// A reply arrived within the per-probe timeout, after this many nanoseconds.
    Reply(u64),
    /// No reply within the per-probe timeout: probing of the address stops.
    TimedOut,
    /// The probe failed otherwise (a malformed reply): it counts as no reply.
    Failed,
}

/// The least round-trip time among the replies of `h`, if any replied.
pub open spec fn min_reply(h: Seq<ProbeOutcome>) -> Option<u64>
    decreases h.len(),
{
    if h.len() == 0 {
        None
    } else {
        let prev = min_reply(h.drop_last());
        match h.last() {
            ProbeOutcome::Reply(t) => match prev {
                Some(p) => Some(if t < p { t } else { p }),
                None => Some(t),
            },
            _ => prev,
        }
    }
}

/// Some probe of `h` timed out.
pub open spec fn has_timeout(h: Seq<ProbeOutcome>) -> bool {
    exists|i: int| 0 <= i < h.len() && h[i] == ProbeOutcome::TimedOut
}

/// The round-trip time that stands for an address whose probes gave `h`: the
/// least reply, where there is one and it is under `ceiling`.
pub open spec fn representative(h: Seq<ProbeOutcome>, ceiling: u64) -> Option<u64> {
    match min_reply(h) {
        Some(t) => if t < ceiling { Some(t) } else { None },
        None => None,
    }
}

/// The probing of one address: at most `probe_count` probes, numbered from 0,
/// one after the other, and none after the first that timed out.
pub struct ProbeSession {
    probe_count: u16,
    ceiling_ns: u64,
    sent: u16,
    best: Option<u64>,
    stopped: bool,
    history: Ghost<Seq<ProbeOutcome>>,
}

impl ProbeSession {
    /// The outcomes recorded so far, in the order of the probes.
    pub closed spec fn outcomes(&self) -> Seq<ProbeOutcome> {
        self.history@
    }

    /// The number of probes that may be sent at most.
    pub closed spec fn limit(&self) -> nat {
        self.probe_count as nat
    }

    /// The round-trip time, in nanoseconds, from which an address counts as unreachable.
    pub closed spec fn ceiling(&self) -> u64 {
        self.ceiling_ns
    }

    /// A further probe is due.
    pub open spec fn running(&self) -> bool {
        self.outcomes().len() < self.limit() && !has_timeout(self.outcomes())
    }

    pub closed spec fn wf(&self) -> bool {
        &&& self.sent as nat == self.history@.len()
        &&& self.sent <= self.probe_count
        &&& self.best == min_reply(self.history@)
        &&& self.stopped == has_timeout(self.history@)
    }

    /// A session that has sent nothing yet.
    pub fn new(probe_count: u16, ceiling_ns: u64) -> (r: ProbeSession)
        ensures
            r.wf(),
            r.outcomes() == Seq::<ProbeOutcome>::empty(),
            r.limit() == probe_count as nat,
            r.ceiling() == ceiling_ns,
    {
        ProbeSession {
            probe_count,
            ceiling_ns,
            sent: 0,
            best: None,
            stopped: false,
            history: Ghost(Seq::empty()),
        }
    }

    /// The sequence number of the probe to send next, or `None` once probing is over.
    pub fn next_probe(&self) -> (r: Option<u16>)
        requires
            self.wf(),
        ensures
            r == (if self.running() { Some(self.outcomes().len() as u16) } else { None::<u16> }),
    {
        if self.sent < self.probe_count && !self.stopped {
            Some(self.sent)
        } else {
            None
        }
    }

    /// Takes note of what came of the probe that `next_probe` named; once
    /// probing is over an outcome changes nothing.
    pub fn record(&mut self, outcome: ProbeOutcome)
        requires
            old(self).wf(),
        ensures
            final(self).wf(),
            final(self).limit() == old(self).limit(),
            final(self).ceiling() == old(self).ceiling(),
            final(self).outcomes() == (if old(self).running() {
                old(self).outcomes().push(outcome)
            } else {
                old(self).outcomes()
            }),
    {
        if self.sent < self.probe_count && !self.stopped {
            let ghost h = self.history@;
            let ghost h2 = h.push(outcome);
            assert(h2.drop_last() == h);
            match outcome {
                ProbeOutcome::Reply(t) => {
                    match self.best {
                        Some(p) => {
                            if t < p {
                                self.best = Some(t);
                            }
                        },
                        None => {
                            self.best = Some(t);
                        },
                    }
                },
                ProbeOutcome::TimedOut => {
                    self.stopped = true;
                    assert(h2[h.len() as int] == ProbeOutcome::TimedOut);
                },
                ProbeOutcome::Failed => {},
            }
            self.sent = self.sent + 1;
            self.history = Ghost(h2);
            assert(has_timeout(h) ==> has_timeout(h2)) by {
                if has_timeout(h) {
                    let i = choose|i: int| 0 <= i < h.len() && h[i] == ProbeOutcome::TimedOut;
                    assert(h2[i] == h[i]);
                }
            }
            assert(has_timeout(h2) ==> (has_timeout(h) || outcome == ProbeOutcome::TimedOut)) by {
                if has_timeout(h2) {
                    let i = choose|i: int| 0 <= i < h2.len() && h2[i] == ProbeOutcome::TimedOut;
                    if i < h.len() {
                        assert(h[i] == h2[i]);
                    }
                }
            }
        }
    }

    /// The round-trip time that stands for the address, from the outcomes so far.
    pub fn result(&self) -> (r: Option<u64>)
        requires
            self.wf(),
        ensures
            r == representative(self.outcomes(), self.ceiling()),
    {
        match self.best {
            Some(t) => if t < self.ceiling_ns {
                Some(t)
            } else {
                None
            },
            None => None,
        }
    }
}

} // verus!
