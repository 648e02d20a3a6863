//! Reachability: whether recent authenticated contact and acknowledgement
//! progress have been observed. It reports interruption and never closes a
//! Session.
use vstd::prelude::*;

use crate::limits::{INITIAL_ATTACHMENT_TIMEOUT_MS, NO_RECENT_CONTACT_MS, NO_RECENT_REPLY_MS};

verus! {

/// Why an active Session is currently considered interrupted.
#[derive(Clone, Copy, Debug, PartialEq, Eq, Structural)]
#[non_exhaustive]
pub enum SessionInterruption {
    /// No newly accepted latest remote state arrived within the contact window.
    NoRecentContact,
    /// The peer has not recently advanced its acknowledgement of local state.
    NoRecentReply,
}

/// The latest observed ability to exchange useful state with the peer.
#[derive(Clone, Copy, Debug, PartialEq, Eq, Structural)]
#[non_exhaustive]
pub enum SessionReachability {
    /// No complete authenticated remote state has been accepted yet.
    AwaitingPeer,
    /// Recent remote state and acknowledgement progress have both been observed.
    Responsive,
    /// The Session remains active, but useful exchange appears interrupted.
    Interrupted {
        /// The observation that caused the interruption warning.
        reason: SessionInterruption,
    },
}

/// Why the reachability cannot be computed.
#[derive(Clone, Copy, Debug, PartialEq, Eq, Structural)]
pub enum ReachabilityError {
    TimeMovedBackwards,
    TimerExhausted,
}

/// The reachability at `now_ms` given the last contact and reply times.
pub open spec fn reachability_at(last_contact: Option<u64>, last_reply: u64, now_ms: u64) -> Result<
    SessionReachability,
    ReachabilityError,
> {
    match last_contact {
        None => Ok(SessionReachability::AwaitingPeer),
        Some(contact) => if now_ms < contact {
            Err(ReachabilityError::TimeMovedBackwards)
        } else if now_ms - contact >= NO_RECENT_CONTACT_MS {
            Ok(SessionReachability::Interrupted { reason: SessionInterruption::NoRecentContact })
        } else if now_ms < last_reply {
            Err(ReachabilityError::TimeMovedBackwards)
        } else if now_ms - last_reply >= NO_RECENT_REPLY_MS {
            Ok(SessionReachability::Interrupted { reason: SessionInterruption::NoRecentReply })
        } else {
            Ok(SessionReachability::Responsive)
        },
    }
}

/// The next time at which a reported reachability can change by itself: the
/// attachment deadline while awaiting the peer, the end of the contact or
/// reply window (whichever comes first) while responsive, the end of the
/// contact window while replies are missing, and never once contact is lost.
pub open spec fn deadline_at(
    current: SessionReachability,
    last_contact: Option<u64>,
    last_reply: u64,
) -> Result<Option<u64>, ReachabilityError> {
    match current {
        SessionReachability::AwaitingPeer => Ok(Some(INITIAL_ATTACHMENT_TIMEOUT_MS)),
        SessionReachability::Interrupted { reason: SessionInterruption::NoRecentContact } => Ok(
            None,
        ),
        SessionReachability::Interrupted { reason: SessionInterruption::NoRecentReply } => {
            match last_contact {
                None => Err(ReachabilityError::TimeMovedBackwards),
                Some(c) => if c + NO_RECENT_CONTACT_MS > u64::MAX {
                    Err(ReachabilityError::TimerExhausted)
                } else {
                    Ok(Some((c + NO_RECENT_CONTACT_MS) as u64))
                },
            }
        },
        SessionReachability::Responsive => match last_contact {
            None => Err(ReachabilityError::TimeMovedBackwards),
            Some(c) => if c + NO_RECENT_CONTACT_MS > u64::MAX || last_reply + NO_RECENT_REPLY_MS
                > u64::MAX {
                Err(ReachabilityError::TimerExhausted)
            } else if c + NO_RECENT_CONTACT_MS <= last_reply + NO_RECENT_REPLY_MS {
                Ok(Some((c + NO_RECENT_CONTACT_MS) as u64))
            } else {
                Ok(Some((last_reply + NO_RECENT_REPLY_MS) as u64))
            },
        },
    }
}

/// Silence never ends a Session that has heard from its peer: once a remote
/// state was accepted, the reachability at any later time is an observation
/// (responsive, or interrupted for want of contact or replies), and a lost
/// contact window is reported as such.
pub proof fn law_silence_is_only_reported(last_contact: u64, last_reply: u64, now_ms: u64)
    requires
        now_ms >= last_contact,
        now_ms >= last_reply,
    ensures
        reachability_at(Some(last_contact), last_reply, now_ms) is Ok,
        reachability_at(Some(last_contact), last_reply, now_ms) != Ok::<
            SessionReachability,
            ReachabilityError,
        >(SessionReachability::AwaitingPeer),
        now_ms - last_contact >= NO_RECENT_CONTACT_MS ==> reachability_at(
            Some(last_contact),
            last_reply,
            now_ms,
        ) == Ok::<SessionReachability, ReachabilityError>(
            SessionReachability::Interrupted { reason: SessionInterruption::NoRecentContact },
        ),
{
}

/// Tracks the last contact and reply times and the reported reachability.
#[derive(Debug)]
pub struct ReachabilityTracker {
    current: SessionReachability,
    last_contact_ms: Option<u64>,
    last_reply_ms: u64,
}

impl ReachabilityTracker {
    pub closed spec fn current_spec(&self) -> SessionReachability {
        self.current
    }

    pub closed spec fn last_contact(&self) -> Option<u64> {
        self.last_contact_ms
    }

    pub closed spec fn last_reply(&self) -> u64 {
        self.last_reply_ms
    }

    /// Awaiting the peer, with no contact or reply yet.
    pub fn new() -> (r: ReachabilityTracker)
        ensures
            r.current_spec() == SessionReachability::AwaitingPeer,
            r.last_contact() is None,
            r.last_reply() == 0,
    {
        ReachabilityTracker {
            current: SessionReachability::AwaitingPeer,
            last_contact_ms: None,
            last_reply_ms: 0,
        }
    }

    /// The last reported reachability.
    pub fn current(&self) -> (r: SessionReachability)
        ensures
            r == self.current_spec(),
    {
        self.current
    }

    /// Records newly accepted remote state.
    pub fn note_contact(&mut self, now_ms: u64)
        ensures
            final(self).last_contact() == Some(now_ms),
            final(self).last_reply() == old(self).last_reply(),
            final(self).current_spec() == old(self).current_spec(),
    {
        self.last_contact_ms = Some(now_ms);
    }

    /// Records acknowledgement of local state sent at `acknowledged_sent_at_ms`;
    /// the reply time never moves backwards.
    pub fn note_reply(&mut self, acknowledged_sent_at_ms: u64)
        ensures
            final(self).last_reply() == if acknowledged_sent_at_ms > old(self).last_reply() {
                acknowledged_sent_at_ms
            } else {
                old(self).last_reply()
            },
            final(self).last_contact() == old(self).last_contact(),
            final(self).current_spec() == old(self).current_spec(),
    {
        if acknowledged_sent_at_ms > self.last_reply_ms {
            self.last_reply_ms = acknowledged_sent_at_ms;
        }
    }

    /// The reachability at `now_ms`.
    pub fn calculate(&self, now_ms: u64) -> (r: Result<SessionReachability, ReachabilityError>)
        ensures
            r == reachability_at(self.last_contact(), self.last_reply(), now_ms),
    {
        let last_contact_ms = match self.last_contact_ms {
            None => {
                return Ok(SessionReachability::AwaitingPeer);
            },
            Some(c) => c,
        };
        if now_ms < last_contact_ms {
            return Err(ReachabilityError::TimeMovedBackwards);
        }
        if now_ms - last_contact_ms >= NO_RECENT_CONTACT_MS {
            return Ok(
                SessionReachability::Interrupted { reason: SessionInterruption::NoRecentContact },
            );
        }
        if now_ms < self.last_reply_ms {
            return Err(ReachabilityError::TimeMovedBackwards);
        }
        if now_ms - self.last_reply_ms >= NO_RECENT_REPLY_MS {
            return Ok(
                SessionReachability::Interrupted { reason: SessionInterruption::NoRecentReply },
            );
        }
        Ok(SessionReachability::Responsive)
    }

    /// Recomputes the reachability at `now_ms` and returns it when it changed.
    pub fn update(&mut self, now_ms: u64) -> (r: Result<Option<SessionReachability>, ReachabilityError>)
        ensures
            final(self).last_contact() == old(self).last_contact(),
            final(self).last_reply() == old(self).last_reply(),
            match reachability_at(old(self).last_contact(), old(self).last_reply(), now_ms) {
                Err(e) => r == Err::<Option<SessionReachability>, ReachabilityError>(e)
                    && final(self).current_spec() == old(self).current_spec(),
                Ok(next) => final(self).current_spec() == next && if next == old(
                    self,
                ).current_spec() {
                    r == Ok::<Option<SessionReachability>, ReachabilityError>(None)
                } else {
                    r == Ok::<Option<SessionReachability>, ReachabilityError>(Some(next))
                },
            },
    {
        let next = match self.calculate(now_ms) {
            Err(e) => {
                return Err(e);
            },
            Ok(n) => n,
        };
        if next == self.current {
            return Ok(None);
        }
        self.current = next;
        Ok(Some(next))
    }

    /// Whether the attachment deadline passed without any contact.
    pub fn attachment_timed_out(&self, now_ms: u64) -> (r: bool)
        ensures
            r == (self.last_contact() is None && now_ms >= INITIAL_ATTACHMENT_TIMEOUT_MS),
    {
        self.last_contact_ms.is_none() && now_ms >= INITIAL_ATTACHMENT_TIMEOUT_MS
    }

    /// When the contact window of the last contact ends.
    fn contact_deadline_ms(&self) -> (r: Result<u64, ReachabilityError>)
        ensures
            match self.last_contact() {
                None => r == Err::<u64, ReachabilityError>(ReachabilityError::TimeMovedBackwards),
                Some(c) => if c + NO_RECENT_CONTACT_MS > u64::MAX {
                    r == Err::<u64, ReachabilityError>(ReachabilityError::TimerExhausted)
                } else {
                    r == Ok::<u64, ReachabilityError>((c + NO_RECENT_CONTACT_MS) as u64)
                },
            },
    {
        match self.last_contact_ms {
            None => Err(ReachabilityError::TimeMovedBackwards),
            Some(c) => match c.checked_add(NO_RECENT_CONTACT_MS) {
                None => Err(ReachabilityError::TimerExhausted),
                Some(d) => Ok(d),
            },
        }
    }

    /// The next time at which the reachability can change by itself, if any.
    pub fn next_deadline_ms(&self) -> (r: Result<Option<u64>, ReachabilityError>)
        ensures
            r == deadline_at(self.current_spec(), self.last_contact(), self.last_reply()),
    {
        match self.current {
            SessionReachability::AwaitingPeer => Ok(Some(INITIAL_ATTACHMENT_TIMEOUT_MS)),
            SessionReachability::Responsive => {
                let contact = match self.contact_deadline_ms() {
                    Err(e) => {
                        return Err(e);
                    },
                    Ok(c) => c,
                };
                let reply = match self.last_reply_ms.checked_add(NO_RECENT_REPLY_MS) {
                    None => {
                        return Err(ReachabilityError::TimerExhausted);
                    },
                    Some(r) => r,
                };
                Ok(Some(if contact <= reply { contact } else { reply }))
            },
            SessionReachability::Interrupted { reason: SessionInterruption::NoRecentReply } => {
                match self.contact_deadline_ms() {
                    Err(e) => Err(e),
                    Ok(c) => Ok(Some(c)),
                }
            },
            SessionReachability::Interrupted { reason: SessionInterruption::NoRecentContact } => Ok(
                None,
            ),
        }
    }
}

} // verus!
