//! Usage counters and timestamps of keys and bindings.

use vstd::prelude::*;

verus! {

/// The larger of two times.
pub open spec fn later(a: u64, b: u64) -> u64 {
    if a >= b {
        a
    } else {
        b
    }
}

/// How often something was used, and when first and last.
#[derive(Clone, Copy, Debug, PartialEq, Eq, Structural)]
pub struct Stamps {
    /// How many times this has been used.
    pub count: u64,
    /// When this was used first.
    pub first: Option<u64>,
    /// When this was used last.
    pub last: Option<u64>,
}

impl Stamps {
    /// Times are set together, never before a use, and the first is not after the last.
    pub open spec fn wf(self) -> bool {
        &&& self.count == 0 <==> self.first is None
        &&& self.first is None <==> self.last is None
        &&& self.first is Some ==> self.first->0 <= self.last->0
    }

    /// The stamps after one more use at time `now`.
    pub open spec fn recorded(self, now: u64) -> Stamps {
        Stamps {
            count: if self.count == u64::MAX {
                u64::MAX
            } else {
                (self.count + 1) as u64
            },
            first: Some(
                match self.first {
                    Some(t) => t,
                    None => now,
                },
            ),
            last: Some(
                match self.last {
                    Some(t) => later(t, now),
                    None => now,
                },
            ),
        }
    }

    /// Stamps of something that was never used.
    pub fn new() -> (r: Stamps)
        ensures
            r == (Stamps { count: 0, first: None, last: None }),
            r.wf(),
    {
        Stamps { count: 0, first: None, last: None }
    }

    /// Records one use at time `now`. The count stops at the largest number.
    pub fn update(&mut self, now: u64)
        requires
            old(self).wf(),
        ensures
            *final(self) == old(self).recorded(now),
            final(self).wf(),
            final(self).count >= old(self).count,
    {
        let count: u64 = if self.count == u64::MAX {
            u64::MAX
        } else {
            self.count + 1
        };
        let first: u64 = match self.first {
            Some(t) => t,
            None => now,
        };
        let last: u64 = match self.last {
            Some(t) => if t >= now {
                t
            } else {
                now
            },
            None => now,
        };
        self.count = count;
        self.first = Some(first);
        self.last = Some(last);
    }
}

/// What a key was used for.
#[derive(Clone, Copy, Debug, PartialEq, Eq, Structural)]
pub enum Usage {
    Encryption,
    Verification,
}

/// What is recorded of a key or a binding.
#[derive(Clone, Copy, Debug, PartialEq, Eq, Structural)]
pub struct Stats {
    /// When the item was created.
    pub created: Option<u64>,
    /// When the item was last updated.
    pub updated: Option<u64>,
    /// Uses for encryption.
    pub encryption: Stamps,
    /// Uses for verification.
    pub verification: Stamps,
}

impl Stats {
    /// An item is not updated before it was created.
    pub open spec fn wf(self) -> bool {
        &&& self.created is Some ==> self.updated is Some && self.created->0 <= self.updated->0
        &&& self.encryption.wf()
        &&& self.verification.wf()
    }

    /// The statistics of an item created at time `now`.
    pub open spec fn created_spec(now: u64) -> Stats {
        Stats {
            created: Some(now),
            updated: Some(now),
            encryption: Stamps { count: 0, first: None, last: None },
            verification: Stamps { count: 0, first: None, last: None },
        }
    }

    /// The statistics after an update at time `now`: the time of the last update
    /// never goes back.
    pub open spec fn touched_spec(self, now: u64) -> Stats {
        Stats {
            updated: Some(
                match self.updated {
                    Some(t) => later(t, now),
                    None => match self.created {
                        Some(c) => later(c, now),
                        None => now,
                    },
                },
            ),
            ..self
        }
    }

    /// The statistics after one more use of the given kind at time `now`.
    pub open spec fn used_spec(self, usage: Usage, now: u64) -> Stats {
        match usage {
            Usage::Encryption => Stats { encryption: self.encryption.recorded(now), ..self },
            Usage::Verification => Stats { verification: self.verification.recorded(now), ..self },
        }
    }

    /// The statistics after one more use of the given kind at time `now`.
    pub fn used(&self, usage: Usage, now: u64) -> (r: Stats)
        requires
            self.wf(),
        ensures
            r == self.used_spec(usage, now),
            r.wf(),
    {
        let mut s = *self;
        match usage {
            Usage::Encryption => s.record_encryption(now),
            Usage::Verification => s.record_verification(now),
        }
        s
    }

    /// The statistics of an item created at time `now`.
    pub fn created_at(now: u64) -> (r: Stats)
        ensures
            r == Stats::created_spec(now),
            r.wf(),
    {
        Stats {
            created: Some(now),
            updated: Some(now),
            encryption: Stamps::new(),
            verification: Stamps::new(),
        }
    }

    /// The statistics after an update at time `now`.
    pub fn touched(&self, now: u64) -> (r: Stats)
        requires
            self.wf(),
        ensures
            r == self.touched_spec(now),
            r.wf(),
            r.updated is Some,
            self.updated is Some ==> r.updated->0 >= self.updated->0,
    {
        let base: u64 = match self.updated {
            Some(t) => t,
            None => match self.created {
                Some(c) => c,
                None => now,
            },
        };
        let updated: u64 = if base >= now {
            base
        } else {
            now
        };
        Stats {
            created: self.created,
            updated: Some(updated),
            encryption: self.encryption,
            verification: self.verification,
        }
    }

    /// Records one use for encryption at time `now`.
    pub fn record_encryption(&mut self, now: u64)
        requires
            old(self).wf(),
        ensures
            *final(self) == (Stats { encryption: old(self).encryption.recorded(now), ..*old(self) }),
            final(self).wf(),
    {
        let mut s = self.encryption;
        s.update(now);
        self.encryption = s;
    }

    /// Records one use for verification at time `now`.
    pub fn record_verification(&mut self, now: u64)
        requires
            old(self).wf(),
        ensures
            *final(self) == (Stats {
                verification: old(self).verification.recorded(now),
                ..*old(self)
            }),
            final(self).wf(),
    {
        let mut s = self.verification;
        s.update(now);
        self.verification = s;
    }
}

} // verus!
