use vstd::prelude::*;

verus! {

/// Number of low bits of a timestamp that hold the logical counter.
pub const LOGICAL_BITS: u64 = 16;

/// Mask selecting the logical counter of a timestamp.
pub const LOGICAL_MASK: u64 = 0xffff;

/// The largest physical reading whose packed timestamp loses no bits.
pub const PHYSICAL_LIMIT: u64 = 0x1_0000_0000_0000;

/// A hybrid logical clock: a physical reading in milliseconds and a
/// logical counter that orders events within one millisecond.
pub struct HybridLogicalClock {
    physical: u64,
    logical: u64,
}

/// The timestamp that packs a physical reading and a logical counter.
pub open spec fn stamp(physical: u64, logical: u64) -> u64 {
    (physical << 16u64) | (logical & 0xffffu64)
}

/// The physical part of a packed timestamp.
pub open spec fn stamp_physical(t: u64) -> u64 {
    t >> 16u64
}

/// The logical part of a packed timestamp.
pub open spec fn stamp_logical(t: u64) -> u64 {
    t & 0xffffu64
}

/// A clock whose timestamp holds its reading without loss.
pub open spec fn in_range(physical: u64, logical: u64) -> bool {
    physical < PHYSICAL_LIMIT && logical <= LOGICAL_MASK
}

/// The state after `next` at the given physical reading.
pub open spec fn next_state(physical: u64, logical: u64, now: u64) -> (u64, u64) {
    if now > physical {
        (now, 0)
    } else {
        (physical, if logical == u64::MAX { 0 } else { (logical + 1) as u64 })
    }
}

pub open spec fn max3(a: u64, b: u64, c: u64) -> u64 {
    let ab = if a >= b { a } else { b };
    if ab >= c { ab } else { c }
}

/// The state after `observe` of a remote timestamp at the given physical reading.
pub open spec fn observe_state(physical: u64, logical: u64, remote: u64, now: u64) -> (u64, u64) {
    let rp = stamp_physical(remote);
    let rl = stamp_logical(remote);
    let p = max3(now, physical, rp);
    let l = if p == physical && p == rp {
        if logical >= rl { logical } else { rl }
    } else if p == physical {
        logical
    } else if p == rp {
        rl
    } else {
        0
    };
    (p, l)
}

/// Within range, a timestamp orders as its (physical, logical) pair.
pub proof fn lemma_stamp_value(physical: u64, logical: u64)
    requires
        in_range(physical, logical),
    ensures
        stamp(physical, logical) as int == physical as int * 65536 + logical as int,
        stamp_physical(stamp(physical, logical)) == physical,
        stamp_logical(stamp(physical, logical)) == logical,
{
    assert(((physical << 16u64) | (logical & 0xffffu64)) as int == physical as int * 65536
        + logical as int && ((physical << 16u64) | (logical & 0xffffu64)) >> 16u64 == physical
        && ((physical << 16u64) | (logical & 0xffffu64)) & 0xffffu64 == logical) by (bit_vector)
        requires
            physical < 0x1_0000_0000_0000u64,
            logical <= 0xffffu64,
    ;
}

/// Every timestamp is the packing of its own two parts.
pub proof fn lemma_stamp_parts(t: u64)
    ensures
        in_range(stamp_physical(t), stamp_logical(t)),
        stamp(stamp_physical(t), stamp_logical(t)) == t,
        t as int == stamp_physical(t) as int * 65536 + stamp_logical(t) as int,
{
    assert((t >> 16u64) < 0x1_0000_0000_0000u64 && (t & 0xffffu64) <= 0xffffu64 && (((t
        >> 16u64) << 16u64) | ((t & 0xffffu64) & 0xffffu64)) == t && t as int == (t >> 16u64) as int
        * 65536 + (t & 0xffffu64) as int) by (bit_vector);
}

#[verifier::external_type_specification]
#[verifier::external_body]
pub struct ExSystemTime(std::time::SystemTime);

/// Calls `std::time::SystemTime::now()`. Nothing is claimed of the
/// reading: it depends on the machine's clock.
#[verifier::external_body]
fn system_now() -> std::time::SystemTime {
    std::time::SystemTime::now()
}

/// Calls `duration_since(UNIX_EPOCH)` on the time: the time elapsed since
/// the Unix epoch, `None` for a time before it. Nothing is claimed of the
/// duration: it depends on the reading.
#[verifier::external_body]
fn since_epoch(t: &std::time::SystemTime) -> Option<core::time::Duration> {
    t.duration_since(std::time::UNIX_EPOCH).ok()
}

/// Calls `as_millis` on the duration: its whole milliseconds. Nothing is
/// claimed: `Duration` is opaque here.
#[verifier::external_body]
fn duration_millis(d: &core::time::Duration) -> u128 {
    d.as_millis()
}

impl HybridLogicalClock {
    /// The wall clock in whole milliseconds since the Unix epoch, zero
    /// for a time before the epoch; the milliseconds are cut to 64 bits.
    fn now() -> u64 {
        let t = system_now();
        match since_epoch(&t) {
            Some(d) => {
                let millis = duration_millis(&d);
                #[verifier::truncate]
                (millis as u64)
            },
            None => 0,
        }
    }

    /// The physical reading of the clock.
    pub closed spec fn physical(&self) -> u64 {
        self.physical
    }

    /// The logical counter of the clock.
    pub closed spec fn logical(&self) -> u64 {
        self.logical
    }

    /// The clock's current timestamp.
    pub open spec fn reading(&self) -> u64 {
        stamp(self.physical(), self.logical())
    }

    /// A clock at physical time zero with logical counter zero.
    pub fn new() -> (r: Self)
        ensures
            r.physical() == 0,
            r.logical() == 0,
    {
        HybridLogicalClock { physical: 0, logical: 0 }
    }

    /// Advances the clock to the given physical reading and returns the
    /// new timestamp.
    ///
    /// Within range, the timestamp is greater than every earlier reading
    /// of this clock.
    pub fn next_at(&mut self, now: u64) -> (r: u64)
        ensures
            (final(self).physical(), final(self).logical()) == next_state(
                old(self).physical(),
                old(self).logical(),
                now,
            ),
            r == final(self).reading(),
            in_range(old(self).physical(), old(self).logical()) && old(self).logical() < LOGICAL_MASK
                && now < PHYSICAL_LIMIT ==> r > old(self).reading() && in_range(
                final(self).physical(),
                final(self).logical(),
            ),
    {
        if now > self.physical {
            self.physical = now;
            self.logical = 0;
        } else {
            self.logical = self.logical.wrapping_add(1);
        }
        proof {
            if in_range(old(self).physical(), old(self).logical()) && old(self).logical()
                < LOGICAL_MASK && now < PHYSICAL_LIMIT {
                lemma_stamp_value(old(self).physical, old(self).logical);
                lemma_stamp_value(self.physical, self.logical);
            }
        }
        self.pack()
    }

    /// Merges a remote timestamp into the clock at the given physical
    /// reading.
    ///
    /// Within range, the clock's reading afterwards is at least the remote
    /// timestamp and at least its own earlier reading.
    pub fn observe_at(&mut self, remote: u64, now: u64)
        ensures
            (final(self).physical(), final(self).logical()) == observe_state(
                old(self).physical(),
                old(self).logical(),
                remote,
                now,
            ),
            in_range(old(self).physical(), old(self).logical()) && now < PHYSICAL_LIMIT ==> {
                &&& in_range(final(self).physical(), final(self).logical())
                &&& final(self).reading() >= remote
                &&& final(self).reading() >= old(self).reading()
            },
    {
        let remote_physical = remote >> 16u64;
        let remote_logical = remote & LOGICAL_MASK;

        let mut physical = if now >= self.physical { now } else { self.physical };
        if remote_physical > physical {
            physical = remote_physical;
        }
        let same_local = physical == self.physical;
        let same_remote = physical == remote_physical;
        let logical = if same_local && same_remote {
            if self.logical >= remote_logical { self.logical } else { remote_logical }
        } else if same_local {
            self.logical
        } else if same_remote {
            remote_logical
        } else {
            0
        };

        self.physical = physical;
        self.logical = logical;
        proof {
            if in_range(old(self).physical(), old(self).logical()) && now < PHYSICAL_LIMIT {
                lemma_stamp_parts(remote);
                lemma_stamp_value(old(self).physical, old(self).logical);
                lemma_stamp_value(self.physical, self.logical);
            }
        }
    }

    /// Advances the clock to the wall clock and returns the new timestamp.
    pub fn next(&mut self) -> (r: u64)
        ensures
            exists|now: u64|
                {
                    &&& (final(self).physical(), final(self).logical()) == next_state(
                        old(self).physical(),
                        old(self).logical(),
                        now,
                    )
                    &&& r == final(self).reading()
                    &&& (in_range(old(self).physical(), old(self).logical()) && old(self).logical()
                        < LOGICAL_MASK && now < PHYSICAL_LIMIT ==> r > old(self).reading())
                },
    {
        let now = Self::now();
        self.next_at(now)
    }

    /// Merges a remote timestamp into the clock at the wall clock's time.
    pub fn observe(&mut self, remote: u64)
        ensures
            exists|now: u64|
                {
                    &&& (final(self).physical(), final(self).logical()) == observe_state(
                        old(self).physical(),
                        old(self).logical(),
                        remote,
                        now,
                    )
                    &&& (in_range(old(self).physical(), old(self).logical()) && now
                        < PHYSICAL_LIMIT ==> final(self).reading() >= remote
                        && final(self).reading() >= old(self).reading()
                        && in_range(final(self).physical(), final(self).logical()))
                },
    {
        let now = Self::now();
        self.observe_at(remote, now);
    }

    /// The clock's timestamp: the physical reading in the high bits and
    /// the logical counter in the low sixteen.
    pub fn pack(&self) -> (r: u64)
        ensures
            r == self.reading(),
    {
        (self.physical << 16u64) | (self.logical & LOGICAL_MASK)
    }
}

/// A timestamp issued after observing a remote timestamp is greater than
/// the remote one, as long as the clock stays in range.
pub proof fn law_next_after_observe(
    physical: u64,
    logical: u64,
    remote: u64,
    now1: u64,
    now2: u64,
)
    requires
        in_range(physical, logical),
        now1 < PHYSICAL_LIMIT,
        now2 < PHYSICAL_LIMIT,
        observe_state(physical, logical, remote, now1).1 < LOGICAL_MASK,
    ensures
        ({
            let (p1, l1) = observe_state(physical, logical, remote, now1);
            let (p2, l2) = next_state(p1, l1, now2);
            stamp(p2, l2) > remote && stamp(p2, l2) > stamp(physical, logical)
        }),
{
    let (p1, l1) = observe_state(physical, logical, remote, now1);
    let (p2, l2) = next_state(p1, l1, now2);
    lemma_stamp_parts(remote);
    lemma_stamp_value(physical, logical);
    lemma_stamp_value(p1, l1);
    lemma_stamp_value(p2, l2);
}

} // verus!
