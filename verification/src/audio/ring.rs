//! The rings between callbacks: one carries samples, one carries settings.
//!
//! Each ring has a writing and a reading end, which live in different callbacks and may run at
//! the same time. What an end has seen so far is known at that end; when a full ring has room
//! again, or an empty one something to read, is up to the other end.
use ringbuf::traits::{Consumer, Producer, Split};
use vstd::prelude::*;

use crate::single::Single;
use crate::state::Settings;

verus! {

/// The writing end of a ring of samples.
#[verifier::external_body]
pub struct SampleSender {
    inner: ringbuf::HeapProd<Single>,
}

/// The reading end of a ring of samples.
#[verifier::external_body]
pub struct SampleReceiver {
    inner: ringbuf::HeapCons<Single>,
}

/// A ring of samples that is not yet parted into its ends.
#[verifier::external_body]
pub struct SampleRing {
    inner: ringbuf::HeapRb<Single>,
}

/// The samples that wait in the ring, oldest first.
pub uninterp spec fn waiting(ring: &SampleRing) -> Seq<Single>;

/// How many samples the ring can hold.
pub uninterp spec fn capacity_of(ring: &SampleRing) -> nat;

/// The samples that the ring has accepted so far, oldest first.
pub uninterp spec fn sent(tx: &SampleSender) -> Seq<Single>;

/// The samples that have come out of the ring at this end so far, oldest first.
pub uninterp spec fn received(rx: &SampleReceiver) -> Seq<Single>;

/// How many samples the reading end is sure to find: as many as waited in the ring when it was
/// parted.
pub uninterp spec fn stock(rx: &SampleReceiver) -> nat;

/// How many samples the ring can hold.
pub uninterp spec fn room(tx: &SampleSender) -> nat;

/// The samples that the ring accepts in all its life, each under its number.
pub uninterp spec fn line_in(tx: &SampleSender) -> Map<nat, Single>;

/// The samples that the ring accepts in all its life, each under its number, as seen from the
/// reading end.
pub uninterp spec fn line_out(rx: &SampleReceiver) -> Map<nat, Single>;

/// How often this end has offered a sample to the ring, accepted or not.
pub uninterp spec fn offerings(tx: &SampleSender) -> nat;

/// How often this end has asked the ring for a sample, in vain or not.
pub uninterp spec fn asked(rx: &SampleReceiver) -> nat;

/// Makes a ring with `ringbuf::HeapRb::new`. It is empty and holds `capacity` samples. (`new`
/// panics for a capacity of zero.)
#[verifier::external_body]
fn new_ring(capacity: usize) -> (r: SampleRing)
    requires
        capacity > 0,
    ensures
        waiting(&r) == Seq::<Single>::empty(),
        capacity_of(&r) == capacity,
{
    SampleRing { inner: ringbuf::HeapRb::<Single>::new(capacity) }
}

/// Puts a sample into a ring that is not yet parted, with `ringbuf::traits::Producer::try_push`
/// of `ringbuf::HeapRb`, and tells whether it was accepted: it is, unless the ring is full.
#[verifier::external_body]
fn put_in(ring: &mut SampleRing, sample: Single) -> (r: bool)
    ensures
        r == (waiting(old(ring)).len() < capacity_of(old(ring))),
        waiting(final(ring)) == if r {
            waiting(old(ring)).push(sample)
        } else {
            waiting(old(ring))
        },
        capacity_of(final(ring)) == capacity_of(old(ring)),
{
    ring.inner.try_push(sample).is_ok()
}

/// Parts a ring into its ends with `ringbuf::traits::Split::split`. What waits in the ring counts
/// as accepted and not yet read, the reading end is sure to find it, and what one end puts in is
/// what the other end gets out, after what waits. Neither end has been used yet.
#[verifier::external_body]
fn part(ring: SampleRing) -> (r: (SampleSender, SampleReceiver))
    ensures
        sent(&r.0) == waiting(&ring),
        received(&r.1) == Seq::<Single>::empty(),
        stock(&r.1) == waiting(&ring).len(),
        room(&r.0) == capacity_of(&ring),
        offerings(&r.0) == 0,
        asked(&r.1) == 0,
        line_in(&r.0) == line_out(&r.1),
        forall|k: int|
            0 <= k < waiting(&ring).len() ==> #[trigger] waiting(&ring)[k] == line_in(
                &r.0,
            )[k as nat],
{
    let (tx, rx) = ring.inner.split();
    (SampleSender { inner: tx }, SampleReceiver { inner: rx })
}

/// Offers a sample to the ring with `ringbuf::traits::Producer::try_push`, and tells whether it
/// was accepted. A ring that has not yet accepted as many samples as it holds accepts this one;
/// whether a later one does depends on how many the reading end has taken out meanwhile, and is
/// left open. Each call is one offering.
#[verifier::external_body]
fn try_push(tx: &mut SampleSender, sample: Single) -> (r: bool)
    ensures
        sent(final(tx)) == if r {
            sent(old(tx)).push(sample)
        } else {
            sent(old(tx))
        },
        room(final(tx)) == room(old(tx)),
        offerings(final(tx)) == offerings(old(tx)) + 1,
        line_in(final(tx)) == line_in(old(tx)),
        sent(old(tx)).len() < room(old(tx)) ==> r,
        r ==> line_in(old(tx))[sent(old(tx)).len()] == sample,
{
    tx.inner.try_push(sample).is_ok()
}

/// Takes the oldest sample out of the ring with `ringbuf::traits::Consumer::try_pop`. Samples
/// come out in the order in which they were accepted. There is one as long as not all have come
/// out that waited in the ring when it was parted; whether there is one later depends on the
/// writing end, and is left open. Each call asks once.
#[verifier::external_body]
fn try_pop(rx: &mut SampleReceiver) -> (r: Option<Single>)
    ensures
        received(final(rx)) == match r {
            Some(sample) => received(old(rx)).push(sample),
            None => received(old(rx)),
        },
        line_out(final(rx)) == line_out(old(rx)),
        stock(final(rx)) == stock(old(rx)),
        asked(final(rx)) == asked(old(rx)) + 1,
        received(old(rx)).len() < stock(old(rx)) ==> r is Some,
        r matches Some(sample) ==> sample == line_out(old(rx))[received(old(rx)).len()],
{
    rx.inner.try_pop()
}

impl SampleSender {
    /// What was accepted so far are the first samples of the line.
    pub open spec fn in_line(&self) -> bool {
        forall|k: int|
            0 <= k < sent(self).len() ==> #[trigger] sent(self)[k] == line_in(self)[k as nat]
    }

    /// Offers a sample; tells whether it was accepted.
    pub fn send(&mut self, sample: Single) -> (r: bool)
        ensures
            sent(final(self)) == if r {
                sent(old(self)).push(sample)
            } else {
                sent(old(self))
            },
            room(final(self)) == room(old(self)),
            offerings(final(self)) == offerings(old(self)) + 1,
            line_in(final(self)) == line_in(old(self)),
            sent(old(self)).len() < room(old(self)) ==> r,
            old(self).in_line() ==> final(self).in_line(),
    {
        try_push(self, sample)
    }
}

impl SampleReceiver {
    /// What came out so far are the first samples of the line.
    pub open spec fn in_line(&self) -> bool {
        forall|k: int|
            0 <= k < received(self).len() ==> #[trigger] received(self)[k]
                == line_out(self)[k as nat]
    }

    /// Takes the oldest sample out, if there is one. There is one as long as not all have come
    /// out that the ring started with.
    pub fn receive(&mut self) -> (r: Option<Single>)
        ensures
            received(final(self)) == match r {
                Some(sample) => received(old(self)).push(sample),
                None => received(old(self)),
            },
            line_out(final(self)) == line_out(old(self)),
            stock(final(self)) == stock(old(self)),
            asked(final(self)) == asked(old(self)) + 1,
            received(old(self)).len() < stock(old(self)) ==> r is Some,
            r matches Some(sample) ==> sample == line_out(old(self))[received(old(self)).len()],
            old(self).in_line() ==> final(self).in_line(),
    {
        try_pop(self)
    }
}

/// Makes a ring that starts with some silence in it, so that the first read does not run dry.
pub fn primed_ring(capacity: usize, silence: usize) -> (r: (SampleSender, SampleReceiver))
    requires
        0 < capacity,
        silence <= capacity,
    ensures
        sent(&r.0) == Seq::new(silence as nat, |k: int| Single::zero()),
        received(&r.1) == Seq::<Single>::empty(),
        stock(&r.1) == silence,
        room(&r.0) == capacity,
        offerings(&r.0) == 0,
        asked(&r.1) == 0,
        line_in(&r.0) == line_out(&r.1),
        r.0.in_line(),
        r.1.in_line(),
{
    let mut ring: SampleRing = new_ring(capacity);
    let mut k: usize = 0;
    while k < silence
        invariant
            k <= silence <= capacity,
            waiting(&ring) == Seq::new(k as nat, |j: int| Single::zero()),
            capacity_of(&ring) == capacity,
        decreases silence - k,
    {
        put_in(&mut ring, Single::zero());
        k = k + 1;
        assert(waiting(&ring) =~= Seq::new(k as nat, |j: int| Single::zero()));
    }
    part(ring)
}

/// A ring loses no sample that it accepted, doubles none, and keeps their order: what has come
/// out at one end is what went in at the other.
pub proof fn law_ring_keeps_order(tx: &SampleSender, rx: &SampleReceiver, k: int)
    requires
        tx.in_line(),
        rx.in_line(),
        line_in(tx) == line_out(rx),
        0 <= k < sent(tx).len(),
        k < received(rx).len(),
    ensures
        received(rx)[k] == sent(tx)[k],
{
}

/// The writing end of a ring of settings.
#[verifier::external_body]
pub struct SettingsSender {
    inner: ringbuf::HeapProd<Settings>,
}

/// The reading end of a ring of settings.
#[verifier::external_body]
pub struct SettingsReceiver {
    inner: ringbuf::HeapCons<Settings>,
}

/// The settings that the ring has accepted from this end so far, oldest first.
pub uninterp spec fn posted(tx: &SettingsSender) -> Seq<Settings>;

/// The settings that have come out of the ring at this end so far, oldest first.
pub uninterp spec fn taken(rx: &SettingsReceiver) -> Seq<Settings>;

/// How many sets of settings the ring can hold.
pub uninterp spec fn shelf(tx: &SettingsSender) -> nat;

/// The settings that the ring accepts in all its life, each under its number.
pub uninterp spec fn posts_in(tx: &SettingsSender) -> Map<nat, Settings>;

/// The settings that the ring accepts in all its life, each under its number, as seen from the
/// reading end.
pub uninterp spec fn posts_out(rx: &SettingsReceiver) -> Map<nat, Settings>;

/// How often this end has offered settings to the ring, accepted or not.
pub uninterp spec fn postings(tx: &SettingsSender) -> nat;

/// How often this end has asked the ring for settings, in vain or not.
pub uninterp spec fn polls(rx: &SettingsReceiver) -> nat;

/// Makes a ring with `ringbuf::HeapRb::new` and parts it into its ends with
/// `ringbuf::traits::Split::split`. Nothing has gone in or come out yet, it holds `capacity`
/// sets of settings, and what one end puts in is what the other end gets out. Neither end has
/// been used yet. (`new` panics for a capacity of zero.)
#[verifier::external_body]
fn new_slot(capacity: usize) -> (r: (SettingsSender, SettingsReceiver))
    requires
        capacity > 0,
    ensures
        shelf(&r.0) == capacity,
        postings(&r.0) == 0,
        polls(&r.1) == 0,
        posted(&r.0) == Seq::<Settings>::empty(),
        taken(&r.1) == Seq::<Settings>::empty(),
        posts_in(&r.0) == posts_out(&r.1),
{
    let (tx, rx) = ringbuf::HeapRb::<Settings>::new(capacity).split();
    (SettingsSender { inner: tx }, SettingsReceiver { inner: rx })
}

/// Offers settings to the ring with `ringbuf::traits::Producer::try_push`, and tells whether
/// they were accepted. A ring that has not yet accepted as many as it holds accepts these;
/// whether it does later depends on the reading end, and is left open. Each call is one posting.
#[verifier::external_body]
fn try_post(tx: &mut SettingsSender, settings: Settings) -> (r: bool)
    ensures
        posted(final(tx)) == if r {
            posted(old(tx)).push(settings)
        } else {
            posted(old(tx))
        },
        shelf(final(tx)) == shelf(old(tx)),
        postings(final(tx)) == postings(old(tx)) + 1,
        posts_in(final(tx)) == posts_in(old(tx)),
        posted(old(tx)).len() < shelf(old(tx)) ==> r,
        r ==> posts_in(old(tx))[posted(old(tx)).len()] == settings,
{
    tx.inner.try_push(settings).is_ok()
}

/// Takes the oldest settings out of the ring with `ringbuf::traits::Consumer::try_pop`. They
/// come out in the order in which they were accepted; whether there are any depends on the
/// writing end, and is left open. Each call is one poll.
#[verifier::external_body]
fn try_take(rx: &mut SettingsReceiver) -> (r: Option<Settings>)
    ensures
        taken(final(rx)) == match r {
            Some(settings) => taken(old(rx)).push(settings),
            None => taken(old(rx)),
        },
        posts_out(final(rx)) == posts_out(old(rx)),
        polls(final(rx)) == polls(old(rx)) + 1,
        r matches Some(settings) ==> settings == posts_out(old(rx))[taken(old(rx)).len()],
{
    rx.inner.try_pop()
}

impl SettingsSender {
    /// What was accepted so far are the first settings of the line.
    pub open spec fn in_line(&self) -> bool {
        forall|k: int|
            0 <= k < posted(self).len() ==> #[trigger] posted(self)[k] == posts_in(self)[k as nat]
    }

    /// Offers settings; tells whether they were accepted.
    pub fn post(&mut self, settings: Settings) -> (r: bool)
        ensures
            posted(final(self)) == if r {
                posted(old(self)).push(settings)
            } else {
                posted(old(self))
            },
            shelf(final(self)) == shelf(old(self)),
            postings(final(self)) == postings(old(self)) + 1,
            posts_in(final(self)) == posts_in(old(self)),
            posted(old(self)).len() < shelf(old(self)) ==> r,
            old(self).in_line() ==> final(self).in_line(),
    {
        try_post(self, settings)
    }
}

impl SettingsReceiver {
    /// What came out so far are the first settings of the line.
    pub open spec fn in_line(&self) -> bool {
        forall|k: int|
            0 <= k < taken(self).len() ==> #[trigger] taken(self)[k] == posts_out(self)[k as nat]
    }

    /// Takes the oldest settings out, if there are any.
    pub fn take(&mut self) -> (r: Option<Settings>)
        ensures
            taken(final(self)) == match r {
                Some(settings) => taken(old(self)).push(settings),
                None => taken(old(self)),
            },
            posts_out(final(self)) == posts_out(old(self)),
            polls(final(self)) == polls(old(self)) + 1,
            r matches Some(settings) ==> settings == posts_out(old(self))[taken(old(self)).len()],
            old(self).in_line() ==> final(self).in_line(),
    {
        try_take(self)
    }
}

/// Makes a ring that holds one set of settings.
pub fn settings_slot() -> (r: (SettingsSender, SettingsReceiver))
    ensures
        posted(&r.0) == Seq::<Settings>::empty(),
        taken(&r.1) == Seq::<Settings>::empty(),
        shelf(&r.0) == 1,
        postings(&r.0) == 0,
        polls(&r.1) == 0,
        posts_in(&r.0) == posts_out(&r.1),
        r.0.in_line(),
        r.1.in_line(),
{
    new_slot(1)
}

/// Settings that the ring accepted come out as they went in, and in that order.
pub proof fn law_settings_keep_order(tx: &SettingsSender, rx: &SettingsReceiver, k: int)
    requires
        tx.in_line(),
        rx.in_line(),
        posts_in(tx) == posts_out(rx),
        0 <= k < posted(tx).len(),
        k < taken(rx).len(),
    ensures
        taken(rx)[k] == posted(tx)[k],
{
}

} // verus!
