//! The lock around the scheduler's state, and the signal that wakes waiting threads.
use vstd::prelude::*;

use crate::api::QuantumProvider;
use crate::time::Duration;

verus! {

/// `parking_lot::Mutex`, which is an alias of `lock_api::Mutex`: opaque here.
#[verifier::external_type_specification]
#[verifier::external_body]
#[verifier::reject_recursive_types(R)]
#[verifier::reject_recursive_types(T)]
pub struct ExMutex<R, T: ?Sized>(parking_lot::lock_api::Mutex<R, T>);

/// `parking_lot::RawMutex`, which the mutex is made with: opaque here.
#[verifier::external_type_specification]
#[verifier::external_body]
pub struct ExRawMutex(parking_lot::RawMutex);

/// `parking_lot::Condvar`: opaque here.
#[verifier::external_type_specification]
#[verifier::external_body]
pub struct ExCondvar(parking_lot::Condvar);

/// Calls `parking_lot::Mutex::new`. Nothing is claimed of the mutex.
#[verifier::external_body]
fn mutex_new<V>(value: V) -> parking_lot::Mutex<V> {
    parking_lot::Mutex::new(value)
}

/// Calls `parking_lot::Condvar::new`. Nothing is claimed of it.
#[verifier::external_body]
fn condvar_new() -> parking_lot::Condvar {
    parking_lot::Condvar::new()
}

/// Calls `std::sync::Arc::ptr_eq`: providers behind one and the same allocation are the
/// same. Nothing is claimed of others.
#[verifier::external_body]
pub(crate) fn same_provider(a: &QuantumProvider, b: &QuantumProvider) -> (same: bool)
    ensures
        same ==> *a == *b,
{
    std::sync::Arc::ptr_eq(a, b)
}

/// What is kept true of a value behind a lock, on terms that are settled when the
/// lock is made.
pub trait Guarded: Sized {
    /// What is settled when the lock is made.
    type Terms;

    /// What is true of the value between operations, if it started as `first`.
    spec fn kept(&self, terms: Self::Terms, first: Self) -> bool;
}

/// A value behind a lock, with the terms it is kept on and the value it started as. The
/// fields are private: the value is what `new` was given, changed by the operations
/// that `with` let in.
#[verifier::reject_recursive_types(S)]
pub struct Lock<S: Guarded> {
    terms: S::Terms,
    first: Ghost<S>,
    value: parking_lot::Mutex<S>,
}

impl<S: Guarded> Lock<S> {
    /// The terms on which the value is kept.
    pub closed spec fn terms(&self) -> S::Terms {
        self.terms
    }

    /// The value as it was put behind the lock.
    pub closed spec fn first(&self) -> S {
        self.first@
    }

    /// Puts a value behind a lock.
    pub fn new(terms: S::Terms, value: S) -> (lock: Lock<S>)
        requires
            value.kept(terms, value),
        ensures
            lock.terms() == terms,
            lock.first() == value,
    {
        Lock { terms, first: Ghost(value), value: mutex_new(value) }
    }

    /// The terms on which the value is kept.
    pub fn settled(&self) -> (terms: &S::Terms)
        ensures
            *terms == self.terms(),
    {
        &self.terms
    }

    /// `r` is a result of the operation on some value that is in order.
    pub open spec fn yields<R, F: FnOnce(&mut S) -> R>(&self, f: F, r: R) -> bool {
        exists|s: &mut S| s.kept(self.terms(), self.first()) && #[trigger] call_ensures(f, (s,), r)
    }

    /// Calls `parking_lot::Mutex::lock` and runs the operation on the value behind
    /// the guard. The mutex lets one thread at a time at the value, and no one else
    /// can reach it, so the operation finds it as the last one left it: in order,
    /// since every operation leaves it in order. What else is in it is up to the
    /// other threads. An operation that came back to the same lock would wait for
    /// itself for ever. The operations handed in here do not: they drop no payload and no
    /// provider, and ask a provider only if it was replaced `u64::MAX` times before it
    /// could be asked outside.
    #[verifier::external_body]
    pub(crate) fn with<R, F: FnOnce(&mut S) -> R>(&self, f: F) -> (r: R)
        requires
            forall|s: &mut S| s.kept(self.terms(), self.first()) ==> #[trigger] call_requires(f, (s,)),
            forall|s: &mut S, out: R|
                s.kept(self.terms(), self.first()) && #[trigger] call_ensures(f, (s,), out) ==> final(s).kept(
                    self.terms(),
                    self.first(),
                ),
        ensures
            self.yields(f, r),
    {
        f(&mut *self.value.lock())
    }
}

/// Number of times that waiting threads were told of something.
pub struct Ticks {
    count: u64,
}

impl Guarded for Ticks {
    type Terms = ();

    open spec fn kept(&self, terms: (), first: Ticks) -> bool {
        true
    }
}

impl Ticks {
    /// The number.
    pub closed spec fn seen(&self) -> u64 {
        self.count
    }

    /// Nothing was told yet.
    pub fn new() -> (ticks: Ticks)
        ensures
            ticks.seen() == 0,
    {
        Ticks { count: 0 }
    }

    /// The number.
    pub fn count(&self) -> (n: u64)
        ensures
            n == self.seen(),
    {
        self.count
    }

    /// Counts one more, starting over after the largest number.
    pub fn advance(&mut self)
        ensures
            final(self).seen() == old(self).seen().wrapping_add(1),
            final(self).seen() != old(self).seen(),
    {
        self.count = self.count.wrapping_add(1);
    }

    /// Whether the number is still the one that was observed.
    fn is_still(&self, observed: u64) -> (b: bool)
        ensures
            b == (self.seen() == observed),
    {
        self.count == observed
    }
}

/// Whether a count tells of something that has changed since `observed` was the count.
pub fn has_changed(count: u64, observed: u64) -> (b: bool)
    ensures
        b == (count != observed),
{
    count != observed
}

/// What a thread that waits has tried so far: what it tries with, the result if there is
/// one, and what its attempts have left to be done.
#[verifier::reject_recursive_types(R)]
pub struct Trial<I, R, D> {
    /// What the next attempt starts from.
    pub input: Option<I>,
    /// The result of the attempt that brought one.
    pub result: Option<R>,
    /// What the attempts have left to be done.
    pub rests: Vec<D>,
    /// What is true of results.
    pub may: Ghost<spec_fn(R) -> bool>,
}

impl<I, R, D> Trial<I, R, D> {
    /// What is true of results.
    pub open spec fn may(&self) -> spec_fn(R) -> bool {
        self.may@
    }

    /// The trial can be what has become of `first`: as long as there is no result, the
    /// next attempt starts from the same, and a result is as it may be.
    pub open spec fn follows(&self, first: &Trial<I, R, D>) -> bool {
        &&& self.may() == first.may()
        &&& match self.result {
            Some(r) => self.may()(r),
            None => self.input == first.input,
        }
    }

    /// Nothing was tried yet.
    pub fn new(input: Option<I>, may: Ghost<spec_fn(R) -> bool>) -> (trial: Trial<I, R, D>)
        ensures
            trial.input == input,
            trial.result is None,
            trial.may() == may@,
    {
        Trial { input, result: None, rests: Vec::new(), may }
    }
}

/// Signal by which threads wait for something to change. The count is changed and
/// looked at under one lock, so no change between a look and a wait is missed.
pub struct WorkSignal {
    ticks: Lock<Ticks>,
    condvar: parking_lot::Condvar,
}

impl WorkSignal {
    /// The count that the signal started from.
    pub closed spec fn start(&self) -> u64 {
        self.ticks.first().seen()
    }

    /// A signal that nothing was told through.
    pub fn new() -> (signal: WorkSignal)
        ensures
            signal.start() == 0,
    {
        WorkSignal { ticks: Lock::new((), Ticks::new()), condvar: condvar_new() }
    }

    /// The count behind the lock was looked at, and was this.
    pub open spec fn was_seen(&self, n: u64) -> bool {
        exists|k: &Ticks| #[trigger] call_ensures(Ticks::count, (k,), n)
    }

    /// The threads that wait were woken.
    pub closed spec fn has_woken(&self) -> bool {
        call_ensures(WorkSignal::wake_all, (self,), ())
    }

    /// The count behind the lock was raised, and the threads that wait were woken.
    pub open spec fn has_told(&self) -> bool {
        &&& exists|k: &mut Ticks| #[trigger] call_ensures(Ticks::advance, (k,), ())
        &&& self.has_woken()
    }

    /// The count was waited for to change, for so long at most, and was this in the end.
    pub closed spec fn was_awaited(&self, observed: u64, longest: Duration, n: u64) -> bool {
        exists|secs: u64, nanos: u32| #[trigger]
            call_ensures(WorkSignal::wait_while_still_for, (self, observed, secs, nanos), n) && (
            secs * 1_000_000_000 + nanos == longest.nanos || secs == u64::MAX && nanos
                == 999_999_999)
    }

    /// The count of this moment, to be handed to a wait later on.
    pub fn current(&self) -> (n: u64)
        ensures
            self.was_seen(n),
    {
        let look = |ticks: &mut Ticks| -> (count: u64)
            ensures
                count == old(ticks).seen(),
                exists|k: &Ticks|
                    *k == *old(ticks) && #[trigger] call_ensures(Ticks::count, (k,), count),
            { ticks.count() };
        self.ticks.with(look)
    }

    /// Tells all waiting threads that something has changed.
    pub fn notify_all(&self)
        ensures
            self.has_told(),
    {
        let count_up = |ticks: &mut Ticks|
            ensures
                final(ticks).seen() == old(ticks).seen().wrapping_add(1),
                exists|k: &mut Ticks|
                    *k == *old(ticks) && #[trigger] call_ensures(Ticks::advance, (k,), ()),
            {
                ticks.advance();
            };
        self.ticks.with(count_up);
        self.wake_all();
    }

    /// Calls `parking_lot::Condvar::notify_all`. It wakes the threads that wait; to
    /// the caller it says nothing.
    #[verifier::external_body]
    fn wake_all(&self) {
        self.condvar.notify_all();
    }

    /// Calls `parking_lot::Condvar::wait_while` on the count, which returns once the
    /// count is no longer the observed one.
    #[verifier::external_body]
    fn wait_while_still(&self, observed: u64) -> (count: u64)
        ensures
            count != observed,
    {
        let mut ticks = self.ticks.value.lock();
        self.condvar.wait_while(&mut ticks, |t| t.is_still(observed));
        ticks.count
    }

    /// Calls `parking_lot::Condvar::wait_while_for` on the count, which returns once
    /// the count is no longer the observed one or the time is up. Nothing is claimed
    /// of the count by then.
    #[verifier::external_body]
    fn wait_while_still_for(&self, observed: u64, secs: u64, nanos: u32) -> u64
        requires
            nanos < 1_000_000_000,
    {
        let timeout = std::time::Duration::new(secs, nanos);
        let mut ticks = self.ticks.value.lock();
        self.condvar.wait_while_for(&mut ticks, |t| t.is_still(observed), timeout);
        ticks.count
    }

    /// Tells all waiting threads that something has changed, from within an attempt that
    /// has the count at hand.
    pub fn notify_within(&self, ticks: &mut Ticks)
        ensures
            final(ticks).seen() == old(ticks).seen().wrapping_add(1),
            self.has_woken(),
    {
        ticks.advance();
        self.wake_all();
    }

    /// Calls `parking_lot::Condvar::wait_while` on the count, with the attempt as the
    /// condition: it is made at once and again whenever threads are told of something,
    /// until it brings a result. So what the trial holds in the end is what attempts have
    /// made of it, and there is a result. An attempt that came back to the signal would
    /// wait for itself for ever; none of the attempts handed in here does.
    #[verifier::external_body]
    pub(crate) fn wait_for_result<I, R, D, F: Fn(&mut Ticks, &mut Trial<I, R, D>) -> bool>(
        &self,
        trial: Trial<I, R, D>,
        again: F,
    ) -> (end: Trial<I, R, D>)
        requires
            trial.result is None,
            forall|ticks: &mut Ticks, x: &mut Trial<I, R, D>|
                x.follows(&trial) && x.result is None ==> #[trigger] call_requires(
                    again,
                    (ticks, x),
                ),
            forall|ticks: &mut Ticks, x: &mut Trial<I, R, D>, waits: bool|
                x.follows(&trial) && x.result is None && #[trigger] call_ensures(
                    again,
                    (ticks, x),
                    waits,
                ) ==> final(x).follows(&trial) && waits == final(x).result is None,
        ensures
            end.follows(&trial),
            end.result is Some,
    {
        let mut trial = trial;
        let mut ticks = self.ticks.value.lock();
        self.condvar.wait_while(&mut ticks, |t| again(t, &mut trial));
        trial
    }

    /// Calls `parking_lot::Condvar::wait_while_for` on the count, with the attempt as the
    /// condition, as in `wait_for_result`, but no longer than the given time. So what the
    /// trial holds in the end is what attempts have made of it; whether there is a result
    /// by then is not said.
    #[verifier::external_body]
    pub(crate) fn wait_for_result_until<I, R, D, F: Fn(&mut Ticks, &mut Trial<I, R, D>) -> bool>(
        &self,
        trial: Trial<I, R, D>,
        again: F,
        secs: u64,
        nanos: u32,
    ) -> (end: Trial<I, R, D>)
        requires
            nanos < 1_000_000_000,
            trial.result is None,
            forall|ticks: &mut Ticks, x: &mut Trial<I, R, D>|
                x.follows(&trial) && x.result is None ==> #[trigger] call_requires(
                    again,
                    (ticks, x),
                ),
            forall|ticks: &mut Ticks, x: &mut Trial<I, R, D>, waits: bool|
                x.follows(&trial) && x.result is None && #[trigger] call_ensures(
                    again,
                    (ticks, x),
                    waits,
                ) ==> final(x).follows(&trial) && waits == final(x).result is None,
        ensures
            end.follows(&trial),
    {
        let timeout = std::time::Duration::new(secs, nanos);
        let mut trial = trial;
        let mut ticks = self.ticks.value.lock();
        self.condvar.wait_while_for(&mut ticks, |t| again(t, &mut trial), timeout);
        trial
    }

    /// Waits until something has changed since `observed` was the count, and gives
    /// the count of then.
    pub fn wait_for_change(&self, observed: u64) -> (count: u64)
        ensures
            count != observed,
    {
        self.wait_while_still(observed)
    }

    /// Waits until something has changed since `observed` was the count, but no
    /// longer than `timeout`; says whether something has changed.
    pub fn wait_for_change_timeout(&self, observed: u64, timeout: Duration) -> (changed: bool)
        ensures
            exists|n: u64| #[trigger]
                self.was_awaited(observed, timeout, n) && changed == (n != observed),
    {
        let (secs, nanos) = timeout.parts();
        let n: u64 = self.wait_while_still_for(observed, secs, nanos);
        assert(self.was_awaited(observed, timeout, n));
        has_changed(n, observed)
    }
}

} // verus!
