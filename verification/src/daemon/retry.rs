//! When queued messages are to be tried.

use vstd::prelude::*;

use crate::clock::{is_present_nanos, subsec_nanos_now};
use crate::daemon::span::{Span, LONGEST_NANOS, NANOS_PER_SEC};
use crate::keyed::Keyed;
use crate::search::lemma_push_contains;
use crate::text::views;

verus! {

// ---------------------------------------------------------------------------
// The schedule
// ---------------------------------------------------------------------------

/// When each queued message is due, in nanoseconds on a clock that does not jump.
pub struct RetrySchedule {
    due: Keyed<u128>,
}

impl View for RetrySchedule {
    type V = Map<Seq<char>, u128>;

    closed spec fn view(&self) -> Map<Seq<char>, u128> {
        self.due@
    }
}

impl RetrySchedule {
    pub closed spec fn wf(self) -> bool {
        self.due.wf()
    }

    /// A schedule with nothing on it.
    pub fn new() -> (r: Self)
        ensures
            r.wf(),
            r@ == Map::<Seq<char>, u128>::empty(),
    {
        RetrySchedule { due: Keyed::new() }
    }

    /// Puts a message on the schedule, or puts it elsewhere if it is on it.
    pub fn schedule(&mut self, basename: String, when: u128)
        requires
            old(self).wf(),
        ensures
            final(self).wf(),
            final(self)@ == old(self)@.insert(basename@, when),
    {
        self.due.insert(basename, when);
    }

    /// Takes a message off the schedule.
    pub fn remove(&mut self, basename: &str)
        requires
            old(self).wf(),
        ensures
            final(self).wf(),
            final(self)@ == old(self)@.remove(basename@),
    {
        let _ = self.due.remove(basename);
    }

    /// When a message is due, if it is on the schedule.
    pub fn due_at(&self, basename: &str) -> (r: Option<u128>)
        requires
            self.wf(),
        ensures
            r == (if self@.contains_key(basename@) {
                Some(self@[basename@])
            } else {
                None
            }),
    {
        match self.due.get(basename) {
            Some(t) => Some(*t),
            None => None,
        }
    }

    /// The place of a message that is due first.
    fn earliest(&self) -> (r: Option<usize>)
        requires
            self.wf(),
        ensures
            match r {
                Some(i) => i < self.due.size() && (forall|name: Seq<char>| #[trigger]
                    self@.contains_key(name) ==> self@[self.due.key(i as int)] <= self@[name]),
                None => self.due.size() == 0,
            },
    {
        let n: usize = self.due.len();
        if n == 0 {
            return None;
        }
        let mut best: usize = 0;
        let mut i: usize = 1;
        while i < n
            invariant
                self.wf(),
                n == self.due.size(),
                best < n,
                i <= n,
                forall|j: int|
                    0 <= j < i ==> self@[self.due.key(best as int)] <= self@[#[trigger] self.due.key(
                        j,
                    )],
            decreases n - i,
        {
            if *self.due.value_at(i) < *self.due.value_at(best) {
                best = i;
            }
            i += 1;
        }
        proof {
            self.due.lemma_row();
            assert forall|name: Seq<char>| #[trigger] self@.contains_key(name) implies self@[self.due.key(
                best as int,
            )] <= self@[name] by {
                let j = choose|j: int| 0 <= j < self.due.size() && self.due.key(j) == name;
                assert(self@[self.due.key(best as int)] <= self@[self.due.key(j)]);
            }
        }
        Some(best)
    }

    /// When the first message is due; nothing where none is on the schedule.
    pub fn next_due(&self) -> (r: Option<u128>)
        requires
            self.wf(),
        ensures
            match r {
                Some(t) => (exists|name: Seq<char>| #[trigger]
                    self@.contains_key(name) && self@[name] == t) && (forall|name: Seq<char>|
                 #[trigger]
                    self@.contains_key(name) ==> t <= self@[name]),
                None => self@ == Map::<Seq<char>, u128>::empty(),
            },
    {
        proof {
            self.due.lemma_row();
        }
        match self.earliest() {
            Some(i) => {
                let t: u128 = *self.due.value_at(i);
                proof {
                    let name = self.due.key(i as int);
                    assert(self@.contains_key(name) && self@[name] == t);
                }
                Some(t)
            },
            None => {
                assert(self@ =~= Map::<Seq<char>, u128>::empty());
                None
            },
        }
    }

    /// Takes the messages that are due at `now` off the schedule, earliest first.
    pub fn drain_due(&mut self, now: u128) -> (r: Vec<String>)
        requires
            old(self).wf(),
        ensures
            final(self).wf(),
            final(self)@ == old(self)@.restrict(
                Set::new(|name: Seq<char>| old(self)@.contains_key(name) && old(self)@[name] > now),
            ),
            views(r@).no_duplicates(),
            forall|name: Seq<char>| #[trigger]
                views(r@).contains(name) <==> old(self)@.contains_key(name) && old(self)@[name]
                    <= now,
            forall|i: int, j: int|
                0 <= i < j < r@.len() ==> old(self)@[#[trigger] views(r@)[i]]
                    <= old(self)@[#[trigger] views(r@)[j]],
    {
        let ghost all = self@;
        let mut out: Vec<String> = Vec::new();
        loop
            invariant
                self.wf(),
                all == old(self)@,
                views(out@).no_duplicates(),
                forall|name: Seq<char>| #[trigger]
                    self@.contains_key(name) ==> all.contains_key(name) && self@[name] == all[name]
                        && !views(out@).contains(name),
                forall|name: Seq<char>| #[trigger]
                    all.contains_key(name) ==> self@.contains_key(name) || views(out@).contains(
                        name,
                    ),
                forall|name: Seq<char>| #[trigger]
                    views(out@).contains(name) ==> all.contains_key(name) && all[name] <= now,
                forall|i: int, j: int|
                    0 <= i < j < out@.len() ==> all[#[trigger] views(out@)[i]]
                        <= all[#[trigger] views(out@)[j]],
                forall|i: int, name: Seq<char>|
                    0 <= i < out@.len() && self@.contains_key(name) ==> all[#[trigger] views(
                        out@,
                    )[i]] <= #[trigger] self@[name],
            decreases self.due.size(),
        {
            let ghost before = self@;
            let ghost size = self.due.size();
            let ghost taken = views(out@);
            let at = match self.earliest() {
                Some(i) => i,
                None => {
                    proof {
                        self.due.lemma_row();
                        let rest = all.restrict(
                            Set::new(|name: Seq<char>| all.contains_key(name) && all[name] > now),
                        );
                        assert(self@ =~= rest);
                    }
                    return out;
                },
            };
            proof {
                self.due.lemma_row();
            }
            if *self.due.value_at(at) > now {
                proof {
                    let rest = all.restrict(
                        Set::new(|name: Seq<char>| all.contains_key(name) && all[name] > now),
                    );
                    assert forall|name: Seq<char>| rest.contains_key(name) implies #[trigger] self@.contains_key(
                        name,
                    ) by {
                        assert(all.contains_key(name));
                    }
                    assert(self@ =~= rest);
                }
                return out;
            }
            let name = self.due.key_at(at).clone();
            let ghost first = name@;
            let _ = self.due.remove(name.as_str());
            out.push(name);
            proof {
                assert(views(out@) =~= taken.push(first));
                assert forall|x: Seq<char>| #[trigger] views(out@).contains(x) <==> taken.contains(x)
                    || x == first by {
                    lemma_push_contains(taken, first, x);
                }
                assert forall|x: Seq<char>| #[trigger] self@.contains_key(x) implies all.contains_key(x)
                    && self@[x] == all[x] && !views(out@).contains(x) by {
                    assert(before.contains_key(x));
                }
                assert forall|x: Seq<char>| #[trigger] all.contains_key(x) implies self@.contains_key(x)
                    || views(out@).contains(x) by {
                    assert(before.contains_key(x) || taken.contains(x));
                }
                assert forall|i: int, j: int| 0 <= i < j < out@.len() implies all[#[trigger] views(
                    out@,
                )[i]] <= all[#[trigger] views(out@)[j]] by {
                    if j < taken.len() {
                        assert(views(out@)[i] == taken[i]);
                        assert(views(out@)[j] == taken[j]);
                    } else {
                        assert(views(out@)[i] == taken[i]);
                        assert(all[taken[i]] <= before[first]);
                    }
                }
                assert forall|i: int, x: Seq<char>|
                    0 <= i < out@.len() && self@.contains_key(x) implies all[#[trigger] views(
                    out@,
                )[i]] <= #[trigger] self@[x] by {
                    assert(before.contains_key(x));
                    if i < taken.len() {
                        assert(views(out@)[i] == taken[i]);
                        assert(all[taken[i]] <= before[x]);
                    }
                }
            }
        }
    }
}

// ---------------------------------------------------------------------------
// How long to wait
// ---------------------------------------------------------------------------

/// For how many attempts the wait doubles.
pub const BACKOFF_ATTEMPT_CAP: u32 = 30;

/// Two to the power of `n`.
pub open spec fn doublings(n: nat) -> nat
    decreases n,
{
    if n == 0 {
        1
    } else {
        2 * doublings((n - 1) as nat)
    }
}

/// How often the wait has doubled by the attempt of this number, counted from one.
pub open spec fn backoff_exponent(attempts: u32) -> nat {
    if attempts == 0 {
        0
    } else if attempts - 1 < BACKOFF_ATTEMPT_CAP {
        (attempts - 1) as nat
    } else {
        BACKOFF_ATTEMPT_CAP as nat
    }
}

/// The wait in seconds before chance comes in: the base, doubled for every attempt but
/// the first, no more than the cap and no less than a second.
pub open spec fn raw_delay(attempts: u32, base_secs: u64, cap_secs: u64) -> int {
    let grown = base_secs * doublings(backoff_exponent(attempts));
    let capped = if grown < cap_secs {
        grown
    } else {
        cap_secs as int
    };
    if capped < 1 {
        1
    } else {
        capped
    }
}

/// A wait of `raw` seconds, in nanoseconds, moved by up to a fifth either way as `nanos`
/// goes from zero to a second, and no less than a second.
pub open spec fn jittered(raw: int, nanos: u32) -> int {
    let n = raw * (4_000_000_000 + 2 * nanos) / 5;
    if n < NANOS_PER_SEC {
        NANOS_PER_SEC as int
    } else {
        n
    }
}

/// Even moved up by a fifth, the wait is one that there is.
pub open spec fn wait_fits(attempts: u32, base_secs: u64, cap_secs: u64) -> bool {
    raw_delay(attempts, base_secs, cap_secs) * 6 <= 5 * u64::MAX
}

proof fn lemma_doublings_positive(n: nat)
    ensures
        doublings(n) >= 1,
    decreases n,
{
    if n > 0 {
        lemma_doublings_positive((n - 1) as nat);
    }
}

proof fn lemma_doublings(n: nat)
    requires
        n <= 30,
    ensures
        1 <= doublings(n) <= 0x4000_0000,
    decreases 30 - n,
{
    lemma_doublings_positive(n);
    if n < 30 {
        lemma_doublings(n + 1);
    } else {
        assert(doublings(30) == 0x4000_0000) by {
            reveal_with_fuel(doublings, 31);
        }
    }
}

/// The wait in seconds before chance comes in.
pub fn raw_delay_secs(attempts: u32, base_secs: u64, cap_secs: u64) -> (r: u64)
    ensures
        r == raw_delay(attempts, base_secs, cap_secs),
{
    let exponent: u32 = if attempts == 0 {
        0
    } else if attempts - 1 < BACKOFF_ATTEMPT_CAP {
        attempts - 1
    } else {
        BACKOFF_ATTEMPT_CAP
    };
    let mut factor: u128 = 1;
    let mut i: u32 = 0;
    while i < exponent
        invariant
            i <= exponent <= 30,
            factor == doublings(i as nat),
            factor <= 0x4000_0000,
        decreases exponent - i,
    {
        proof {
            lemma_doublings((i + 1) as nat);
        }
        factor = factor * 2;
        i += 1;
    }
    assert(base_secs * factor <= 0xffff_ffff_ffff_ffff * 0x4000_0000) by (nonlinear_arith)
        requires
            base_secs <= 0xffff_ffff_ffff_ffff,
            factor <= 0x4000_0000,
    ;
    let grown: u128 = base_secs as u128 * factor;
    let capped: u64 = if grown < cap_secs as u128 {
        grown as u64
    } else {
        cap_secs
    };
    if capped < 1 {
        1
    } else {
        capped
    }
}

/// How long to wait after the attempt of this number has failed, by where in the
/// present second it is.
pub fn backoff_delay_at(attempts: u32, base_secs: u64, cap_secs: u64, nanos: u32) -> (r: Span)
    requires
        wait_fits(attempts, base_secs, cap_secs),
        nanos < 1_000_000_000,
    ensures
        r.nanos == jittered(raw_delay(attempts, base_secs, cap_secs), nanos),
        r.nanos <= LONGEST_NANOS,
{
    let raw: u128 = raw_delay_secs(attempts, base_secs, cap_secs) as u128;
    let scale: u128 = 4_000_000_000 + 2 * (nanos as u128);
    assert(raw * scale <= 0xffff_ffff_ffff_ffff * 6_000_000_000) by (nonlinear_arith)
        requires
            raw <= 0xffff_ffff_ffff_ffff,
            scale <= 6_000_000_000,
    ;
    assert(raw * scale <= raw * 6_000_000_000) by (nonlinear_arith)
        requires
            scale <= 6_000_000_000,
    ;
    let moved: u128 = raw * scale / 5;
    if moved < NANOS_PER_SEC {
        Span { nanos: NANOS_PER_SEC }
    } else {
        Span { nanos: moved }
    }
}

/// How long to wait after the attempt of this number has failed. Chance moves the wait by
/// up to a fifth either way, so that messages that failed together are not tried
/// together.
pub fn backoff_delay(attempts: u32, base_secs: u64, cap_secs: u64) -> (r: Span)
    requires
        wait_fits(attempts, base_secs, cap_secs),
    ensures
        exists|nanos: u32|
            nanos < 1_000_000_000 && is_present_nanos(nanos) && r.nanos == #[trigger] jittered(
                raw_delay(attempts, base_secs, cap_secs),
                nanos,
            ),
        r.nanos <= LONGEST_NANOS,
{
    let nanos = subsec_nanos_now();
    backoff_delay_at(attempts, base_secs, cap_secs, nanos)
}

/// Chance moves a wait by no more than a fifth, and never below a second.
pub proof fn law_jitter_is_a_fifth(raw: int, nanos: u32)
    requires
        raw >= 1,
        nanos < 1_000_000_000,
    ensures
        jittered(raw, nanos) >= NANOS_PER_SEC,
        jittered(raw, nanos) * 5 >= raw * 4 * NANOS_PER_SEC,
        jittered(raw, nanos) * 5 <= raw * 6 * NANOS_PER_SEC,
{
    let scale = 4_000_000_000 + 2 * nanos;
    assert(raw * 4_000_000_000 <= raw * scale <= raw * 6_000_000_000) by (nonlinear_arith)
        requires
            raw >= 1,
            4_000_000_000 <= scale <= 6_000_000_000,
    ;
}

/// Every attempt but the first doubles the wait, up to the cap.
pub proof fn law_delay_doubles(attempts: u32, base_secs: u64, cap_secs: u64)
    requires
        1 <= attempts <= 30,
        base_secs >= 1,
        cap_secs >= 1,
    ensures
        raw_delay(1, base_secs, cap_secs) == (if base_secs < cap_secs {
            base_secs
        } else {
            cap_secs
        }),
        raw_delay((attempts + 1) as u32, base_secs, cap_secs) == (if 2 * raw_delay(
            attempts,
            base_secs,
            cap_secs,
        ) < cap_secs {
            2 * raw_delay(attempts, base_secs, cap_secs)
        } else {
            cap_secs as int
        }),
{
    let e = backoff_exponent(attempts);
    assert(backoff_exponent((attempts + 1) as u32) == e + 1);
    lemma_doublings_positive(e);
    let d = doublings(e);
    assert(doublings(e + 1) == 2 * d);
    assert(base_secs * (2 * d) == 2 * (base_secs * d)) by (nonlinear_arith);
    assert(base_secs * d >= 1) by (nonlinear_arith)
        requires
            base_secs >= 1,
            d >= 1,
    ;
    assert(doublings(0) == 1);
    assert(base_secs * doublings(0) == base_secs);
}

/// A wait is never less than a second nor more than the cap, if that is a second or more. A
/// longer base, a longer cap and a later attempt never make it shorter. After many attempts
/// it stays as it is, and an attempt without a number counts as the first.
pub proof fn law_delay_keeps_its_bounds(
    attempts: u32,
    later: u32,
    base_secs: u64,
    more_base: u64,
    cap_secs: u64,
    more_cap: u64,
)
    requires
        attempts <= later,
        base_secs <= more_base,
        cap_secs <= more_cap,
    ensures
        raw_delay(attempts, base_secs, cap_secs) >= 1,
        cap_secs >= 1 ==> raw_delay(attempts, base_secs, cap_secs) <= cap_secs,
        cap_secs == 0 || base_secs == 0 ==> raw_delay(attempts, base_secs, cap_secs) == 1,
        raw_delay(attempts, base_secs, cap_secs) <= raw_delay(later, base_secs, cap_secs),
        raw_delay(attempts, base_secs, cap_secs) <= raw_delay(attempts, more_base, cap_secs),
        raw_delay(attempts, base_secs, cap_secs) <= raw_delay(attempts, base_secs, more_cap),
        raw_delay(0, base_secs, cap_secs) == raw_delay(1, base_secs, cap_secs),
        attempts > 30 ==> raw_delay(attempts, base_secs, cap_secs) == raw_delay(
            31,
            base_secs,
            cap_secs,
        ),
{
    let e = backoff_exponent(attempts);
    let f = backoff_exponent(later);
    assert(e <= f);
    lemma_doublings_grow(e, f);
    lemma_doublings_positive(e);
    let d = doublings(e);
    let g = doublings(f);
    assert(base_secs * d <= base_secs * g) by (nonlinear_arith)
        requires
            d <= g,
    ;
    assert(base_secs * d <= more_base * d) by (nonlinear_arith)
        requires
            base_secs <= more_base,
    ;
    if base_secs == 0 {
        assert(base_secs * d == 0) by (nonlinear_arith)
            requires
                base_secs == 0,
        ;
    }
    assert(base_secs * d >= 0) by (nonlinear_arith);
}

proof fn lemma_doublings_grow(a: nat, b: nat)
    requires
        a <= b,
    ensures
        doublings(a) <= doublings(b),
    decreases b,
{
    if a < b {
        lemma_doublings_positive((b - 1) as nat);
        lemma_doublings_grow(a, (b - 1) as nat);
    }
}

/// Chance moves a wait of two seconds or more evenly: in the middle of a second not at all,
/// before that down and after that up, by two nanoseconds in five for every nanosecond and
/// every second of the wait.
pub proof fn law_jitter_is_even(raw: int, early: u32, late: u32)
    requires
        raw >= 2,
        early <= late < 1_000_000_000,
    ensures
        jittered(raw, 500_000_000) == raw * 1_000_000_000,
        jittered(raw, early) <= jittered(raw, late),
        (jittered(raw, late) - jittered(raw, early)) * 5 > raw * 2 * (late - early) - 5,
        (jittered(raw, late) - jittered(raw, early)) * 5 < raw * 2 * (late - early) + 5,
{
    let a = 4_000_000_000 + 2 * early as int;
    let b = 4_000_000_000 + 2 * late as int;
    assert(raw * a >= 8_000_000_000 && raw * b >= raw * a) by (nonlinear_arith)
        requires
            raw >= 2,
            4_000_000_000 <= a <= b,
    ;
    assert(raw * b - raw * a == raw * 2 * (late - early)) by (nonlinear_arith)
        requires
            a == 4_000_000_000 + 2 * early as int,
            b == 4_000_000_000 + 2 * late as int,
    ;
    assert(raw * 5_000_000_000 / 5 == raw * 1_000_000_000);
}

/// What is taken off the schedule at a time is something exactly if the first message is due
/// by then.
pub proof fn law_first_due_says_when_to_look(q: &RetrySchedule, first: Option<u128>, now: u128)
    requires
        q.wf(),
        call_ensures(RetrySchedule::next_due, (q,), first),
    ensures
        first is None <==> q@ == Map::<Seq<char>, u128>::empty(),
        forall|s: &mut RetrySchedule, r: Vec<String>| #[trigger]
            call_ensures(RetrySchedule::drain_due, (s, now), r) && s@ == q@ ==> {
                &&& r@.len() > 0 <==> first is Some && first->0 <= now
                &&& r@.len() > 0 ==> q@.contains_key(r@[0]@) && q@[r@[0]@] == first->0
            },
{
    if first is Some {
        let t = first->0;
        let name = choose|name: Seq<char>| #[trigger] q@.contains_key(name) && q@[name] == t;
        assert(q@ != Map::<Seq<char>, u128>::empty());
        assert forall|s: &mut RetrySchedule, r: Vec<String>| #[trigger]
            call_ensures(RetrySchedule::drain_due, (s, now), r) && s@ == q@ implies {
            &&& r@.len() > 0 <==> t <= now
            &&& r@.len() > 0 ==> q@.contains_key(r@[0]@) && q@[r@[0]@] == t
        } by {
            let v = views(r@);
            assert(v.len() == r@.len());
            if t <= now {
                assert(v.contains(name));
            }
            if r@.len() > 0 {
                assert(v[0] == r@[0]@);
                assert(v.contains(v[0]));
                assert(q@[v[0]] <= now);
                assert(v.contains(name));
                let k = choose|k: int| 0 <= k < v.len() && v[k] == name;
                if k > 0 {
                    assert(q@[v[0]] <= q@[v[k]]);
                }
            }
        }
    } else {
        assert forall|s: &mut RetrySchedule, r: Vec<String>| #[trigger]
            call_ensures(RetrySchedule::drain_due, (s, now), r) && s@ == q@ implies r@.len() == 0 by {
            let v = views(r@);
            assert(v.len() == r@.len());
            if r@.len() > 0 {
                assert(v.contains(v[0]));
            }
        }
    }
}

} // verus!
