//! The amortization engine: loan parameters, the payment-schedule validity
//! check, the day-by-day payoff simulation, and the snapshot of a finished
//! run.
//!
//! All monetary values are whole cents (`u64` for inputs, `u128` for running
//! balances) and the annual rate is in hundredths of a percent, so a rate of
//! 7.50% is the integer 750. Interest for a day is the exact rational
//! `balance * rate / divisor` rounded to whole cents, halves up — the integer
//! counterpart of rounding a monetary value to two decimal places.

use crate::duration::{days_to_human_time, spec_human_duration};
use crate::rounding::{
    div_round_half, lemma_div_round_half_le_numerator, lemma_div_round_half_mono,
    lemma_div_round_half_nonneg,
};
use vstd::prelude::*;

verus! {

/// How often accrued interest is added to the balance.
#[derive(Debug, Clone, Copy, PartialEq, Eq, Structural)]
pub enum Compounding {
    Daily,
    Monthly,
    Yearly,
}

/// The compounding mode a free-form label stands for: `"daily"`, `"monthly"`
/// or `"yearly"`. Any other label deliberately falls back to `Daily`.
pub open spec fn spec_from_label(s: Seq<char>) -> Compounding {
    if s == "daily"@ {
        Compounding::Daily
    } else if s == "monthly"@ {
        Compounding::Monthly
    } else if s == "yearly"@ {
        Compounding::Yearly
    } else {
        Compounding::Daily
    }
}

impl Compounding {
    /// Parse a compounding label; unrecognized labels fall back to `Daily`.
    pub fn from_label(label: &str) -> (c: Compounding)
        ensures
            c == spec_from_label(label@),
    {
        let owned = label.to_owned();
        if owned == String::from_str("daily") {
            Compounding::Daily
        } else if owned == String::from_str("monthly") {
            Compounding::Monthly
        } else if owned == String::from_str("yearly") {
            Compounding::Yearly
        } else {
            Compounding::Daily
        }
    }

    /// The number of days between applications of interest in this mode.
    pub open spec fn period(self) -> int {
        match self {
            Compounding::Daily => 1,
            Compounding::Monthly => 30,
            Compounding::Yearly => 365,
        }
    }

    /// The divisor that turns `balance * rate` into one application's
    /// interest: the rate unit (hundredths of a percent, 10000 per whole)
    /// times the number of applications per year (365, 12 or 1).
    pub open spec fn divisor(self) -> int {
        match self {
            Compounding::Daily => 3_650_000,
            Compounding::Monthly => 120_000,
            Compounding::Yearly => 10_000,
        }
    }
}

impl From<String> for Compounding {
    /// Parse an owned compounding label; unrecognized labels fall back to
    /// `Daily`.
    fn from(value: String) -> (c: Compounding) {
        Compounding::from_label(value.as_str())
    }
}

impl vstd::std_specs::convert::FromSpecImpl<String> for Compounding {
    open spec fn obeys_from_spec() -> bool {
        true
    }

    open spec fn from_spec(value: String) -> Compounding {
        spec_from_label(value@)
    }
}

/// Whether interest is applied on the given day (days count from 1): daily
/// compounding applies every day, monthly on each 30th day, yearly on each
/// 365th day. Day 0 never applies, so freshly constructed loans do not
/// receive interest before a single day has passed.
pub open spec fn applies_on(c: Compounding, day: int) -> bool {
    day > 0 && day % c.period() == 0
}

/// The interest, in whole cents, added to `balance` on the given day:
/// `balance * rate / divisor` rounded half-up when interest applies on that
/// day, and zero otherwise.
pub open spec fn day_interest(c: Compounding, rate: int, day: int, balance: int) -> int {
    if applies_on(c, day) {
        div_round_half(balance * rate, c.divisor())
    } else {
        0
    }
}

/// A day's interest is never negative.
pub proof fn lemma_day_interest_nonneg(c: Compounding, rate: int, day: int, balance: int)
    requires
        rate >= 0,
        balance >= 0,
    ensures
        day_interest(c, rate, day, balance) >= 0,
{
    if applies_on(c, day) {
        assert(balance * rate >= 0) by (nonlinear_arith)
            requires
                rate >= 0,
                balance >= 0,
        ;
        lemma_div_round_half_nonneg(balance * rate, c.divisor());
    }
}

/// A day's interest is monotone in the balance it accrues on.
pub proof fn lemma_day_interest_mono(c: Compounding, rate: int, day: int, b1: int, b2: int)
    requires
        rate >= 0,
        0 <= b1 <= b2,
    ensures
        day_interest(c, rate, day, b1) <= day_interest(c, rate, day, b2),
{
    if applies_on(c, day) {
        assert(b1 * rate <= b2 * rate) by (nonlinear_arith)
            requires
                rate >= 0,
                0 <= b1 <= b2,
        ;
        lemma_div_round_half_mono(b1 * rate, b2 * rate, c.divisor());
    }
}

/// A day's interest never exceeds the balance times the largest possible
/// rate, so a caller that keeps the balance under a guard can add the
/// interest to it without overflowing.
pub proof fn lemma_day_interest_bound(c: Compounding, rate: int, day: int, balance: int)
    requires
        0 <= rate <= u32::MAX,
        0 <= balance,
    ensures
        day_interest(c, rate, day, balance) <= balance * (u32::MAX as int),
{
    if applies_on(c, day) {
        assert(balance * rate >= 0) by (nonlinear_arith)
            requires
                rate >= 0,
                balance >= 0,
        ;
        lemma_div_round_half_le_numerator(balance * rate, c.divisor());
        assert(balance * rate <= balance * (u32::MAX as int)) by (nonlinear_arith)
            requires
                0 <= rate <= u32::MAX,
                0 <= balance,
        ;
    } else {
        assert(balance * (u32::MAX as int) >= 0) by (nonlinear_arith)
            requires
                balance >= 0,
        ;
    }
}

/// Compute one day's interest in cents on the current balance.
///
/// The balance bound keeps `balance * rate` within `u128`; every caller runs
/// under a far smaller balance guard.
fn interest_on_day(c: Compounding, rate: u32, day: u64, balance: u128) -> (i: u128)
    requires
        day >= 1,
        balance <= 0x8000_0000_0000_0000_0000_0000u128,
    ensures
        i as int == day_interest(c, rate as int, day as int, balance as int),
{
    proof {
        assert(balance as int * rate as int <= 0x8000_0000_0000_0000_0000_0000int * u32::MAX as int)
            by (nonlinear_arith)
            requires
                0 <= balance <= 0x8000_0000_0000_0000_0000_0000int,
                0 <= rate <= u32::MAX as int,
        ;
        lemma_day_interest_nonneg(c, rate as int, day as int, balance as int);
    }
    match c {
        Compounding::Daily => (balance * rate as u128 + 1_825_000) / 3_650_000,
        Compounding::Monthly => {
            if day % 30 == 0 {
                (balance * rate as u128 + 60_000) / 120_000
            } else {
                0
            }
        },
        Compounding::Yearly => {
            if day % 365 == 0 {
                (balance * rate as u128 + 5_000) / 10_000
            } else {
                0
            }
        },
    }
}

/// The balance after `days` further days of pure accrual starting from `b`,
/// with day counting starting at 1: interest is applied (and rounded to whole
/// cents) on each day the compounding mode hits, and nothing is paid.
pub open spec fn grow(c: Compounding, rate: int, days: nat, b: int) -> int
    decreases days,
{
    if days == 0 {
        b
    } else {
        let x = grow(c, rate, (days - 1) as nat, b);
        x + day_interest(c, rate, days as int, x)
    }
}

/// Accrual never shrinks a nonnegative balance.
pub proof fn lemma_grow_ge(c: Compounding, rate: int, days: nat, b: int)
    requires
        rate >= 0,
        b >= 0,
    ensures
        grow(c, rate, days, b) >= b,
    decreases days,
{
    if days > 0 {
        lemma_grow_ge(c, rate, (days - 1) as nat, b);
        lemma_day_interest_nonneg(c, rate, days as int, grow(c, rate, (days - 1) as nat, b));
    }
}

/// Accrual is monotone in the number of days it runs.
pub proof fn lemma_grow_mono_days(c: Compounding, rate: int, d1: nat, d2: nat, b: int)
    requires
        rate >= 0,
        b >= 0,
        d1 <= d2,
    ensures
        grow(c, rate, d1, b) <= grow(c, rate, d2, b),
    decreases d2,
{
    if d1 < d2 {
        lemma_grow_mono_days(c, rate, d1, (d2 - 1) as nat, b);
        lemma_grow_ge(c, rate, (d2 - 1) as nat, b);
        lemma_day_interest_nonneg(c, rate, d2 as int, grow(c, rate, (d2 - 1) as nat, b));
    }
}

/// Accrual is monotone in the starting balance.
pub proof fn lemma_grow_mono_balance(c: Compounding, rate: int, days: nat, b1: int, b2: int)
    requires
        rate >= 0,
        0 <= b1 <= b2,
    ensures
        grow(c, rate, days, b1) <= grow(c, rate, days, b2),
    decreases days,
{
    if days > 0 {
        lemma_grow_mono_balance(c, rate, (days - 1) as nat, b1, b2);
        lemma_grow_ge(c, rate, (days - 1) as nat, b1);
        lemma_day_interest_mono(
            c,
            rate,
            days as int,
            grow(c, rate, (days - 1) as nat, b1),
            grow(c, rate, (days - 1) as nat, b2),
        );
    }
}

/// The interest gathered by a run of accrual is monotone in the starting
/// balance: a smaller balance accrues no more interest than a larger one
/// over the same days.
pub proof fn lemma_grow_interest_mono(c: Compounding, rate: int, days: nat, b1: int, b2: int)
    requires
        rate >= 0,
        0 <= b1 <= b2,
    ensures
        grow(c, rate, days, b1) - b1 <= grow(c, rate, days, b2) - b2,
    decreases days,
{
    if days > 0 {
        lemma_grow_interest_mono(c, rate, (days - 1) as nat, b1, b2);
        lemma_grow_ge(c, rate, (days - 1) as nat, b1);
        lemma_grow_mono_balance(c, rate, (days - 1) as nat, b1, b2);
        lemma_day_interest_mono(
            c,
            rate,
            days as int,
            grow(c, rate, (days - 1) as nat, b1),
            grow(c, rate, (days - 1) as nat, b2),
        );
    }
}

/// Immutable input parameters for one simulation. Monetary fields are whole
/// cents; `rate` is the annual interest rate in hundredths of a percent
/// (750 stands for 7.50% per year); `payday` is the number of days between
/// payments and is at least 1 on every loan built by [`Loan::new`].
#[derive(Debug, Clone, Copy)]
pub struct Loan {
    pub amount: u64,
    pub rate: u32,
    pub compounding: Compounding,
    pub payment: u64,
    pub payday: i32,
}

/// The interest, in cents, that accrues over the first payment interval: one
/// full `payday` run of accrual on the original amount, before any payment.
pub open spec fn interval_interest(l: Loan) -> int {
    grow(l.compounding, l.rate as int, l.payday as nat, l.amount as int) - l.amount
}

/// A schedule is valid exactly when one payment more than covers the
/// interest that accrues over one payment interval on the full principal:
/// only then can the balance shrink from one payday to the next.
pub open spec fn spec_valid(l: Loan) -> bool {
    l.payment as int > interval_interest(l)
}

impl Loan {
    /// A loan is well formed when its payment interval is at least one day;
    /// [`Loan::new`] establishes this by clamping.
    pub open spec fn wf(self) -> bool {
        self.payday >= 1
    }

    /// Build a loan from raw inputs: `amount` and `payment` in cents, `apr`
    /// in hundredths of a percent (the annual percentage rate times 100),
    /// and the compounding label (unrecognized labels fall back to daily).
    /// The payment interval is clamped to at least one day.
    pub fn new(amount: u64, apr: u32, compounding_label: &str, payment: u64, payday: i32) -> (l:
        Loan)
        ensures
            l.wf(),
            l.amount == amount,
            l.rate == apr,
            l.compounding == spec_from_label(compounding_label@),
            l.payment == payment,
            l.payday == if payday < 1 {
                1int
            } else {
                payday as int
            },
    {
        let compounding = Compounding::from_label(compounding_label);
        let payday = if payday < 1 {
            1
        } else {
            payday
        };
        Loan { amount, rate: apr, compounding, payment, payday }
    }

    /// Decide whether the payment schedule can ever pay the loan off: the
    /// result is true exactly when one payment exceeds the interest accrued
    /// over one payment interval on the full principal.
    ///
    /// Interest accrual here follows exactly the same per-day rule as the
    /// payoff simulation, so a valid schedule is guaranteed to shrink the
    /// balance at every payday.
    pub fn is_valid_pay_schedule(&self) -> (r: bool)
        requires
            self.wf(),
        ensures
            r == spec_valid(*self),
    {
        let ghost l = *self;
        let mut balance: u128 = self.amount as u128;
        let mut day: u64 = 0;
        let payday: u64 = self.payday as u64;
        while day < payday
            invariant
                l == *self,
                l.wf(),
                payday == l.payday as int,
                day <= payday,
                balance as int == grow(l.compounding, l.rate as int, day as nat, l.amount as int),
                balance >= l.amount,
            decreases payday - day,
        {
            if balance - self.amount as u128 > u64::MAX as u128 {
                // The interest accrued so far already exceeds any possible
                // payment, and further accrual never shrinks it.
                proof {
                    lemma_grow_mono_days(
                        l.compounding,
                        l.rate as int,
                        day as nat,
                        l.payday as nat,
                        l.amount as int,
                    );
                }
                return false;
            }
            day = day + 1;
            let i = interest_on_day(self.compounding, self.rate, day, balance);
            proof {
                lemma_day_interest_nonneg(l.compounding, l.rate as int, day as int, balance as int);
                lemma_day_interest_bound(l.compounding, l.rate as int, day as int, balance as int);
                assert(balance as int * (u32::MAX as int) <= 0x2_0000_0000_0000_0000int
                    * 0xffff_ffffint) by (nonlinear_arith)
                    requires
                        0 <= balance as int <= 0x2_0000_0000_0000_0000int,
                ;
            }
            balance = balance + i;
        }
        (self.payment as u128) > balance - (self.amount as u128)
    }
}

/// A payment that does not exceed the interest accrued over one payment
/// interval makes the schedule invalid: [`Loan::run_until_done`] then
/// returns [`SimulationError::UnpayableSchedule`] before any simulation
/// work, by its first contract clause.
pub proof fn lemma_unpayable_schedule(l: Loan)
    requires
        l.wf(),
        l.payment as int <= interval_interest(l),
    ensures
        !spec_valid(l),
{
}

/// Schedule validity has no hidden state: it is a pure function of the
/// loan's fields, so any two evaluations of [`Loan::is_valid_pay_schedule`]
/// on the same loan (each of which returns `spec_valid` of the loan, by its
/// contract) agree.
pub proof fn lemma_valid_schedule_deterministic(l: Loan, r1: bool, r2: bool)
    requires
        r1 == spec_valid(l),
        r2 == spec_valid(l),
    ensures
        r1 == r2,
{
}

/// Why a simulation run returned no snapshot.
#[derive(Debug, Clone, Copy, PartialEq, Eq, Structural)]
pub enum SimulationError {
    /// The payment does not exceed the interest that accrues over one
    /// payment interval, so the balance can never shrink and the loan is
    /// never paid off. Raised before any simulation work.
    UnpayableSchedule,
    /// The running balance, the total paid or the day count went past the
    /// simulation's guard limits without reaching payoff. Reachable only for
    /// schedules whose payment interval is not aligned with the compounding
    /// period, where the validity check's first-interval accrual can
    /// understate a later interval's.
    DidNotConverge,
}

/// The running balance above which a simulation gives up. Far above any
/// monetary quantity of interest; it exists so that every arithmetic step of
/// the simulation provably fits in `u128`.
pub const BAL_GUARD: u128 = 0x400_0000_0000_0000_0000_0000;

/// The total-paid amount above which a simulation gives up, for the same
/// reason as [`BAL_GUARD`].
pub const PAID_GUARD: u128 = 0x100_0000_0000_0000_0000_0000_0000_0000;

/// The balance, in cents, after the simulation has processed the given
/// number of days: each day accrues that day's interest (rounded to whole
/// cents), and on every `payday`-th day one payment is applied — in full, or
/// only up to the remaining balance when the payment would overshoot.
pub open spec fn sim_balance(l: Loan, day: nat) -> int
    decreases day,
{
    if day == 0 {
        l.amount as int
    } else {
        let b = sim_balance(l, (day - 1) as nat);
        let b2 = b + day_interest(l.compounding, l.rate as int, day as int, b);
        if day as int % (l.payday as int) == 0 {
            if l.payment as int > b2 {
                0
            } else {
                b2 - l.payment as int
            }
        } else {
            b2
        }
    }
}

/// The total paid, in cents, after the simulation has processed the given
/// number of days.
pub open spec fn sim_paid(l: Loan, day: nat) -> int
    decreases day,
{
    if day == 0 {
        0
    } else {
        let b = sim_balance(l, (day - 1) as nat);
        let b2 = b + day_interest(l.compounding, l.rate as int, day as int, b);
        let p = sim_paid(l, (day - 1) as nat);
        if day as int % (l.payday as int) == 0 {
            if l.payment as int > b2 {
                p + b2
            } else {
                p + l.payment as int
            }
        } else {
            p
        }
    }
}

/// The simulated balance and total paid never go negative.
pub proof fn lemma_sim_nonneg(l: Loan, day: nat)
    requires
        l.wf(),
    ensures
        sim_balance(l, day) >= 0,
        sim_paid(l, day) >= 0,
    decreases day,
{
    if day > 0 {
        lemma_sim_nonneg(l, (day - 1) as nat);
        lemma_day_interest_nonneg(
            l.compounding,
            l.rate as int,
            day as int,
            sim_balance(l, (day - 1) as nat),
        );
    }
}

/// Money is conserved: what has been paid plus what is still owed covers the
/// original amount (the difference is exactly the interest accrued so far).
/// In particular, at payoff the total paid is at least the principal, so the
/// reported total interest is never negative.
pub proof fn lemma_paid_plus_balance(l: Loan, day: nat)
    requires
        l.wf(),
    ensures
        sim_paid(l, day) + sim_balance(l, day) >= l.amount,
    decreases day,
{
    if day > 0 {
        lemma_paid_plus_balance(l, (day - 1) as nat);
        lemma_sim_nonneg(l, (day - 1) as nat);
        lemma_day_interest_nonneg(
            l.compounding,
            l.rate as int,
            day as int,
            sim_balance(l, (day - 1) as nat),
        );
    }
}

/// The simulation is still going after the given day: the loan is not paid
/// off and none of the guard limits has been hit.
pub open spec fn running(l: Loan, day: nat) -> bool {
    &&& sim_balance(l, day) > 0
    &&& sim_balance(l, day) <= BAL_GUARD
    &&& sim_paid(l, day) <= PAID_GUARD
    &&& day < u64::MAX
}

/// The given day is the first on which the simulation stops, by payoff or by
/// hitting a guard limit.
pub open spec fn stops_at(l: Loan, day: nat) -> bool {
    &&& !running(l, day)
    &&& forall|d: nat| d < day ==> running(l, d)
}

/// There is at most one stopping day.
pub proof fn lemma_stops_at_unique(l: Loan, n1: nat, n2: nat)
    requires
        stops_at(l, n1),
        stops_at(l, n2),
    ensures
        n1 == n2,
{
    if n1 < n2 {
        assert(running(l, n1));
    }
    if n2 < n1 {
        assert(running(l, n2));
    }
}

/// When the payment interval is a whole number of compounding periods, every
/// payment interval accrues interest exactly as the first one does: `j` days
/// into the interval that starts after `k` whole intervals, the balance is
/// the pure accrual [`grow`] of the balance the interval started from, and on
/// the interval's last day the payment is applied to that accrued balance.
/// Nothing is paid strictly inside an interval.
pub proof fn lemma_interval_shape(l: Loan, k: nat, j: nat)
    requires
        l.wf(),
        l.payday as int % l.compounding.period() == 0,
        1 <= j <= l.payday,
    ensures
        ({
            let p = l.payday as nat;
            let b0 = sim_balance(l, k * p);
            let g = grow(l.compounding, l.rate as int, j, b0);
            &&& j < p ==> sim_balance(l, k * p + j) == g && sim_paid(l, k * p + j) == sim_paid(
                l,
                k * p,
            )
            &&& j == p ==> sim_balance(l, k * p + j) == (if l.payment as int > g {
                0int
            } else {
                g - l.payment as int
            }) && sim_paid(l, k * p + j) == sim_paid(l, k * p) + (if l.payment as int > g {
                g
            } else {
                l.payment as int
            })
        }),
    decreases j,
{
    let p = l.payday as nat;
    let m = l.compounding.period();
    let b0 = sim_balance(l, k * p);
    if j > 1 {
        lemma_interval_shape(l, k, (j - 1) as nat);
    }
    let b = sim_balance(l, (k * p + j - 1) as nat);
    assert(b == grow(l.compounding, l.rate as int, (j - 1) as nat, b0));
    // Interest falls on day k * p + j exactly when it falls on day j of the
    // first interval: the two days agree modulo the compounding period.
    assert((k * p + j) as int % m == j as int % m) by {
        assert(l.payday as int == m * (l.payday as int / m)) by {
            vstd::arithmetic::div_mod::lemma_fundamental_div_mod(l.payday as int, m);
        }
        let q = l.payday as int / m;
        assert(k * p == m * (k * q)) by (nonlinear_arith)
            requires
                p == m * q,
        ;
        vstd::arithmetic::div_mod::lemma_mod_multiples_vanish(k * q, j as int, m);
    }
    assert(applies_on(l.compounding, (k * p + j) as int) == applies_on(l.compounding, j as int));
    assert(day_interest(l.compounding, l.rate as int, (k * p + j) as int, b) == day_interest(
        l.compounding,
        l.rate as int,
        j as int,
        b,
    ));
    // Day k * p + j is a payday exactly when j is the interval's last day.
    assert((k * p + j) as int % l.payday as int == j as int % l.payday as int) by {
        assert(k * p == l.payday as int * k as int) by (nonlinear_arith)
            requires
                p == l.payday as int,
        ;
        vstd::arithmetic::div_mod::lemma_mod_multiples_vanish(k as int, j as int, l.payday as int);
    }
    if j < p {
        assert(j as int % l.payday as int == j) by {
            vstd::arithmetic::div_mod::lemma_small_mod(j, p);
        }
    } else {
        assert(j as int % l.payday as int == 0) by {
            vstd::arithmetic::div_mod::lemma_mod_self_0(l.payday as int);
        }
    }
}

/// Across one whole payment interval, a valid aligned schedule strictly
/// shrinks a positive balance that is no larger than the principal: the
/// payment more than covers the interval's interest on the principal, hence
/// (interest being monotone in the balance) on the current balance too, so
/// each payday the balance drops by at least one cent.
pub proof fn lemma_interval_decrease(l: Loan, k: nat)
    requires
        l.wf(),
        spec_valid(l),
        l.payday as int % l.compounding.period() == 0,
        1 <= sim_balance(l, k * (l.payday as nat)),
        sim_balance(l, k * (l.payday as nat)) <= l.amount,
    ensures
        0 <= sim_balance(l, (k + 1) * (l.payday as nat)),
        sim_balance(l, (k + 1) * (l.payday as nat)) <= sim_balance(l, k * (l.payday as nat)) - 1,
        sim_paid(l, (k + 1) * (l.payday as nat)) <= sim_paid(l, k * (l.payday as nat))
            + l.amount as int + l.payment as int,
{
    let p = l.payday as nat;
    let c = l.compounding;
    let rate = l.rate as int;
    let b0 = sim_balance(l, k * p);
    lemma_interval_shape(l, k, p);
    assert((k + 1) * p == k * p + p) by (nonlinear_arith);
    let g = grow(c, rate, p, b0);
    lemma_grow_interest_mono(c, rate, p, b0, l.amount as int);
    lemma_grow_ge(c, rate, p, b0);
}

/// The simulation has paid the loan off on day `n`, having run without
/// hitting any guard on every earlier day.
pub open spec fn paid_off_by(l: Loan, n: nat) -> bool {
    &&& sim_balance(l, n) == 0
    &&& forall|d: nat| d < n ==> running(l, d)
}

/// After `k` whole payment intervals the loan is either already paid off, or
/// still shrinking on schedule: at least one cent gone per interval, the run
/// within every guard so far.
spec fn still_shrinking(l: Loan, k: nat) -> bool {
    &&& 1 <= sim_balance(l, k * (l.payday as nat))
    &&& sim_balance(l, k * (l.payday as nat)) <= l.amount - k
    &&& sim_paid(l, k * (l.payday as nat)) <= k * (l.amount as int + l.payment as int)
    &&& forall|d: nat| d < k * (l.payday as nat) ==> running(l, d)
}

proof fn lemma_pays_off_rec(l: Loan, k: nat)
    requires
        l.wf(),
        spec_valid(l),
        l.payday as int % l.compounding.period() == 0,
        l.amount <= 1_000_000_000_000,
        l.payment <= 1_000_000_000_000,
        l.payday <= 100_000,
        k <= l.amount,
    ensures
        (exists|n: nat| n <= k * (l.payday as nat) && paid_off_by(l, n)) || still_shrinking(l, k),
    decreases k,
{
    let p = l.payday as nat;
    let c = l.compounding;
    let rate = l.rate as int;
    if k == 0 {
        assert(k * p == 0 && k * (l.amount as int + l.payment as int) == 0) by (nonlinear_arith)
            requires
                k == 0,
        ;
        if l.amount == 0 {
            assert(paid_off_by(l, 0));
            assert(exists|n: nat| n <= k * p && paid_off_by(l, n));
        } else {
            assert(still_shrinking(l, 0));
        }
    } else {
        let km1 = (k - 1) as nat;
        lemma_pays_off_rec(l, km1);
        assert(km1 * p <= k * p && k * p == km1 * p + p) by (nonlinear_arith)
            requires
                km1 + 1 == k,
                p >= 0,
        ;
        if exists|n: nat| n <= km1 * p && paid_off_by(l, n) {
            let n = choose|n: nat| n <= km1 * p && paid_off_by(l, n);
            assert(n <= k * p && paid_off_by(l, n));
        } else {
            assert(still_shrinking(l, km1));
            let b0 = sim_balance(l, km1 * p);
            lemma_interval_decrease(l, km1);
            // The whole interval stays within the guards: the balance only
            // accrues up to one interval's interest, nothing is paid until
            // the payday, and the day count stays far below its cap.
            assert(k * p < u64::MAX) by (nonlinear_arith)
                requires
                    k <= 1_000_000_000_000int,
                    0 < p <= 100_000int,
            ;
            lemma_grow_interest_mono(c, rate, p, b0, l.amount as int);
            assert(km1 * (l.amount as int + l.payment as int) <= 1_000_000_000_000int
                * 2_000_000_000_000int) by (nonlinear_arith)
                requires
                    0 <= km1 <= 1_000_000_000_000int,
                    0 <= l.amount as int + l.payment as int <= 2_000_000_000_000int,
            ;
            assert forall|d: nat| km1 * p <= d < k * p implies running(l, d) by {
                let j = (d - km1 * p) as nat;
                if j > 0 {
                    lemma_interval_shape(l, km1, j);
                    lemma_grow_mono_days(c, rate, j, p, b0);
                    lemma_grow_ge(c, rate, j, b0);
                }
            }
            assert forall|d: nat| d < k * p implies running(l, d) by {
                if d < km1 * p {
                    assert(running(l, d));
                }
            }
            if sim_balance(l, k * p) == 0 {
                assert(paid_off_by(l, k * p));
                assert(exists|n: nat| n <= k * p && paid_off_by(l, n));
            } else {
                assert(sim_paid(l, k * p) <= k * (l.amount as int + l.payment as int)) by {
                    assert(km1 * (l.amount as int + l.payment as int) + (l.amount as int
                        + l.payment as int) == k * (l.amount as int + l.payment as int))
                        by (nonlinear_arith)
                        requires
                            km1 + 1 == k,
                    ;
                }
                assert(still_shrinking(l, k));
            }
        }
    }
}

/// Every valid schedule whose payment interval is a whole number of
/// compounding periods (any daily schedule, monthly with the interval a
/// multiple of 30 days, yearly a multiple of 365) pays the loan off after
/// finitely many days: the simulation of [`Loan::run_until_done`] reaches a
/// stopping day, and stops by payoff — so, by that method's contract, it
/// returns a snapshot, whose total interest is `paid - principal >= 0` by
/// [`lemma_paid_plus_balance`]. The magnitude bounds keep every intermediate
/// quantity within the simulation's machine-width guards.
pub proof fn lemma_valid_schedule_pays_off(l: Loan)
    requires
        l.wf(),
        spec_valid(l),
        l.payday as int % l.compounding.period() == 0,
        l.amount <= 1_000_000_000_000,
        l.payment <= 1_000_000_000_000,
        l.payday <= 100_000,
    ensures
        exists|n: nat| stops_at(l, n) && sim_balance(l, n) == 0,
{
    let p = l.payday as nat;
    lemma_pays_off_rec(l, l.amount as nat);
    if exists|n: nat| n <= (l.amount as nat) * p && paid_off_by(l, n) {
        let n = choose|n: nat| n <= (l.amount as nat) * p && paid_off_by(l, n);
        assert(stops_at(l, n) && sim_balance(l, n) == 0);
    } else {
        assert(still_shrinking(l, l.amount as nat));
        assert(false);
    }
}

/// For a valid schedule whose payment interval is a whole number of
/// compounding periods, within the magnitude bounds of
/// [`lemma_valid_schedule_pays_off`], the contract of
/// [`Loan::run_until_done`] (restated here as hypotheses on its result)
/// leaves only one outcome: a snapshot of the unique payoff day, whose total
/// interest `paid - principal` is nonnegative.
pub proof fn lemma_valid_run_returns_snapshot(l: Loan, r: Result<Snapshot, SimulationError>)
    requires
        l.wf(),
        spec_valid(l),
        l.payday as int % l.compounding.period() == 0,
        l.amount <= 1_000_000_000_000,
        l.payment <= 1_000_000_000_000,
        l.payday <= 100_000,
        (!spec_valid(l)) <==> (r matches Err(e) && e is UnpayableSchedule),
        r matches Ok(s) ==> exists|n: nat|
            stops_at(l, n) && sim_balance(l, n) == 0 && snapshot_matches(l, s, n),
        (r matches Err(e) && e is DidNotConverge) ==> exists|n: nat|
            stops_at(l, n) && sim_balance(l, n) != 0,
    ensures
        r matches Ok(s) && exists|n: nat|
            stops_at(l, n) && sim_balance(l, n) == 0 && snapshot_matches(l, s, n) && sim_paid(l, n)
                >= l.amount,
{
    lemma_valid_schedule_pays_off(l);
    let n0 = choose|n: nat| stops_at(l, n) && sim_balance(l, n) == 0;
    match r {
        Ok(s) => {
            let n = choose|n: nat|
                stops_at(l, n) && sim_balance(l, n) == 0 && snapshot_matches(l, s, n);
            lemma_paid_plus_balance(l, n);
            assert(stops_at(l, n) && sim_balance(l, n) == 0 && snapshot_matches(l, s, n)
                && sim_paid(l, n) >= l.amount);
        },
        Err(e) => {
            let m = choose|m: nat| stops_at(l, m) && sim_balance(l, m) != 0;
            lemma_stops_at_unique(l, n0, m);
            assert(false);
        },
    }
}

/// Immutable summary of one completed simulation run: the echoed inputs, the
/// payoff time rendered as a human-readable duration, and the total interest
/// paid in cents. `apr` is in hundredths of a percent, as on [`Loan`].
#[derive(Debug, Clone)]
pub struct Snapshot {
    pub amount: u64,
    pub apr: u32,
    pub payment: u64,
    pub every: i32,
    pub human_time: String,
    pub interest: u128,
}

impl Snapshot {
    /// Build a snapshot from the run's outcome. The interest arrives in
    /// whole cents, so it is already rounded to two decimal places; the day
    /// count is rendered through [`days_to_human_time`].
    pub fn new(amount: u64, apr: u32, payment: u64, every: i32, interest: u128, days: u64) -> (s:
        Snapshot)
        ensures
            s.amount == amount,
            s.apr == apr,
            s.payment == payment,
            s.every == every,
            s.interest == interest,
            s.human_time@ == spec_human_duration(days as int),
    {
        let human_time = days_to_human_time(days);
        Snapshot { amount, apr, payment, every, human_time, interest }
    }
}

/// The snapshot reports exactly the simulation's state on its payoff day:
/// echoed inputs, total interest `paid - principal`, and the duration string
/// for that day count.
pub open spec fn snapshot_matches(l: Loan, s: Snapshot, day: nat) -> bool {
    &&& s.amount == l.amount
    &&& s.apr == l.rate
    &&& s.payment == l.payment
    &&& s.every == l.payday
    &&& s.interest == sim_paid(l, day) - l.amount
    &&& s.human_time@ == spec_human_duration(day as int)
}

impl Loan {
    /// Run the day-by-day simulation until the loan is paid off.
    ///
    /// An invalid schedule (one payment does not exceed one interval's
    /// interest on the full principal) is rejected up front with
    /// [`SimulationError::UnpayableSchedule`], before any simulation work.
    /// Otherwise the loop accrues interest each day and applies a payment
    /// every `payday` days, and returns the snapshot of the first day on
    /// which the balance reaches zero. A run that exceeds the guard limits
    /// instead reports [`SimulationError::DidNotConverge`].
    pub fn run_until_done(&self) -> (r: Result<Snapshot, SimulationError>)
        requires
            self.wf(),
        ensures
            (!spec_valid(*self)) <==> (r matches Err(e) && e is UnpayableSchedule),
            r matches Ok(s) ==> exists|n: nat|
                stops_at(*self, n) && sim_balance(*self, n) == 0 && snapshot_matches(*self, s, n),
            (r matches Err(e) && e is DidNotConverge) ==> spec_valid(*self) && exists|n: nat|
                stops_at(*self, n) && sim_balance(*self, n) != 0,
    {
        if !self.is_valid_pay_schedule() {
            // Running the loop on such a schedule would never reach payoff.
            return Err(SimulationError::UnpayableSchedule);
        }
        let ghost l = *self;
        let mut balance: u128 = self.amount as u128;
        let mut paid: u128 = 0;
        let mut day: u64 = 0;
        let payday: u64 = self.payday as u64;
        while balance > 0 && balance <= BAL_GUARD && paid <= PAID_GUARD && day < u64::MAX
            invariant
                l == *self,
                l.wf(),
                spec_valid(l),
                payday == l.payday,
                balance as int == sim_balance(l, day as nat),
                paid as int == sim_paid(l, day as nat),
                forall|d: nat| d < day as nat ==> running(l, d),
            decreases u64::MAX - day,
        {
            let ghost old_day = day as nat;
            day = day + 1;
            let i = interest_on_day(self.compounding, self.rate, day, balance);
            proof {
                lemma_day_interest_nonneg(l.compounding, l.rate as int, day as int, balance as int);
                lemma_day_interest_bound(l.compounding, l.rate as int, day as int, balance as int);
                assert(balance as int * (u32::MAX as int) <= BAL_GUARD * 0xffff_ffffint)
                    by (nonlinear_arith)
                    requires
                        0 <= balance as int <= BAL_GUARD,
                ;
            }
            balance = balance + i;
            if day % payday == 0 {
                if (self.payment as u128) > balance {
                    paid = paid + balance;
                    balance = 0;
                } else {
                    paid = paid + self.payment as u128;
                    balance = balance - self.payment as u128;
                }
            }
            proof {
                assert(running(l, old_day));
                assert(balance as int == sim_balance(l, day as nat));
                assert(paid as int == sim_paid(l, day as nat));
                assert forall|d: nat| d < day as nat implies running(l, d) by {
                    if d < old_day {
                        assert(running(l, d));
                    }
                }
            }
        }
        proof {
            assert(!running(l, day as nat));
            assert(stops_at(l, day as nat));
        }
        if balance == 0 {
            proof {
                lemma_paid_plus_balance(l, day as nat);
            }
            let interest = paid - self.amount as u128;
            Ok(Snapshot::new(self.amount, self.rate, self.payment, self.payday, interest, day))
        } else {
            Err(SimulationError::DidNotConverge)
        }
    }
}

} // verus!
