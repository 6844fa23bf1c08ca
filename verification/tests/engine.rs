use amortize::duration::{days_to_human_time, u64_to_decimal};
use amortize::fin_math::{Compounding, Loan, SimulationError, Snapshot};

#[test]
fn decimal_rendering() {
    assert_eq!(u64_to_decimal(0), "0");
    assert_eq!(u64_to_decimal(7), "7");
    assert_eq!(u64_to_decimal(10), "10");
    assert_eq!(u64_to_decimal(12345), "12345");
    assert_eq!(u64_to_decimal(u64::MAX), "18446744073709551615");
}

#[test]
fn human_duration_zero_days() {
    assert_eq!(days_to_human_time(0), "0 days");
}

#[test]
fn human_duration_one_year_suppresses_zero_months() {
    assert_eq!(days_to_human_time(365), "1 years 0 days");
}

#[test]
fn human_duration_mixed_segments() {
    assert_eq!(days_to_human_time(29), "29 days");
    assert_eq!(days_to_human_time(30), "1 months 0 days");
    assert_eq!(days_to_human_time(366), "1 years 1 days");
    assert_eq!(days_to_human_time(400), "1 years 1 months 5 days");
}

#[test]
fn labels_parse_with_daily_fallback() {
    assert_eq!(Compounding::from_label("daily"), Compounding::Daily);
    assert_eq!(Compounding::from_label("monthly"), Compounding::Monthly);
    assert_eq!(Compounding::from_label("yearly"), Compounding::Yearly);
    assert_eq!(Compounding::from_label("weekly"), Compounding::Daily);
    assert_eq!(Compounding::from_label(""), Compounding::Daily);
    assert_eq!(Compounding::from(String::from("yearly")), Compounding::Yearly);
}

#[test]
fn new_clamps_payday_to_one() {
    let l = Loan::new(100_000, 750, "daily", 10_000, 0);
    assert_eq!(l.payday, 1);
    let l = Loan::new(100_000, 750, "daily", 10_000, -30);
    assert_eq!(l.payday, 1);
    let l = Loan::new(100_000, 750, "daily", 10_000, 14);
    assert_eq!(l.payday, 14);
    assert_eq!(l.amount, 100_000);
    assert_eq!(l.rate, 750);
    assert_eq!(l.payment, 10_000);
    assert_eq!(l.compounding, Compounding::Daily);
}

// A loan of $1000 at 36.5% daily compounding accrues exactly 0.1% a day:
// 100 cents on the first day. A payment of exactly that interest never
// shrinks the balance, one cent more does.
#[test]
fn validity_boundary_is_strict() {
    let at_interest = Loan::new(100_000, 3650, "daily", 100, 1);
    assert!(!at_interest.is_valid_pay_schedule());
    let above_interest = Loan::new(100_000, 3650, "daily", 101, 1);
    assert!(above_interest.is_valid_pay_schedule());
}

#[test]
fn validity_is_idempotent() {
    let l = Loan::new(4_352_471, 750, "daily", 73_099, 30);
    let first = l.is_valid_pay_schedule();
    let second = l.is_valid_pay_schedule();
    assert_eq!(first, second);
    assert!(first);
    let bad = Loan::new(100_000, 3650, "daily", 100, 1);
    assert_eq!(bad.is_valid_pay_schedule(), bad.is_valid_pay_schedule());
}

#[test]
fn unpayable_schedule_is_rejected_up_front() {
    // Payment equal to one interval's interest: never converges.
    let l = Loan::new(100_000, 3650, "daily", 100, 1);
    assert_eq!(l.run_until_done().unwrap_err(), SimulationError::UnpayableSchedule);
}

// $1000 at 12% yearly compounding, paying $2000 every 30 days: yearly
// interest only falls on day 365, so nothing accrues before the first
// payment, which clears the loan on day 30 with no interest at all.
#[test]
fn yearly_loan_cleared_before_any_interest() {
    let l = Loan::new(100_000, 1200, "yearly", 200_000, 30);
    assert!(l.is_valid_pay_schedule());
    let s = l.run_until_done().unwrap();
    assert_eq!(s.amount, 100_000);
    assert_eq!(s.apr, 1200);
    assert_eq!(s.payment, 200_000);
    assert_eq!(s.every, 30);
    assert_eq!(s.interest, 0);
    assert_eq!(s.human_time, "1 months 0 days");
}

// An extreme rate (1200% a year, compounded daily) with a $1 payment every
// day cannot keep up with the interest on $1000.
#[test]
fn extreme_daily_rate_is_unpayable() {
    let l = Loan::new(100_000, 120_000, "daily", 100, 1);
    assert!(!l.is_valid_pay_schedule());
    assert_eq!(l.run_until_done().unwrap_err(), SimulationError::UnpayableSchedule);
}

// $100 interest-free, paying $25 every 10 days: four payments, payoff on
// day 40, not a cent of interest.
#[test]
fn interest_free_loan_pays_exactly_principal() {
    let l = Loan::new(10_000, 0, "daily", 2_500, 10);
    let s = l.run_until_done().unwrap();
    assert_eq!(s.interest, 0);
    assert_eq!(s.human_time, "1 months 10 days");
}

// $1000 at 12% monthly compounding, paying $510 every 30 days: interest of
// exactly $10 falls on day 30 (1% of $1000), the payment leaves $500; $5
// interest falls on day 60 and the second payment overshoots, paying the
// remaining $505. Total paid $1015, interest $15.
#[test]
fn monthly_two_interval_payoff() {
    let l = Loan::new(100_000, 1200, "monthly", 51_000, 30);
    let s = l.run_until_done().unwrap();
    assert_eq!(s.interest, 1_500);
    assert_eq!(s.human_time, "2 months 0 days");
}

// $1000 at 12% yearly compounding, paying $600 every 365 days: $120 of
// interest falls on day 365 (12% of $1000), the payment leaves $520; $62.40
// falls on day 730 and the second payment overshoots, paying the remaining
// $582.40. Total paid $1182.40, interest $182.40, two years to the day.
#[test]
fn yearly_aligned_two_interval_payoff() {
    let l = Loan::new(100_000, 1200, "yearly", 60_000, 365);
    let s = l.run_until_done().unwrap();
    assert_eq!(s.interest, 18_240);
    assert_eq!(s.human_time, "2 years 0 days");
}

// Interest is rounded half away from zero: a balance of $18.25 at 10%
// daily compounding accrues exactly half a cent on day one, which rounds
// up to a whole cent.
#[test]
fn interest_rounds_halves_up() {
    let l = Loan::new(1_825, 1000, "daily", 1_000_000, 1);
    let s = l.run_until_done().unwrap();
    assert_eq!(s.interest, 1);
    assert_eq!(s.human_time, "1 days");
}

// A value that is already whole cents passes through the rounding
// unchanged: $10.00 at 36.5% daily compounding accrues exactly one cent on
// day one (1000 * 3650 / 3650000 = 1), with nothing to round.
#[test]
fn exact_cent_interest_is_unchanged_by_rounding() {
    let l = Loan::new(1_000, 3650, "daily", 1_000_000, 1);
    let s = l.run_until_done().unwrap();
    assert_eq!(s.interest, 1);
}

// A realistic loan: $43,524.71 at 7.50% daily compounding, paying $730.99
// every 30 days. The schedule is valid and the simulation ends with a
// positive interest total on a payday.
#[test]
fn realistic_daily_loan_terminates() {
    let l = Loan::new(4_352_471, 750, "daily", 73_099, 30);
    assert!(l.is_valid_pay_schedule());
    let s = l.run_until_done().unwrap();
    assert!(s.interest > 0);
    assert_eq!(s.amount, 4_352_471);
    assert_eq!(s.payment, 73_099);
    assert_eq!(s.every, 30);
    assert_ne!(s.human_time, "0 days");
}

// A payment interval that is no whole number of compounding periods can
// slip past the validity check (no interest falls in the first seven days)
// while the loan in fact grows without bound; the simulation's guard
// reports the divergence instead of looping forever.
#[test]
fn misaligned_monthly_divergence_is_detected() {
    let l = Loan::new(100, u32::MAX, "monthly", 1, 7);
    assert!(l.is_valid_pay_schedule());
    assert_eq!(l.run_until_done().unwrap_err(), SimulationError::DidNotConverge);
}

#[test]
fn snapshot_echoes_inputs() {
    let s = Snapshot::new(4_352_471, 750, 73_099, 30, 123_456, 395);
    assert_eq!(s.amount, 4_352_471);
    assert_eq!(s.apr, 750);
    assert_eq!(s.payment, 73_099);
    assert_eq!(s.every, 30);
    assert_eq!(s.interest, 123_456);
    assert_eq!(s.human_time, "1 years 1 months 0 days");
}
