use bitwright::engine::budget::{Budget, Clock, Counter, Deadline, Exhausted, Meter};

struct Ticks(core::cell::Cell<u64>);
impl Clock for Ticks {
    fn now_ticks(&self) -> u64 {
        let t = self.0.get();
        self.0.set(t + 1);
        t
    }
}

#[test]
fn a_charge_the_limit_cannot_cover_is_refused_and_not_charged() {
    let mut limit = Budget::unlimited();
    limit.pass_work = 10;
    let mut m = Meter::new(limit, None);
    assert_eq!(m.charge(Counter::PassWork, 7), Ok(()));
    assert_eq!(m.charge(Counter::PassWork, 4), Err(Exhausted::PassWork));
    assert_eq!(m.spent.pass_work, 7);
    assert_eq!(m.charge(Counter::PassWork, 3), Ok(()));
    assert_eq!(m.charge(Counter::PassWork, 1), Err(Exhausted::PassWork));
    assert_eq!(m.spent.pass_work, 10);
    // A zero limit refuses everything and charges nothing.
    let mut limit = Budget::unlimited();
    limit.eqsat_nodes = 0;
    let mut m = Meter::new(limit, None);
    assert_eq!(m.charge(Counter::EqsatNodes, 1), Err(Exhausted::EqsatNodes));
    assert_eq!(m.spent, Budget::zero());
    // Another counter already over (recorded after the fact): refused, nothing charged.
    let mut limit = Budget::unlimited();
    limit.fact_work = 5;
    let mut m = Meter::new(limit, None);
    m.spent.fact_work = 10;
    assert_eq!(m.charge(Counter::MbaCalls, 1), Err(Exhausted::FactWork));
    assert_eq!(m.spent.mba_calls, 0);
}

#[test]
fn every_charge_reads_the_deadline_when_due_and_the_stop_latches() {
    let clock = Ticks(core::cell::Cell::new(0));
    let d = Deadline::new(&clock, 3).with_check_every(2);
    let mut m = Meter::new(Budget::unlimited(), Some(d));
    // Reads at charges 1, 3, 5, …: ticks 0, 1, 2, then 3 stops.
    for _ in 0..6 {
        assert_eq!(m.charge(Counter::EqsatWork, 1), Ok(()));
    }
    assert_eq!(m.charge(Counter::EqsatWork, 1), Err(Exhausted::Deadline));
    assert_eq!(m.check(), Err(Exhausted::Deadline));
    assert_eq!(m.visit(), Err(Exhausted::Deadline));
    assert_eq!(clock.0.get(), 4);
}
