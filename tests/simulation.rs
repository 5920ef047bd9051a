use std::cell::Cell;

use wca_odds::events::{EventType, DNF_VALUE};
use wca_odds::histogram::HistogramAccumulator;
use wca_odds::rank::rank_results;
use wca_odds::simulation::{run_simulations, simulate_round, Competitor, CompetitorContext, SimulationAccumulator};

const DNF: i32 = DNF_VALUE;

/// Fitted skew-normal parameters, as a test stands them in for a model.
struct Fit {
    alpha: f64,
    omega: f64,
    xi: f64,
}

/// A small deterministic generator for standard normal draws.
struct Normals {
    state: Cell<u64>,
}

impl Normals {
    fn uniform(&self) -> f64 {
        let s = self
            .state
            .get()
            .wrapping_mul(6364136223846793005)
            .wrapping_add(1442695040888963407);
        self.state.set(s);
        ((s >> 11) as f64 + 0.5) / (1u64 << 53) as f64
    }

    fn normal(&self) -> f64 {
        let u1 = self.uniform();
        let u2 = self.uniform();
        (-2.0 * u1.ln()).sqrt() * (2.0 * std::f64::consts::PI * u2).cos()
    }

    fn skew_normal(&self, fit: &Fit) -> i32 {
        let u0 = self.normal();
        let v = self.normal();
        let delta = fit.alpha / (1.0 + fit.alpha * fit.alpha).sqrt();
        let u1 = delta * u0 + (1.0 - delta * delta).sqrt() * v;
        let z = if u0 >= 0.0 { u1 } else { -u1 };
        ((fit.xi + fit.omega * z) as i32).clamp(1, DNF)
    }
}

fn named<S>(name: &str, stats: Option<S>) -> Competitor<S> {
    Competitor::new(name.to_string(), format!("2020{}01", name), stats)
}

#[test]
fn sole_contestant_without_data_wins_every_dnf_round() {
    for event in [EventType::Ao5, EventType::Bo5, EventType::Mo3, EventType::Bo3, EventType::Fmc] {
        let competitors = vec![named::<Fit>("AAAA", None)];
        let results = run_simulations(&competitors, &event, false, 1000, |_c: usize, _dnf: bool| {
            panic!("nothing is drawn for a contestant without a model")
        });
        assert_eq!(results.len(), 1);
        let stats = results[0].rank_stats();
        assert_eq!(stats.win_count(), 1000);
        assert_eq!(stats.sample_count(), 1000);
        assert_eq!(results[0].win_count() as f64 / 1000.0, 1.0);
        assert_eq!(results[0].average_histogram().len(), 0);
        assert_eq!(results[0].single_histogram().len(), 0);
    }
}

#[test]
fn entered_results_beat_a_contestant_without_data() {
    let mut x = named::<Fit>("XXXX", None);
    x.entered_results = vec![1000, 1000, 1000];
    let y = named::<Fit>("YYYY", None);
    let results = run_simulations(&[x, y], &EventType::Mo3, false, 500, |_c: usize, _dnf: bool| DNF);
    assert_eq!(results[0].rank_stats().win_count(), 500);
    assert_eq!(results[1].rank_stats().win_count(), 0);
    assert_eq!(results[1].rank_stats().count_at(1), 500);
    // X's round result is always 1000, recorded in its round histogram.
    assert_eq!(results[0].average_histogram().get(1000), 100 * 500);
    // Entered values do not go into the single histogram.
    assert_eq!(results[0].single_histogram().len(), 0);
}

#[test]
fn fitted_contestant_alone_always_ranks_first() {
    let fit = Fit { alpha: 0.0, omega: 50.0, xi: 1000.0 };
    let competitors = vec![named("FFFF", Some(fit))];
    let normals = Normals { state: Cell::new(42) };
    let n: u32 = 50_000;
    let results = run_simulations(&competitors, &EventType::Ao5, false, n, |c: usize, _dnf: bool| {
        normals.skew_normal(competitors[c].stats.as_ref().unwrap())
    });
    let stats = results[0].rank_stats();
    assert_eq!(stats.rank_total() as f64 / n as f64, 1.0);
    let singles = results[0].single_histogram();
    let (lo, hi) = singles.key_range().unwrap();
    assert!(lo >= 1000 - 6 * 50 && hi <= 1000 + 6 * 50);
    let averages = results[0].average_histogram();
    let (lo, hi) = averages.key_range().unwrap();
    assert!(lo >= 1000 - 4 * 50 && hi <= 1000 + 4 * 50);
    let peak = (0..averages.len()).map(|i| averages.bin(i)).max_by_key(|b| b.1).unwrap();
    assert!((peak.0 - 1000).abs() <= 30);
}

#[test]
fn wins_and_rank_counts_add_up_to_the_trials() {
    let competitors = vec![named("AAAA", Some(())), named("BBBB", Some(())), named("CCCC", None)];
    let normals = Normals { state: Cell::new(7) };
    let n: u32 = 2_000;
    let results = run_simulations(&competitors, &EventType::Bo3, true, n, |c: usize, _dnf: bool| {
        let fit = Fit { alpha: 2.0, omega: 100.0, xi: 900.0 + 60.0 * c as f64 };
        normals.skew_normal(&fit)
    });
    let wins: u64 = results.iter().map(|r| r.win_count()).sum();
    assert_eq!(wins, n as u64);
    for r in &results {
        let s = r.rank_stats();
        assert_eq!(s.len(), 3);
        let total: u64 = (0..s.len()).map(|k| s.count_at(k)).sum();
        assert_eq!(total, n as u64);
        let single: u64 = (0..r.single_histogram().len()).map(|i| r.single_histogram().bin(i).1).sum();
        assert!(single <= 100 * n as u64);
    }
    // The contestant without a model is always last.
    assert_eq!(results[2].rank_stats().count_at(2), n as u64);
    assert_eq!(results[0].rank_stats().podium_count(), n as u64);
}

#[test]
fn ties_go_to_the_earlier_contestant() {
    assert_eq!(rank_results(&vec![500, 300, 500, 300]), vec![2, 0, 3, 1]);
    assert_eq!(rank_results(&vec![DNF, DNF]), vec![0, 1]);
}

#[test]
fn simulate_round_prefers_entered_values() {
    let mut c = named("AAAA", Some(()));
    c.entered_results = vec![0, -1, 1200];
    let mut singles = HistogramAccumulator::new();
    // Position 0 is drawn, 1 is an entered failure, 2 an entered result.
    let r = simulate_round(&c, EventType::Mo3, &[1234, 7, 7, 7, 7], &mut singles);
    assert_eq!(r, DNF);
    let h = singles.into_histogram_data(1, 1, 0);
    assert_eq!(h.len(), 1);
    assert_eq!(h.bin(0), (1230, 1));
}

#[test]
fn simulate_round_scales_move_counts() {
    let c = named("AAAA", Some(()));
    let mut singles = HistogramAccumulator::new();
    let r = simulate_round(&c, EventType::Fmc, &[30, 30, 32, DNF, DNF], &mut singles);
    assert_eq!(r, 3067);
    let h = singles.into_histogram_data(1, 1, 0);
    assert_eq!(h.get(3000), 2);
    assert_eq!(h.get(3200), 1);
}

#[test]
fn a_drawn_failure_is_not_a_single() {
    let c = named("AAAA", Some(()));
    let mut singles = HistogramAccumulator::new();
    let r = simulate_round(&c, EventType::Bo3, &[DNF, 900, DNF, DNF, DNF], &mut singles);
    assert_eq!(r, 900);
    assert_eq!(singles.into_histogram_data(1, 1, 0).len(), 1);
}

#[test]
fn trials_can_be_recorded_one_at_a_time() {
    let competitors = vec![named("AAAA", Some(())), named("BBBB", Some(()))];
    let mut acc = SimulationAccumulator::new(2, EventType::Bo3);
    let drawn = vec![vec![900, 950, 990, DNF, DNF], vec![800, DNF, DNF, DNF, DNF]];
    let results = acc.record_trial(&competitors, &drawn);
    assert_eq!(results, vec![900, 800]);
    let drawn = vec![vec![700, 950, 990, DNF, DNF], vec![800, DNF, DNF, DNF, DNF]];
    assert_eq!(acc.record_trial(&competitors, &drawn), vec![700, 800]);
    let out = acc.finalize();
    assert_eq!(out[0].win_count(), 1);
    assert_eq!(out[1].win_count(), 1);
    assert_eq!(out[0].rank_stats().rank_total(), 3);
    // Three singles per trial, each scaled by 100 / 3.
    assert_eq!(out[0].single_histogram().get(950), 2 * 33);
    assert_eq!(out[0].average_histogram().get(700), 100);
}

#[test]
fn manual_entries_attach_in_roster_order() {
    let ctx = CompetitorContext {
        competitors: vec![named::<()>("AAAA", None), named("BBBB", None), named("CCCC", None)],
        event_type: EventType::Mo3,
    };
    let ctx = ctx.with_manual_entries(vec![vec![1000, 0, -1], vec![900]]);
    assert_eq!(ctx.competitors[0].entered_results, vec![1000, 0, -1]);
    assert_eq!(ctx.competitors[1].entered_results, vec![900]);
    assert!(ctx.competitors[2].entered_results.is_empty());
    assert_eq!(ctx.competitors[2].name, "CCCC");
}
