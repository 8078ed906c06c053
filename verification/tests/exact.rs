//! Texts, solver files and fixed-point numbers, with exact expected values.

use openv2b::engine::run;
use openv2b::fixed::Fixed;
use openv2b::milp::cli::{parse_cplex_xml, parse_var_value_lines, LpCliBackend, SolutionFormat};
use openv2b::milp::{Model, Sense, SolStatus, Solution, SolveError};
use openv2b::num::Num;
use openv2b::output::summarize;
use openv2b::policy;
use openv2b::scenario::{
    default_building_file, default_chargers_file, default_efficiency, default_prices_file, default_true,
    default_vehicles_file, Charger, Manifest, Scenario, TouClass, Vehicle,
};
use openv2b::{kw_to_kwh, kwh_to_kw};

fn whole(x: i64) -> Fixed {
    Fixed { millionths: x * 1_000_000 }
}

fn millionths(x: i64) -> Fixed {
    Fixed { millionths: x }
}

fn text(s: &str) -> String {
    s.to_string()
}

fn spelled(s: &str) -> Option<Fixed> {
    let chars: Vec<char> = s.chars().collect();
    Fixed::parse(&chars)
}

// ------------------------------------------------------------------ numbers

#[test]
fn fixed_point_arithmetic() {
    let inf = Fixed::infinity();
    let nan = Fixed::nan();
    assert_eq!(whole(2).add(millionths(500_000)), millionths(2_500_000));
    assert_eq!(whole(2).sub(whole(5)), whole(-3));
    assert_eq!(millionths(2_500_000).mul(whole(-4)), whole(-10));
    assert_eq!(whole(-10).div(whole(4)), millionths(-2_500_000));
    assert_eq!(whole(1).div(whole(3)), millionths(333_333));
    assert_eq!(whole(-1).div(whole(3)), millionths(-333_333), "toward zero");
    assert_eq!(whole(1).div(whole(0)), inf);
    assert_eq!(whole(-1).div(whole(0)), inf.neg());
    assert!(whole(0).div(whole(0)).is_nan());
    assert!(inf.sub(inf).is_nan());
    assert_eq!(inf.add(whole(7)), inf);
    assert_eq!(whole(3).div(inf), whole(0));
    assert!(inf.mul(whole(0)).is_nan());
    assert_eq!(whole(9_000_000_000_000).add(whole(9_000_000_000_000)), inf, "does not fit");
    assert_eq!(whole(4_000_000).mul(whole(-4_000_000)), inf.neg());
    assert_eq!(whole(-4).abs(), whole(4));
    assert_eq!(whole(-4).neg(), whole(4));
    assert_eq!(whole(2).min(whole(1)), whole(1));
    assert_eq!(whole(2).max(whole(1)), whole(2));
    assert_eq!(whole(2).max(nan), whole(2), "the other argument where one is undefined");
    assert_eq!(nan.min(whole(2)), whole(2));
    assert!(whole(1).lt(whole(2)) && !whole(2).lt(whole(2)) && whole(2).le(whole(2)));
    assert!(!nan.le(nan) && !nan.eq(nan) && !nan.lt(inf));
    assert!(whole(1).is_finite() && !inf.is_finite() && !nan.is_finite());
    assert!(inf.is_infinite() && inf.neg().is_infinite() && !nan.is_infinite());
    assert_eq!(Fixed::ratio(1, 20), millionths(50_000));
    assert_eq!(millionths(2_900_000).to_usize(), 2);
    assert_eq!(whole(-3).to_usize(), 0);
    assert_eq!(inf.to_usize(), usize::MAX);
    assert_eq!(nan.to_usize(), 0);
    assert_eq!(whole(0).exp(), whole(1));
    let e = whole(1).exp().millionths;
    assert!((2_700_000..2_730_000).contains(&e), "{e}");
    assert_eq!(whole(-50).exp(), whole(0));
}

#[test]
fn fixed_point_texts() {
    assert_eq!(millionths(-12_050_000).to_scientific(), "-12.050000");
    assert_eq!(millionths(1).to_scientific(), "0.000001");
    assert_eq!(Fixed::infinity().to_scientific(), "inf");
    assert_eq!(Fixed::infinity().neg().to_scientific(), "-inf");
    assert_eq!(Fixed::nan().to_scientific(), "NaN");
    assert_eq!(spelled("-12.05"), Some(millionths(-12_050_000)));
    assert_eq!(spelled("7"), Some(whole(7)));
    assert_eq!(spelled("0.000001"), Some(millionths(1)));
    for wrong in ["", "-", ".5", "5.", "1e3", "1.0000000", "1234567890123", "+1", "a"] {
        assert_eq!(spelled(wrong), None, "{wrong}");
    }
    for n in [0, 1, -1, 999_999, 1_000_000, -123_456_789_012] {
        let x = millionths(n);
        assert_eq!(spelled(&x.to_scientific()), Some(x));
    }
}

#[test]
fn fixed_point_units() {
    assert_eq!(kwh_to_kw(whole(5), whole(15)), whole(20));
    assert_eq!(kw_to_kwh(whole(20), whole(15)), whole(5));
}

fn small_manifest(horizon_slots: usize) -> Manifest<Fixed> {
    Manifest {
        slot_minutes: whole(15),
        horizon_slots,
        charge_efficiency: default_efficiency(),
        discharge_efficiency: default_efficiency(),
        site_cap_kw: None,
        demand_charge_usd_per_kw: millionths(11_670_000),
        demand_charge_peak_usd_per_kw: whole(0),
        heuristic_threshold_kw: None,
        persistence: default_true(),
        vehicles_file: default_vehicles_file(),
        chargers_file: default_chargers_file(),
        building_file: default_building_file(),
        prices_file: default_prices_file(),
        dr_events_file: None,
    }
}

/// A run on fixed-point numbers settles to the millionth.
#[test]
fn fixed_point_runs_are_exact() {
    let scenario = Scenario {
        manifest: small_manifest(8),
        vehicles: vec![Vehicle {
            vehicle_id: 0,
            arrival_slot: 0,
            departure_slot: 8,
            battery_kwh: whole(60),
            soc_arrival_kwh: whole(20),
            soc_target_kwh: whole(30),
            max_charge_kw: whole(20),
            max_discharge_kw: whole(0),
            min_soc_kwh: whole(0),
            max_soc_kwh: None,
            depletion_kwh: whole(0),
        }],
        chargers: vec![Charger { charger_id: 0, max_kw: whole(20), bidirectional: false }],
        building_load_kw: vec![whole(10); 8],
        price_usd_per_kwh: vec![millionths(200_000); 8],
        tou_class: vec![TouClass::OffPeak; 8],
        dr_events: vec![],
    };
    scenario.validate().expect("valid");
    let mut uncontrolled = policy::by_name::<Fixed>("uncontrolled").expect("registered");
    let results = run(&scenario, &mut uncontrolled);
    assert_eq!(results.bill.energy_imported_kwh, whole(30));
    assert_eq!(results.bill.energy_usd, whole(6));
    assert_eq!(results.bill.demand_usd, millionths(350_100_000));
    assert_eq!(results.bill.total_usd, millionths(356_100_000));
    assert_eq!(results.sessions[0].soc_departure_kwh, whole(30));
    let totals = summarize(&results);
    assert_eq!(totals.sessions_target_met, 1);
    assert_eq!(totals.energy_drawn_kwh, whole(10));
}

fn lossy_site() -> Scenario<Fixed> {
    let row = |id: u32, arrival_slot, departure_slot, soc: i64, target: i64| Vehicle {
        vehicle_id: id,
        arrival_slot,
        departure_slot,
        battery_kwh: whole(60),
        soc_arrival_kwh: whole(soc),
        soc_target_kwh: whole(target),
        max_charge_kw: millionths(11_333_333),
        max_discharge_kw: millionths(7_777_777),
        min_soc_kwh: whole(5),
        max_soc_kwh: Some(whole(57)),
        depletion_kwh: whole(3),
    };
    let mut manifest = small_manifest(96);
    manifest.charge_efficiency = millionths(920_000);
    manifest.discharge_efficiency = millionths(930_000);
    manifest.site_cap_kw = Some(whole(31));
    Scenario {
        manifest,
        vehicles: vec![row(0, 0, 40, 50, 20), row(1, 4, 60, 6, 55), row(0, 44, 96, 10, 40)],
        chargers: vec![
            Charger { charger_id: 0, max_kw: whole(20), bidirectional: true },
            Charger { charger_id: 1, max_kw: whole(9), bidirectional: false },
        ],
        building_load_kw: (0..96).map(|s| millionths(7_123_457 * (s % 5))).collect(),
        price_usd_per_kwh: vec![millionths(200_000); 96],
        tou_class: (0..96)
            .map(|s| if s % 3 == 0 { TouClass::Peak } else { TouClass::OffPeak })
            .collect(),
        dr_events: vec![],
    }
}

/// The books of fixed-point runs balance to a millionth per slot, whatever the
/// policy does, and no battery leaves its range.
#[test]
fn fixed_point_books_balance() {
    let scenario = lossy_site();
    scenario.validate().expect("valid");
    for name in policy::POLICY_NAMES {
        let mut builtin = policy::by_name::<Fixed>(name).expect("registered");
        let r = run(&scenario, &mut builtin);
        let real = |x: Fixed| x.millionths as f64 / 1e6;
        for s in &r.sessions {
            let gained = real(s.soc_departure_kwh) - real(s.soc_arrival_kwh);
            let booked = real(s.energy_drawn_kwh) * 0.92 - real(s.energy_exported_kwh) / 0.93;
            let slots = (s.departure_slot - s.arrival_slot) as f64;
            assert!((gained - booked).abs() <= slots * 1e-6 + 1e-9, "{name}: {s:?}");
            assert!(whole(5).le(s.soc_departure_kwh) && s.soc_departure_kwh.le(whole(57)), "{name}");
        }
        let metered: f64 = r.slots.iter().map(|s| real(s.net_kw) * 0.25).sum();
        let building: f64 = r.slots.iter().map(|s| real(s.building_kw) * 0.25).sum();
        let totals = summarize(&r);
        let moved = real(totals.energy_drawn_kwh) - real(totals.energy_exported_kwh);
        assert!((metered - building - moved).abs() <= 96.0 * 3.0 * 4e-6 + 1e-9, "{name}");
        for s in &r.slots {
            assert!(whole(0).le(s.net_kw), "{name}: export in slot {}", s.slot);
            assert!(s.net_kw.le(whole(31)) || s.net_kw.le(s.building_kw), "{name}: slot {}", s.slot);
        }
        assert_eq!(
            r.bill.total_usd,
            r.bill
                .energy_usd
                .add(r.bill.demand_usd)
                .add(r.bill.dr_penalty_usd)
                .sub(r.bill.dr_incentive_usd)
        );
    }
}

/// Three cars with time enough: two below their targets, one above.
fn budgeted_site() -> Scenario<Fixed> {
    let row = |id: u32, departure_slot, soc: i64, target: i64| Vehicle {
        vehicle_id: id,
        arrival_slot: 0,
        departure_slot,
        battery_kwh: whole(60),
        soc_arrival_kwh: whole(soc),
        soc_target_kwh: whole(target),
        max_charge_kw: millionths(11_333_333),
        max_discharge_kw: millionths(7_777_777),
        min_soc_kwh: whole(5),
        max_soc_kwh: Some(whole(57)),
        depletion_kwh: whole(0),
    };
    let mut manifest = small_manifest(32);
    manifest.heuristic_threshold_kw = Some(whole(60));
    Scenario {
        manifest,
        vehicles: vec![row(0, 31, 20, 41), row(1, 17, 48, 41), row(2, 12, 13, 46)],
        chargers: (0..3).map(|c| Charger { charger_id: c, max_kw: whole(20), bidirectional: true }).collect(),
        building_load_kw: (0..32).map(|s| millionths(17_123_457 + 1_000_003 * (s % 7))).collect(),
        price_usd_per_kwh: vec![millionths(200_000); 32],
        tou_class: vec![TouClass::OffPeak; 32],
        dr_events: vec![],
    }
}

/// With a budget for what the cars need, EDF and LLF bring each of them to its target, up
/// to the rounding of its slots.
#[test]
fn budgeted_schedulers_land_on_the_targets() {
    let scenario = budgeted_site();
    scenario.validate().expect("valid");
    for name in ["edf", "llf"] {
        let mut builtin = policy::by_name::<Fixed>(name).expect("registered");
        let r = run(&scenario, &mut builtin);
        for s in &r.sessions {
            let off = s.soc_departure_kwh.sub(s.soc_target_kwh).millionths;
            let slots = (s.departure_slot - s.arrival_slot) as i64;
            if s.vehicle_id == 1 {
                assert!((-150 * 7..=slots * 11).contains(&off), "{name}: {s:?}");
                assert!(whole(6).lt(s.energy_exported_kwh), "{name}: {s:?}");
                assert_eq!(s.energy_drawn_kwh, whole(0), "{name}");
            } else {
                assert!(-slots * 11 <= off, "{name}: {s:?}");
                assert!(s.missing_kwh.le(millionths(slots * 11)), "{name}: {s:?}");
                assert_eq!(s.energy_exported_kwh, whole(0), "{name}");
            }
        }
    }
}

/// Without room under the threshold only the last hour serves.
#[test]
fn schedulers_without_a_budget_miss_the_target() {
    let mut scenario = budgeted_site();
    scenario.manifest.heuristic_threshold_kw = Some(whole(10));
    for name in ["edf", "llf"] {
        let mut builtin = policy::by_name::<Fixed>(name).expect("registered");
        let r = run(&scenario, &mut builtin);
        let late = r.sessions.iter().find(|s| s.vehicle_id == 2).expect("reported");
        assert!(!late.target_met, "{name}: {late:?}");
        assert!(whole(20).lt(late.missing_kwh), "{name}: {late:?}");
    }
}

#[test]
fn defaults_of_a_manifest() {
    assert_eq!(default_efficiency::<Fixed>(), whole(1));
    assert!(default_true());
    assert_eq!(default_vehicles_file(), "vehicles.csv");
    assert_eq!(default_chargers_file(), "chargers.csv");
    assert_eq!(default_building_file(), "building_load.csv");
    assert_eq!(default_prices_file(), "grid_prices.csv");
}

// ----------------------------------------------------------------- LP files

fn small_model() -> Model<Fixed> {
    let mut m: Model<Fixed> = Model::default();
    let x = m.add_var(text("x"), whole(0), whole(10), whole(1));
    let y = m.add_var(text("y"), Fixed::infinity().neg(), Fixed::infinity(), whole(-2));
    let z = m.add_var(text("z"), Fixed::infinity().neg(), whole(3), whole(0));
    m.vars[2].integer = true;
    m.add_constraint(text("c1"), vec![(x, whole(1)), (y, whole(-3))], Sense::Le, millionths(7_500_000));
    m.add_constraint(text("c2"), vec![(y, whole(0))], Sense::Ge, whole(-4));
    m.add_constraint(text("c3"), vec![(z, whole(2))], Sense::Eq, whole(1));
    m
}

#[test]
fn lp_text_is_written_out() {
    assert_eq!(
        small_model().to_lp(),
        "Minimize\n obj: 1.000000 x - 2.000000 y\nSubject To\n \
         c1: 1.000000 x - 3.000000 y <= 7.500000\n \
         c2: 0 x >= -4.000000\n \
         c3: 2.000000 z = 1.000000\nBounds\n \
         0.000000 <= x <= 10.000000\n \
         y free\n \
         -inf <= z <= 3.000000\nGenerals\n \
         z\nEnd\n"
    );
    let empty: Model<Fixed> = Model::default();
    assert_eq!(empty.to_lp(), "Minimize\n obj: 0 x0\nSubject To\nBounds\nEnd\n");
}

#[test]
fn points_are_valued() {
    let mut m = small_model();
    m.obj_constant = whole(100);
    let s = Solution::optimal(&m, vec![whole(4), whole(3), whole(9)]);
    assert_eq!(s.status, SolStatus::Optimal);
    assert_eq!(s.objective, whole(98));
    let none = Solution::infeasible(&m);
    assert_eq!(none.status, SolStatus::Infeasible);
    assert!(none.objective.is_nan());
    assert_eq!(none.values, vec![whole(0); 3]);
}

#[test]
fn solve_errors_have_their_words() {
    assert_eq!(SolveError::Io(text("no such file")).message(), "solver io error: no such file");
    assert_eq!(SolveError::Backend(text("stuck")).message(), "solver error: stuck");
}

// ------------------------------------------------------------- solver files

#[test]
fn command_lines_name_the_files() {
    let cplex = LpCliBackend::cplex(text("/opt/cplex"), text("/tmp/work"));
    assert_eq!(cplex.name, "cplex-cli");
    assert_eq!(cplex.program, "/opt/cplex");
    assert_eq!(cplex.workdir, "/tmp/work");
    assert_eq!(cplex.format, SolutionFormat::CplexXml);
    assert_eq!(
        cplex.command_line("m.lp", "m.sol"),
        vec!["-c", "read m.lp", "set threads 1", "set randomseed 100", "optimize", "write m.sol"]
    );
    let mut highs = LpCliBackend::highs(text("highs"), text("w"));
    assert_eq!(highs.name, "highs-cli");
    assert_eq!(highs.format, SolutionFormat::VarValueLines);
    assert_eq!(
        highs.command_line("m.lp", "m.sol"),
        vec!["--solution_file", "m.sol", "--random_seed", "100", "m.lp"]
    );
    highs.args = vec![text("{lp}{lp}-{sol}{"), text("{l{lp}p}")];
    assert_eq!(highs.command_line("{sol}", "s"), vec!["ss-s{", "{lsp}"]);
}

#[test]
fn cplex_solutions_are_read() {
    let m = small_model();
    let xml = "<CPLEXSolution>\n <header name=\"x\" value=\"9\"/>\n <variables>\n\
        <variable name=\"y\" index=\"1\" value=\"-1.5\"/>\n\
        <variable name=\"x\" index=\"0\" value=\"4\"/>\n\
        <variable name=\"unknown\" index=\"3\" value=\"5\"/>\n\
        <variable name=\"z\" index=\"2\" value=\"much\"/>\n </variables>\n";
    assert_eq!(parse_cplex_xml(xml, &m), vec![whole(4), millionths(-1_500_000), whole(0)]);
    assert_eq!(parse_cplex_xml("", &m), vec![whole(0); 3]);
    assert_eq!(parse_cplex_xml("<variable name=\"x\" value=\"1", &m), vec![whole(0); 3]);
}

#[test]
fn value_lines_are_read() {
    let m = small_model();
    let lines = "Model status\nOptimal\n\n# Primal solution values\nx 4\r\n\ty\u{a0}-1.5 basic\nz\nw 3\nz much\nx";
    assert_eq!(
        parse_var_value_lines(lines, &m),
        vec![whole(4), millionths(-1_500_000), whole(0)]
    );
    assert_eq!(parse_var_value_lines("x 1\nx 2", &m)[0], whole(2), "the last line counts");
}

#[test]
fn outcomes_of_a_run() {
    let m = small_model();
    let highs = LpCliBackend::highs(text("highs"), text("w"));
    let got = highs.read_outcome(&m, "Optimal", Some("x 4\ny 3\n")).expect("solved");
    assert_eq!(got.status, SolStatus::Optimal);
    assert_eq!(got.objective, whole(-2));
    assert_eq!(got.values, vec![whole(4), whole(3), whole(0)]);
    let none = highs.read_outcome(&m, "Problem is INFEASIBLE.", Some("x 4\n")).expect("answered");
    assert_eq!(none.status, SolStatus::Infeasible);
    let err = highs.read_outcome(&m, "license expired", None).expect_err("nothing written");
    assert_eq!(
        err.message(),
        "solver error: highs-cli: no solution file produced; stdout tail: license expired"
    );
    let long = format!("{}{}", "a".repeat(77), "b".repeat(500));
    let err = highs.read_outcome(&m, &long, None).expect_err("nothing written");
    assert_eq!(
        err.message(),
        format!(
            "solver error: highs-cli: no solution file produced; stdout tail: {}",
            "b".repeat(500)
        )
    );
    let cplex = LpCliBackend::cplex(text("c"), text("w"));
    let got = cplex
        .read_outcome(&m, "", Some("<variable name=\"x\" value=\"2\"/>"))
        .expect("solved");
    assert_eq!(got.values[0], whole(2));
}
