use vardiff::compare::cells::{
    collect_cells, delta, parse_entries, parse_string, CellMetrics, Entry, Field, Metrics,
};
use vardiff::compare::guards::{
    apply_guards, breaks, cell_kind, is_low_spm, is_pm_50_step, CellDelta, CellKind, Limit,
};
use vardiff::compare::report::{
    badness, columns, flags, has_any_regression, select, table_line, verdict, worst, Concern,
    Selection,
};
use vardiff::compare::rows::compare_cells;
use vardiff::compare::score::{
    cell_score_z, higher_beat, higher_regression, lower_beat, lower_regression, metric_z,
    score_rows, z_std,
};
use vardiff::float::double::Double;
use vardiff::table::Table;

fn double(x: f64) -> Double {
    Double::from_bits(x.to_bits())
}

fn num(x: Double) -> f64 {
    f64::from_bits(x.bits)
}

/// Reads cells as a program does that has a file's text.
fn read(text: &str) -> Table<CellMetrics> {
    let entries = parse_entries(text);
    let numbers: Vec<Option<Double>> = entries
        .iter()
        .map(|e: &Entry| e.value.parse::<f64>().ok().map(double))
        .collect();
    collect_cells(&entries, &numbers)
}

fn row(cell: &str, kind: CellKind, delta: Metrics) -> CellDelta {
    CellDelta {
        cell: cell.to_string(),
        kind,
        delta,
        score: double(0.0),
        beat_score: double(0.0),
        warns: Vec::new(),
        fails: Vec::new(),
    }
}

fn metrics(pairs: &[(Field, f64)]) -> Metrics {
    let mut out = Metrics::none();
    for (field, x) in pairs {
        out.set(*field, Some(double(*x)));
    }
    out
}

fn guarded(cell: &str, kind: CellKind, pairs: &[(Field, f64)]) -> CellDelta {
    let mut r = row(cell, kind, metrics(pairs));
    apply_guards(&mut r);
    r
}

const BASELINE: &str = "\
# a baseline
top = 1
[meta]
seed = 7
[cell.spm_6.stable_1ph]
scenario = \"stable_1ph\"
convergence_rate = 0.95
settled_accuracy_p50 = 0.10
settled_accuracy_p99 = 0.30
jitter_mean_per_min = 0.010
jitter_p99_per_min = 0.050

[cell.spm_12.step_minus_50]
  scenario   =   \"step_minus_50\"
reaction_rate = 0.80
reaction_p50_secs = 120
reaction_p99_secs = 300
settled_accuracy_p50 = 0.1
[cell.spm_30.cold_start_10gh]
scenario = \"cold_start_10gh\"
convergence_rate = 1.0
convergence_p50_secs = 200
convergence_p99_secs = 500
";

const CANDIDATE: &str = "\
[cell.spm_6.stable_1ph]
scenario = \"stable_1ph\"
convergence_rate = 0.95
settled_accuracy_p50 = 0.15
settled_accuracy_p99 = 0.31
jitter_mean_per_min = 0.0105
jitter_p99_per_min = 0.040
[cell.spm_12.step_minus_50]
scenario = \"ignored\"
reaction_rate = 0.765
reaction_p50_secs = 100
reaction_p99_secs = 300
settled_accuracy_p50 = 0.1
[cell.spm_30.other]
scenario = \"other\"
";

#[test]
fn cells_are_read_from_their_sections() {
    let table = read(BASELINE);
    let names: Vec<&str> = table.entries.iter().map(|e| e.0.as_str()).collect();
    assert_eq!(
        names,
        ["spm_12.step_minus_50", "spm_30.cold_start_10gh", "spm_6.stable_1ph"]
    );
    let step = table.get("spm_12.step_minus_50").expect("the step cell");
    assert_eq!(step.scenario, "step_minus_50");
    assert_eq!(step.metrics.reaction_p50_secs, Some(double(120.0)));
    assert_eq!(step.metrics.convergence_rate, None);
}

#[test]
fn lines_that_say_nothing_are_passed_over() {
    let table = read("x = 1\n[other]\ny = 2\n[cell.a]\nno equals sign\n# z = 3\n\n   \n[cell.b]\n");
    assert!(table.entries.is_empty());
    let table = read("[cell.a]\nunknown = 5\n");
    assert_eq!(table.entries.len(), 1);
    assert_eq!(table.get("a").expect("the cell").scenario, "");
}

#[test]
fn the_last_line_for_a_field_counts() {
    let table = read(
        "[cell.a]\nreaction_rate = 0.5\nreaction_rate = 0.75\n[cell.b]\nreaction_rate = 1\n\
         [cell.cell.a]\nreaction_rate = x\nscenario = unquoted\nconvergence_rate = 1 = 2\n",
    );
    let a = table.get("a").expect("both sections are one cell");
    assert_eq!(a.metrics.reaction_rate, None);
    assert_eq!(a.metrics.convergence_rate, None);
    assert_eq!(a.scenario, "");
    let b = table.get("b").expect("the cell");
    assert_eq!(b.metrics.reaction_rate, Some(double(1.0)));
}

#[test]
fn quoted_strings() {
    assert_eq!(parse_string("\"abc\""), Some("abc".to_string()));
    assert_eq!(parse_string("\"\""), Some(String::new()));
    assert_eq!(parse_string("\"a\"b\""), Some("a\"b".to_string()));
    assert_eq!(parse_string("\""), None);
    assert_eq!(parse_string("abc"), None);
    assert_eq!(parse_string("\"abc"), None);
    assert_eq!(parse_string("abc\""), None);
    assert_eq!(parse_string(""), None);
}

#[test]
fn headers_need_both_brackets() {
    let entries = parse_entries("[cell.a\nreaction_rate = 1\n[cell.b]\nreaction_rate = 2\n[]\nk = 3\n[\nk = 4\n");
    assert_eq!(entries.len(), 1);
    assert_eq!(entries[0].cell, "b");
    assert_eq!(entries[0].field, Field::ReactionRate);
    assert_eq!(entries[0].value, "2");
}

#[test]
fn kinds_are_told_by_the_start_of_a_scenario() {
    assert_eq!(cell_kind("cold_start_10gh_to_1ph"), CellKind::ColdStart);
    assert_eq!(cell_kind("stable_1ph"), CellKind::Stable);
    assert_eq!(cell_kind("step_minus_50"), CellKind::Step);
    assert_eq!(cell_kind("step"), CellKind::Other);
    assert_eq!(cell_kind("unstable"), CellKind::Other);
    assert_eq!(cell_kind(""), CellKind::Other);
}

#[test]
fn steps_by_half_and_few_shares() {
    assert!(is_pm_50_step("spm_6.step_minus_50_at_15min"));
    assert!(is_pm_50_step("x.step_plus_50"));
    assert!(!is_pm_50_step("spm_6.step_plus_25"));
    assert!(is_low_spm("spm_6.stable"));
    assert!(is_low_spm("spm_12.stable"));
    assert!(!is_low_spm("spm_60.stable"));
    assert!(!is_low_spm("x.spm_6.stable"));
}

#[test]
fn differences_need_both_sides() {
    assert_eq!(delta(Some(double(3.0)), Some(double(1.0))), Some(double(2.0)));
    assert_eq!(delta(None, Some(double(1.0))), None);
    assert_eq!(delta(Some(double(1.0)), None), None);
}

#[test]
fn limits_are_broken_by_what_is_beyond_them() {
    let most = Limit::Most(60.0f64.to_bits());
    let least = Limit::Least((-0.01f64).to_bits());
    assert!(!breaks(Some(double(60.0)), most));
    assert!(breaks(Some(double(60.001)), most));
    assert!(!breaks(Some(double(-0.01)), least));
    assert!(breaks(Some(double(-0.011)), least));
    assert!(!breaks(None, most));
    assert!(!breaks(Some(double(f64::NAN)), most));
    assert!(!breaks(Some(double(f64::NAN)), least));
}

#[test]
fn guards_of_cold_starts() {
    let r = guarded(
        "spm_6.cold_start",
        CellKind::ColdStart,
        &[
            (Field::ConvergenceRate, -0.02),
            (Field::ConvergenceP50Secs, 61.0),
            (Field::ConvergenceP99Secs, 121.0),
            (Field::SettledAccuracyP50, 0.09),
        ],
    );
    assert_eq!(
        r.fails,
        [
            "cold: dCR < -0.01",
            "cold: dCP50s > +60",
            "cold: dCP99s > +120",
            "cold: dSA_p50 > +0.08"
        ]
    );
    assert_eq!(r.warns, ["cold: WARN dSA_p50 > +0.03"]);
    let r = guarded(
        "spm_6.cold_start",
        CellKind::ColdStart,
        &[
            (Field::ConvergenceRate, -0.01),
            (Field::ConvergenceP50Secs, 60.0),
            (Field::SettledAccuracyP50, 0.05),
            (Field::SettledAccuracyP99, 9.0),
            (Field::JitterMeanPerMin, 9.0),
        ],
    );
    assert!(r.fails.is_empty());
    assert_eq!(r.warns, ["cold: WARN dSA_p50 > +0.03"]);
}

#[test]
fn guards_of_stable_cells() {
    let r = guarded(
        "spm_6.stable",
        CellKind::Stable,
        &[
            (Field::SettledAccuracyP50, 0.021),
            (Field::SettledAccuracyP99, 0.051),
            (Field::JitterMeanPerMin, 0.0011),
            (Field::JitterP99PerMin, 0.011),
        ],
    );
    assert_eq!(
        r.fails,
        [
            "stable: dSA_p50 > +0.02",
            "stable: dSA_p99 > +0.05",
            "stable: dJmean > +0.001",
            "stable: dJP99 > +0.01"
        ]
    );
    assert_eq!(r.warns, ["stable: jitter increase is suspicious"]);
    let r = guarded("spm_6.stable", CellKind::Stable, &[(Field::JitterMeanPerMin, 0.0005)]);
    assert!(r.fails.is_empty());
    assert_eq!(r.warns, ["stable: jitter increase is suspicious"]);
    let r = guarded("spm_6.stable", CellKind::Stable, &[(Field::JitterMeanPerMin, -0.1)]);
    assert!(r.fails.is_empty() && r.warns.is_empty());
}

#[test]
fn guards_of_steps() {
    let all = [
        (Field::ReactionRate, -0.06),
        (Field::ReactionP50Secs, 61.0),
        (Field::ReactionP99Secs, 121.0),
        (Field::SettledAccuracyP50, 0.11),
        (Field::SettledAccuracyP99, 0.11),
        (Field::JitterMeanPerMin, 0.003),
        (Field::JitterP99PerMin, 0.03),
    ];
    let common = [
        "step: dRR < -0.05",
        "step: dRP50s > +60",
        "step: dRP99s > +120",
        "step: dSA_p50 > +0.05",
        "step: dSA_p99 > +0.10",
        "step: dJmean > +0.002",
        "step: dJP99 > +0.02",
    ];
    let r = guarded("spm_6.step_minus_25", CellKind::Step, &all);
    assert_eq!(r.fails, common);
    let r = guarded("spm_30.step_minus_50", CellKind::Step, &all);
    assert_eq!(r.fails[..7], common);
    assert_eq!(r.fails[7..], ["hard: ±50% step dRR < -0.03"]);
    let r = guarded("spm_12.step_plus_50", CellKind::Step, &all);
    assert_eq!(
        r.fails[7..],
        ["hard: ±50% step dRR < -0.03", "hard: low-SPM ±50% step dSA_p50 > +0.10"]
    );
    // between the two limits of the reaction rate
    let r = guarded("spm_30.step_plus_50", CellKind::Step, &[(Field::ReactionRate, -0.04)]);
    assert_eq!(r.fails, ["hard: ±50% step dRR < -0.03"]);
    let r = guarded("spm_30.step_plus_25", CellKind::Step, &[(Field::ReactionRate, -0.04)]);
    assert!(r.fails.is_empty());
    let r = guarded("spm_6.x", CellKind::Other, &all);
    assert!(r.fails.is_empty() && r.warns.is_empty());
}

#[test]
fn comparing_two_runs() {
    let (baseline, candidate) = (read(BASELINE), read(CANDIDATE));
    let rows = compare_cells(&baseline, &candidate);
    let names: Vec<&str> = rows.iter().map(|r| r.cell.as_str()).collect();
    assert_eq!(names, ["spm_12.step_minus_50", "spm_6.stable_1ph"]);
    assert_eq!(rows[0].kind, CellKind::Step);
    assert_eq!(rows[0].delta.reaction_rate, Some(double(0.765 - 0.80)));
    assert_eq!(rows[0].fails, ["hard: ±50% step dRR < -0.03"]);
    assert_eq!(rows[1].delta.settled_accuracy_p50, Some(double(0.15 - 0.10)));
    assert_eq!(rows[1].fails, ["stable: dSA_p50 > +0.02"]);
    assert_eq!(rows[1].warns, ["stable: jitter increase is suspicious"]);
}

#[test]
fn regressions_and_beats() {
    let (d, t, z) = (double(0.15), double(0.05), double(0.25));
    let ratio = (0.15 - 0.05) / 0.25f64;
    assert_eq!(num(lower_regression(d, t, z)), ratio * ratio);
    assert_eq!(num(higher_beat(d, t, z)), ratio * ratio);
    assert_eq!(num(lower_beat(d, t, z)), 0.0);
    assert_eq!(num(higher_regression(d, t, z)), 0.0);
    let ratio = (0.15 - 0.05) / 0.25f64;
    assert_eq!(num(lower_beat(double(-0.15), t, z)), ratio * ratio);
    assert_eq!(num(higher_regression(double(-0.15), t, z)), ratio * ratio);
    // deviations of nothing are taken for tiny ones
    let ratio = (0.15 - 0.05) / 1e-9f64;
    assert_eq!(num(lower_regression(d, t, double(0.0))), ratio * ratio);
    assert_eq!(num(lower_regression(d, t, double(f64::NAN))), ratio * ratio);
    assert!(lower_regression(double(f64::NAN), t, z).is_nan());
    assert_eq!(num(lower_regression(double(0.05), t, z)), 0.0);
}

#[test]
fn regressions_grow_and_never_meet_beats() {
    let (t, z) = (double(0.05), double(0.2));
    let mut last = 0.0;
    for i in -40..=40 {
        let d = double(i as f64 / 100.0);
        let (low, high) = (num(lower_regression(d, t, z)), num(higher_regression(d, t, z)));
        assert!(low >= last);
        last = low;
        assert!(low >= 0.0 && high >= 0.0);
        assert!(low == 0.0 || num(lower_beat(d, t, z)) == 0.0);
        assert!(high == 0.0 || num(higher_beat(d, t, z)) == 0.0);
    }
}

#[test]
fn deviations_of_series() {
    assert_eq!(num(z_std(&Vec::new())), 1.0);
    assert_eq!(num(z_std(&vec![double(5.0)])), 1e-6);
    let values = [1.0f64, 2.5, -4.0, 0.25];
    let mean = values.iter().sum::<f64>() / 4.0;
    let var = values.iter().map(|v| (v - mean) * (v - mean)).sum::<f64>() / 4.0;
    let held: Vec<Double> = values.iter().map(|v| double(*v)).collect();
    assert_eq!(num(z_std(&held)), var.sqrt().max(1e-6));
}

#[test]
fn scores_of_cells() {
    let rows = vec![
        row(
            "a",
            CellKind::Stable,
            metrics(&[(Field::SettledAccuracyP50, 0.05), (Field::JitterMeanPerMin, -0.3)]),
        ),
        row("b", CellKind::Stable, metrics(&[(Field::SettledAccuracyP50, -0.02)])),
    ];
    let z = metric_z(&rows);
    let (mean, sd) = (0.015f64, 0.035f64);
    assert!((num(z.sa_p50) - sd).abs() < 1e-12 && mean > 0.0);
    assert_eq!(num(z.jmean), 1e-6);
    assert_eq!(num(z.cr), 1.0);
    let tally = cell_score_z(CellKind::Stable, rows[0].delta, z);
    let reg = (0.05 - 0.02) / num(z.sa_p50);
    let beat = (0.3 - 0.001) / 1e-6f64;
    assert_eq!(num(tally.reg), 0.0 + 3.0 * (reg * reg) + 4.0 * 0.0);
    assert_eq!(num(tally.beat), 0.0 + 3.0 * 0.0 + 4.0 * (beat * beat));
    let other = cell_score_z(CellKind::Other, rows[0].delta, z);
    assert_eq!((num(other.reg), num(other.beat)), (0.0, 0.0));
    let cold = cell_score_z(
        CellKind::ColdStart,
        metrics(&[(Field::ConvergenceRate, -0.02), (Field::JitterP99PerMin, 0.5)]),
        z,
    );
    let rate = (0.02 - 0.01) / 1.0f64;
    assert_eq!(num(cold.reg), 3.0 * (rate * rate) + 1.0 * (0.5 * 0.5));
    let step = cell_score_z(CellKind::Step, metrics(&[(Field::ReactionRate, 0.15)]), z);
    let rate = (0.15 - 0.05) / 1.0f64;
    assert_eq!((num(step.reg), num(step.beat)), (0.0, 5.0 * (rate * rate)));
}

#[test]
fn cells_within_their_limits_score_nothing() {
    let mut rows = vec![
        guarded(
            "spm_30.step_minus_50",
            CellKind::Step,
            &[(Field::ReactionRate, -0.03), (Field::ReactionP50Secs, 60.0), (Field::SettledAccuracyP99, 0.1)],
        ),
        guarded("spm_30.stable", CellKind::Stable, &[(Field::JitterMeanPerMin, 0.001)]),
    ];
    score_rows(&mut rows);
    for r in &rows {
        assert!(r.fails.is_empty());
        assert_eq!(num(r.score), 0.0);
    }
}

#[test]
fn guards_and_scores_agree() {
    // the least that is beyond each limit
    let above = |x: f64| f64::from_bits(x.to_bits() + 1);
    let stable = [
        (Field::SettledAccuracyP50, 0.02),
        (Field::SettledAccuracyP99, 0.05),
        (Field::JitterMeanPerMin, 0.001),
        (Field::JitterP99PerMin, 0.01),
    ];
    let cold = [
        (Field::ConvergenceP50Secs, 60.0),
        (Field::ConvergenceP99Secs, 120.0),
        (Field::SettledAccuracyP50, 0.08),
    ];
    // with ordinary deviations, and with the greatest against which that counts
    let ordinary = metric_z(&Vec::new());
    let mut great = ordinary;
    let greatest = double(2.0f64.powi(475));
    great.cr = greatest;
    great.cp50 = greatest;
    great.cp99 = greatest;
    great.sa_p50 = greatest;
    great.sa_p99 = greatest;
    great.jmean = greatest;
    great.jp99 = greatest;
    for z in [ordinary, great] {
        let loses = |r: &CellDelta| num(cell_score_z(r.kind, r.delta, z).reg) > 0.0;
        for (field, limit) in stable {
            let r = guarded("a", CellKind::Stable, &[(field, above(limit))]);
            assert!(!r.fails.is_empty() && loses(&r));
            let r = guarded("a", CellKind::Stable, &[(field, limit)]);
            assert!(r.fails.is_empty() && !loses(&r));
        }
        for (field, limit) in cold {
            let r = guarded("a", CellKind::ColdStart, &[(field, above(limit))]);
            assert!(!r.fails.is_empty() && loses(&r));
        }
        let r = guarded("a", CellKind::ColdStart, &[(Field::ConvergenceRate, -above(0.01))]);
        assert!(!r.fails.is_empty() && loses(&r));
        // a step may fail for a reaction rate that costs nothing
        let r = guarded("step_plus_50", CellKind::Step, &[(Field::ReactionRate, -0.04)]);
        assert!(!r.fails.is_empty() && !loses(&r));
        let r = guarded("a", CellKind::Other, &[(Field::ReactionRate, -0.4)]);
        assert!(r.fails.is_empty() && !loses(&r));
    }
    // against a greater deviation the smallest excess counts for nothing
    great.jmean = double(2.0f64.powi(480));
    let r = guarded("a", CellKind::Stable, &[(Field::JitterMeanPerMin, above(0.001))]);
    assert_eq!(num(cell_score_z(r.kind, r.delta, great).reg), 0.0);
}

#[test]
fn verdicts() {
    let (baseline, candidate) = (read(BASELINE), read(CANDIDATE));
    let mut rows = compare_cells(&baseline, &candidate);
    score_rows(&mut rows);
    let v = verdict(&rows);
    assert!(v.hard_fail);
    assert!(!v.accepted);
    assert_eq!(
        num(v.total_score),
        rows.iter().map(|r| num(r.score)).sum::<f64>()
    );
    assert_eq!(
        num(v.total_beat_score),
        rows.iter().map(|r| num(r.beat_score)).sum::<f64>()
    );
    // a run compared with itself
    let mut rows = compare_cells(&baseline, &baseline);
    score_rows(&mut rows);
    let v = verdict(&rows);
    assert!(v.accepted && !v.hard_fail);
    assert_eq!(num(v.total_score), 0.0);
    assert!(select(&rows, Selection::Worse).is_empty());
    // nothing in common
    assert!(verdict(&Vec::new()).accepted);
    // a score alone rejects: a cold start that only jitters more
    let mut rows = vec![guarded("c", CellKind::ColdStart, &[(Field::JitterMeanPerMin, 0.5)])];
    score_rows(&mut rows);
    let v = verdict(&rows);
    assert!(!v.hard_fail && !v.accepted);
    // a difference that is no number rejects too
    let mut rows = vec![guarded("c", CellKind::Stable, &[(Field::JitterMeanPerMin, f64::NAN)])];
    score_rows(&mut rows);
    assert!(rows[0].fails.is_empty());
    assert!(!verdict(&rows).accepted);
}

#[test]
fn rows_that_got_worse() {
    let mut scored = row("a", CellKind::Other, Metrics::none());
    assert!(!has_any_regression(&scored));
    scored.score = double(0.1);
    assert!(has_any_regression(&scored));
    let mut warned = row("b", CellKind::Other, Metrics::none());
    warned.warns.push("w".to_string());
    let mut failed = row("c", CellKind::Other, Metrics::none());
    failed.fails.push("f".to_string());
    let fine = row("d", CellKind::Other, Metrics::none());
    let rows = vec![scored, warned, fine, failed];
    let names = |s: Selection| -> Vec<String> {
        select(&rows, s).iter().map(|r| r.cell.clone()).collect()
    };
    assert_eq!(names(Selection::Worse), ["a", "b", "c"]);
    assert_eq!(names(Selection::Failed), ["c"]);
}

#[test]
fn flags_and_lines() {
    let mut r = row("spm_6.x", CellKind::Other, metrics(&[(Field::ConvergenceRate, 0.5)]));
    assert_eq!(flags(&r), "-");
    r.warns.push("w1".to_string());
    r.warns.push("w2".to_string());
    assert_eq!(flags(&r), "WARN:w1;w2");
    r.fails.push("f1".to_string());
    assert_eq!(flags(&r), "WARN:w1;w2 | FAIL:f1");
    r.warns.clear();
    assert_eq!(flags(&r), "FAIL:f1");
    r.score = double(2.0);
    let shown = columns(&r);
    let decimals: Vec<usize> = shown.iter().map(|c| c.decimals).collect();
    assert_eq!(decimals, [3, 0, 0, 4, 4, 4, 4, 3, 0, 0, 6, 6]);
    assert_eq!(shown[0].value, Some(double(0.5)));
    assert_eq!(shown[1].value, None);
    assert_eq!(shown[10].value, Some(double(2.0)));
    assert!(shown[0].signed && !shown[10].signed);
    let numbers: Vec<String> = ["+0.500", "-", "2.000000"].iter().map(|s| s.to_string()).collect();
    assert_eq!(table_line(&r, &numbers), "spm_6.x | +0.500 | - | 2.000000 | FAIL:f1");
}

#[test]
fn worst_cells_come_first() {
    let sa = |cell: &str, x: f64| row(cell, CellKind::Other, metrics(&[(Field::SettledAccuracyP50, x)]));
    let rows = vec![
        sa("a", 0.1),
        sa("b", 0.3),
        sa("c", -0.2),
        sa("d", 0.3),
        sa("e", 0.0),
        row("f", CellKind::Other, metrics(&[(Field::SettledAccuracyP99, 0.2)])),
        sa("g", f64::NAN),
        sa("h", 0.05),
        sa("i", 0.01),
        row("j", CellKind::Other, Metrics::none()),
    ];
    let list: Vec<(String, f64)> = worst(&rows, Concern::SettledAccuracy)
        .iter()
        .map(|e| (e.0.clone(), num(e.1)))
        .collect();
    let want: Vec<(String, f64)> = [("b", 0.3), ("d", 0.3), ("f", 0.2), ("a", 0.1), ("h", 0.05)]
        .iter()
        .map(|(k, v)| (k.to_string(), *v))
        .collect();
    assert_eq!(list, want);
    assert!(worst(&rows, Concern::ReactionRate).is_empty());
    assert!(worst(&rows, Concern::Jitter).is_empty());
}

#[test]
fn what_cells_are_listed_for() {
    let d = metrics(&[
        (Field::ReactionRate, -0.25),
        (Field::ReactionP50Secs, -5.0),
        (Field::ReactionP99Secs, 7.0),
        (Field::JitterMeanPerMin, 0.5),
    ]);
    assert_eq!(badness(Concern::SettledAccuracy, d), None);
    assert_eq!(badness(Concern::ReactionRate, d), Some(double(0.25)));
    assert_eq!(badness(Concern::ReactionTime, d), Some(double(7.0)));
    assert_eq!(badness(Concern::Jitter, d), Some(double(0.5)));
    assert_eq!(badness(Concern::ReactionRate, Metrics::none()), None);
    assert_eq!(badness(Concern::Jitter, Metrics::none()), Some(double(0.0)));
}
