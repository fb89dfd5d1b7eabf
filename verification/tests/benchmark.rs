use presolve::compare::{Comparison, Snapshot};
use presolve::corpus::{self, Instance};
use presolve::json::{Number, Value};
use presolve::number::Real;
use presolve::render::{self, Format};
use presolve::report::{self, Clock};
use presolve::result::{
    EqualityStats, Phases, ReductionKind, Reductions, RuleId, Size as ModelSize, Stats,
};
use presolve::results::{self, Case, Counts, Kind, LoadError, Measurement, Metadata, Run};
use presolve::snapshot::{self, Ending, Presolved};
use presolve::table;

fn num(x: f64) -> Real {
    Real::from_bits(x.to_bits())
}

fn float(x: Real) -> f64 {
    f64::from_bits(x.to_bits())
}

fn n(value: i64) -> Value {
    Value::Number(Number { integer: Some(value as i128), text: value.to_string() })
}

fn s(text: &str) -> Value {
    Value::Text(text.to_string())
}

fn object(mut fields: Vec<(&str, Value)>) -> Value {
    fields.sort_by(|a, b| a.0.cmp(b.0));
    Value::Object(fields.into_iter().map(|(k, v)| (k.to_string(), v)).collect())
}

fn copy(records: &[(&str, &Value)]) -> Snapshot {
    let mut list: Snapshot = records.iter().map(|(k, v)| (k.to_string(), v.copy())).collect();
    list.sort_by(|a, b| a.0.cmp(&b.0));
    list
}

fn presolved(variables: i64, reductions: Value, phases: i64) -> Value {
    object(vec![
        ("status", s("presolved")),
        ("outcome", s("reduced")),
        ("time_limit_reached", Value::Bool(false)),
        ("after", object(vec![("variables", n(variables)), ("a_nonzeros", n(10))])),
        ("reductions", reductions),
        ("work", object(vec![("fast_phases", n(phases))])),
    ])
}

fn set(record: &mut Value, name: &str, value: Value) {
    let Value::Object(fields) = record else { panic!() };
    fields.retain(|(k, _)| k != name);
    fields.push((name.to_string(), value));
    fields.sort_by(|a, b| a.0.cmp(&b.0));
}

fn rate(base: i128, head: i128) -> String {
    format!("{:+.2}%", (head - base) as f64 * 100.0 / base as f64)
}

fn text(c: &Comparison, format: Format, rows: usize) -> String {
    c.render(format, rows, &rate)
}

#[test]
fn identical_snapshots_have_no_changes() {
    let record = presolved(
        3,
        object(vec![("fixed_variables", object(vec![("fixed", n(2))]))]),
        1,
    );
    let snapshot = copy(&[("a/x", &record)]);
    let c = Comparison::new(&snapshot, &snapshot);
    assert!(!c.has_changes());
    assert!(c.deltas.is_empty());
    assert!(text(&c, Format::Text, 10).starts_with("No reduction changes."));
}

#[test]
fn missing_reduction_counts_are_zero() {
    let base = presolved(
        3,
        object(vec![("fixed_variables", object(vec![("fixed", n(2))]))]),
        1,
    );
    let head = presolved(
        2,
        object(vec![
            ("fixed_variables", object(vec![("fixed", n(2)), ("substituted", n(1))])),
            ("cones", object(vec![("cone_slack", n(4))])),
        ]),
        1,
    );
    let (base, head) = (copy(&[("a/x", &base)]), copy(&[("a/x", &head)]));
    let c = Comparison::new(&base, &head);
    let paths: Vec<(&str, String, String)> = c
        .deltas
        .iter()
        .map(|d| (d.path.as_str(), render::compact(&d.base), render::compact(&d.head)))
        .collect();
    assert_eq!(
        paths,
        [
            ("after.variables", "3".into(), "2".into()),
            ("reductions.cones.cone_slack", "0".into(), "4".into()),
            ("reductions.fixed_variables.substituted", "0".into(), "1".into()),
        ]
    );
    assert!(c.fields_only_head.names.is_empty());
    assert!(c.has_changes());
    // And in the other direction.
    let c = Comparison::new(&head, &base);
    assert_eq!(c.deltas[1].path, "reductions.cones.cone_slack");
    assert!(c.deltas[1].base.same(&n(4)) && c.deltas[1].head.same(&n(0)));
}

#[test]
fn work_only_differences_are_informational() {
    let base = copy(&[("a/x", &presolved(3, object(vec![]), 1))]);
    let head = copy(&[("a/x", &presolved(3, object(vec![]), 2))]);
    let c = Comparison::new(&base, &head);
    assert!(!c.has_changes());
    assert_eq!(c.deltas.len(), 1);
    assert!(c.deltas[0].is_work());
    let text = text(&c, Format::Text, 10);
    assert!(
        text.contains(
            "0 with status, outcome, size, or reduction changes, 1 with work-only changes"
        ),
        "{text}"
    );
    assert!(
        text.contains("work.fast_phases") || text.contains("fast_phases"),
        "{text}"
    );
}

#[test]
fn fields_on_one_side_are_schema_drift() {
    let mut head_record = presolved(3, object(vec![]), 1);
    set(
        &mut head_record,
        "work",
        object(vec![("fast_phases", n(1)), ("new_counter", n(7))]),
    );
    set(&mut head_record, "extra", Value::Bool(true));
    let base = copy(&[
        ("a/x", &presolved(3, object(vec![]), 1)),
        ("a/y", &presolved(1, object(vec![]), 1)),
    ]);
    let head = copy(&[("a/x", &head_record), ("b/z", &presolved(1, object(vec![]), 1))]);
    let c = Comparison::new(&base, &head);
    assert!(c.deltas.is_empty());
    assert_eq!(c.fields_only_head.names, ["extra", "work.new_counter"]);
    assert_eq!(
        (c.only_base.as_slice(), c.only_head.as_slice()),
        (&["a/y".to_string()][..], &["b/z".to_string()][..])
    );
    // A different instance set is a change even with identical records.
    assert!(c.has_changes());
    let report = text(&c, Format::Text, 10);
    assert!(report.contains("Only in base: a/y.\n"));
    assert!(report.contains("Fields only in head, not compared: extra (1), work.new_counter (1).\n"));
}

#[test]
fn a_status_change_is_one_delta() {
    let base = copy(&[(
        "a/x",
        &presolved(3, object(vec![("fixed_variables", object(vec![("fixed", n(2))]))]), 1),
    )]);
    let head = copy(&[(
        "a/x",
        &object(vec![("status", s("panic")), ("message", s("index out of bounds"))]),
    )]);
    let c = Comparison::new(&base, &head);
    assert_eq!(c.deltas.len(), 1);
    assert_eq!(c.deltas[0].path, "status");
    assert!(c.deltas[0].base.same(&s("presolved: reduced")));
    assert!(c.deltas[0].head.same(&s("panic: index out of bounds")));
    assert!(c.fields_only_base.names.is_empty());
    let md = text(&c, Format::Markdown, 10);
    assert!(md.starts_with("## Reductions changed\n"), "{md}");
    assert!(md.contains("| reduced | 1 | 0 | -1 | -100.00% |"), "{md}");
    assert!(md.contains("| panic | 0 | 1 | +1 | new |"), "{md}");
}

#[test]
fn a_certificate_replacing_a_size_is_a_leaf_change() {
    let base = copy(&[("a/x", &presolved(3, object(vec![]), 1))]);
    let mut infeasible = presolved(3, object(vec![]), 1);
    set(&mut infeasible, "outcome", s("infeasible"));
    set(&mut infeasible, "after", Value::Null);
    let head = copy(&[("a/x", &infeasible)]);
    let c = Comparison::new(&base, &head);
    let paths: Vec<&str> = c.deltas.iter().map(|d| d.path.as_str()).collect();
    assert_eq!(paths, ["after", "outcome"]);
    assert!(c.fields_only_base.names.is_empty());
    // The instance has no size on one side, so neither side sums it.
    assert!(c.base.after.names.is_empty() && c.head.after.names.is_empty());
    assert_eq!(render::compact(&c.deltas[0].base), "{\"a_nonzeros\":10,\"variables\":3}");
}

#[test]
fn long_instance_tables_are_capped() {
    let base: Snapshot =
        (0..5).map(|i| (format!("a/{i}"), presolved(3, object(vec![]), 1))).collect();
    let head: Snapshot =
        (0..5).map(|i| (format!("a/{i}"), presolved(4, object(vec![]), 1))).collect();
    let text = text(&Comparison::new(&base, &head), Format::Text, 2);
    assert!(text.contains("3 more rows not shown."), "{text}");
}

#[test]
fn values_are_written_as_json_with_escapes() {
    let value = object(vec![
        ("a\"b", Value::List(vec![Value::Null, Value::Bool(true), s("x\ny")])),
        ("c", n(-4)),
    ]);
    assert_eq!(render::compact(&value), "{\"a\\\"b\":[null,true,\"x\\ny\"],\"c\":-4}");
    assert_eq!(render::compact(&s("x\ny")), "x\ny");
}

#[test]
fn numbers_carry_signs_and_relative_changes() {
    assert_eq!(render::signed(0), "0");
    assert_eq!(render::signed(7), "+7");
    assert_eq!(render::signed(i128::MIN), i128::MIN.to_string());
    assert_eq!(render::percent(4, 4, &rate), "");
    assert_eq!(render::percent(0, 4, &rate), "new");
    assert_eq!(render::percent(8, 4, &rate), "-50.00%");
}

#[test]
fn tables_align_the_first_column_left_and_the_rest_right() {
    let cells = |row: &[&str]| row.iter().map(|c| c.to_string()).collect::<Vec<String>>();
    let headers = cells(&["name", "n"]);
    let rows = vec![cells(&["a", "10"]), cells(&["b|c", ""])];
    let plain: String = table::table(false, &headers, &rows).into_iter().collect();
    assert_eq!(plain, "name   n\na     10\nb|c\n");
    let md: String = table::table(true, &headers, &rows).into_iter().collect();
    assert_eq!(md, "| name | n |\n| :-- | --: |\n| a | 10 |\n| b\\|c |  |\n");
    assert_eq!(table::with_first(&headers, "x"), ["x", "n"]);
}

fn duration(ns: f64) -> String {
    if ns >= 1e9 {
        format!("{:.3}s", ns / 1e9)
    } else if ns >= 1e6 {
        format!("{:.3}ms", ns / 1e6)
    } else if ns >= 1e3 {
        format!("{:.3}µs", ns / 1e3)
    } else {
        format!("{ns:.1}ns")
    }
}

fn percentile(sorted: &[f64], fraction: f64) -> f64 {
    let position = fraction * (sorted.len() - 1) as f64;
    let lower = position.floor() as usize;
    let upper = position.ceil() as usize;
    sorted[lower] + (sorted[upper] - sorted[lower]) * position.fract()
}

fn timing(times: &Vec<u64>) -> (Real, String) {
    let mut values: Vec<f64> = times.iter().map(|&t| t as f64).collect();
    values.sort_by(f64::total_cmp);
    let median = percentile(&values, 0.5);
    (
        num(median),
        format!(
            "{} [{}–{}] n={}",
            duration(median),
            duration(percentile(&values, 0.1)),
            duration(percentile(&values, 0.9)),
            values.len()
        ),
    )
}

fn render_runs(a: &Run, b: &Run, color: bool) -> (String, bool) {
    let clock = Clock {
        summary: timing,
        duration: |t: Real| duration(float(t)),
        rate: |a: Real, b: Real| format!("{:+.2}%", 100. * (float(b) / float(a) - 1.)),
        plus: |a: Real, b: Real| num(float(a) + float(b)),
    };
    clock.render(a, b, color)
}

fn run(kind: Kind, times: &[u64]) -> Run {
    let counts = Counts {
        variables: 3,
        linear_rows: 2,
        conic_rows: 0,
        a_nonzeros: 4,
        g_nonzeros: 0,
        p_nonzeros: 0,
    };
    Run {
        metadata: Metadata {
            version: 1,
            name: "test".into(),
            kind,
            trials: times.len(),
            created_unix_seconds: 0,
            machine: "test".into(),
            settings: "same".into(),
        },
        cases: vec![(
            "netlib/AFIRO/all".into(),
            Case {
                input_hash: "same".into(),
                errors: vec![],
                measurements: times
                    .iter()
                    .map(|&t| Measurement {
                        elapsed_ns: (kind == Kind::Time).then_some(t),
                        outcome: "reduced".into(),
                        before: counts,
                        after: Some(counts),
                        time_limit_reached: false,
                    })
                    .collect(),
            },
        )],
        complete: true,
    }
}

#[test]
fn timing_uses_independent_trials_and_reports_variability() {
    let a = run(Kind::Time, &[10, 20, 30]);
    let b = run(Kind::Time, &[5, 10, 15]);
    let (text, invalid) = render_runs(&a, &b, false);
    assert!(!invalid);
    assert!(text.contains("-50.00%"));
    assert!(text.contains("20.0ns [12.0ns–28.0ns] n=3"));
    assert!(!text.contains('\x1b'));
    assert!(text.contains("╭"));
}

#[test]
fn size_keeps_mixed_changes_and_missing_sizes_visible() {
    let a = run(Kind::Size, &[0]);
    let mut b = run(Kind::Size, &[0]);
    let m = &mut b.cases[0].1.measurements[0];
    m.after.as_mut().unwrap().variables -= 1;
    m.after.as_mut().unwrap().p_nonzeros += 2;
    let (text, invalid) = render_runs(&a, &b, true);
    assert!(!invalid);
    assert!(text.contains("\x1b[32m-1"));
    assert!(text.contains("\x1b[31m+2"));
    let m = &mut b.cases[0].1.measurements[0];
    m.after = None;
    m.outcome = "infeasible".into();
    let (text, _) = render_runs(&a, &b, false);
    assert!(text.contains("unavailable"));
    assert!(text.contains("infeasible"));
}

#[test]
fn incompatible_inputs_and_failed_or_missing_trials_are_flagged() {
    let a = run(Kind::Time, &[10, 20]);
    let mut b = run(Kind::Time, &[10, 20]);
    b.cases[0].1.input_hash = "changed".into();
    assert!(render_runs(&a, &b, false).1);
    b.cases[0].1.input_hash = "same".into();
    b.cases[0].1.measurements.pop();
    assert!(render_runs(&a, &b, false).1);
    b.cases.clear();
    assert!(render_runs(&a, &b, false).1);
    b.metadata.settings = "different".into();
    assert!(render_runs(&a, &b, false).0.contains("settings differ"));
}

#[test]
fn trials_that_reach_the_limit_or_disagree_are_named() {
    let mut a = run(Kind::Size, &[0, 0]);
    assert!(report::checked(&a.cases[0].1, 2, Kind::Size).is_ok());
    assert_eq!(
        report::checked(&a.cases[0].1, 3, Kind::Size).err().unwrap(),
        "expected 3 trials, found 2"
    );
    assert_eq!(
        report::checked(&a.cases[0].1, 2, Kind::Time).err().unwrap(),
        "measurement does not match run type"
    );
    a.cases[0].1.measurements[1].outcome = "solved".into();
    assert_eq!(
        report::checked(&a.cases[0].1, 2, Kind::Size).err().unwrap(),
        "outcome or model size differs between trials"
    );
    a.cases[0].1.measurements[0].time_limit_reached = true;
    assert_eq!(
        report::checked(&a.cases[0].1, 2, Kind::Size).err().unwrap(),
        "presolve time limit reached"
    );
    a.cases[0].1.errors = vec!["x".into(), "y".into()];
    assert_eq!(report::checked(&a.cases[0].1, 2, Kind::Size).err().unwrap(), "x; y");
    assert_eq!(report::paint("a", 33, true), "\x1b[33ma\x1b[0m");
    assert_eq!(report::paint("a", 33, false), "a");
}

#[test]
fn families_are_sorted_once_and_instances_are_named_by_their_files() {
    assert_eq!(corpus::instance_name("PILOT.JA.mps.gz"), Some("PILOT.JA".to_string()));
    assert_eq!(corpus::instance_name("x.mps"), Some("x".to_string()));
    assert_eq!(corpus::instance_name(".DS_Store"), None);
    assert_eq!(corpus::instance_name("notes.txt"), None);
    let names = |list: &[&str]| list.iter().map(|f| f.to_string()).collect::<Vec<String>>();
    assert_eq!(corpus::families(&names(&["b", "a", "b"])), ["a", "b"]);
    let instance = |family: &str, name: &str, path: &str| Instance {
        family: family.into(),
        name: name.into(),
        path: path.into(),
    };
    let list = vec![
        instance("b", "y", "b/y.mps.gz"),
        instance("b", "x", "b/x.mps"),
        instance("b", "PILOT.JA", "b/PILOT.JA.mps.gz"),
        instance("a", "z", "a/z.mps.gz"),
    ];
    let (order, clash) = corpus::arrange(&list);
    assert!(clash.is_none());
    let ids: Vec<String> = order.iter().map(|&k| list[k].id()).collect();
    assert_eq!(ids, ["a/z", "b/PILOT.JA", "b/x", "b/y"]);
    let list = vec![
        instance("a", "z", "a/z.mps.gz"),
        instance("b", "x", "b/x.mps"),
        instance("a", "z", "a/z.mps"),
    ];
    let (order, clash) = corpus::arrange(&list);
    let at = clash.unwrap();
    assert_eq!(
        corpus::clash_message(&list[order[at]], &list[order[at + 1]]),
        "a/z.mps and a/z.mps.gz are the same instance"
    );
}

#[test]
fn runs_take_in_their_records_in_turn() {
    let metadata = || run(Kind::Size, &[0]).metadata;
    let case = || Case {
        input_hash: "hash".into(),
        measurements: vec![],
        errors: vec!["worker failed".into()],
    };
    assert!(matches!(
        Run::begin(results::Record::Complete, Kind::Size, "test"),
        Err(LoadError::NoHeader)
    ));
    assert!(matches!(
        Run::begin(results::Record::Header(metadata()), Kind::Time, "test"),
        Err(LoadError::Inconsistent)
    ));
    let Ok(mut loaded) = Run::begin(results::Record::Header(metadata()), Kind::Size, "test") else {
        panic!()
    };
    let record = |id: &str| results::Record::Case { id: id.into(), result: case() };
    assert!(loaded.accept(record("netlib/AFIRO/all")).is_ok());
    assert!(loaded.accept(record("a")).is_ok());
    assert_eq!(loaded.cases[0].0, "a");
    assert!(matches!(loaded.accept(record("a")), Err(LoadError::DuplicateCase)));
    assert!(matches!(
        loaded.accept(results::Record::Header(metadata())),
        Err(LoadError::DuplicateHeader)
    ));
    assert!(!loaded.complete);
    assert!(loaded.accept(results::Record::Complete).is_ok());
    assert!(loaded.complete);
    assert!(matches!(loaded.accept(record("b")), Err(LoadError::AfterEnd)));
    assert_eq!(LoadError::AfterEnd.message(), "unexpected data after the completed run");
    assert_eq!(results::path(Kind::Size, "example"), Ok("size/example.jsonl".to_string()));
    assert!(results::path(Kind::Size, "../escape").is_err());
    assert!(results::path(Kind::Size, "..").is_err());
}

fn stats() -> Stats {
    let size = ModelSize {
        variables: 2,
        linear_rows: 1,
        conic_rows: 0,
        a_nonzeros: 2,
        g_nonzeros: 0,
        p_nonzeros: 0,
    };
    let mut reductions = Reductions::new();
    for _ in 0..2 {
        reductions.add(RuleId::SingletonRows, ReductionKind::TightenedBound);
        reductions.add(RuleId::FixedVariables, ReductionKind::Fixed);
    }
    reductions.add(RuleId::SingletonRows, ReductionKind::DeletedRow);
    Stats {
        equalities: EqualityStats::default(),
        elapsed: 0,
        time_limit_reached: false,
        before: size,
        after: Some(ModelSize { variables: 0, linear_rows: 0, a_nonzeros: 0, ..size }),
        parallel_comparisons: 0,
        quadratic_changed: false,
        reductions,
        phases: Phases { fast: 1, medium: 0 },
    }
}

#[test]
fn records_group_reductions_by_rule_and_kind() {
    let record = Presolved::new(&stats(), Ending::Solved, 3);
    assert_eq!(record.outcome, "solved");
    assert_eq!((record.before.variables, record.before.cone_blocks), (2, 3));
    assert_eq!(record.after.map(|a| (a.variables, a.cone_blocks)), Some((0, 0)));
    let list: Vec<(&str, Vec<(&str, usize)>)> = record
        .reductions
        .iter()
        .map(|(rule, kinds)| {
            (rule.as_str(), kinds.iter().map(|(k, n)| (k.as_str(), *n)).collect())
        })
        .collect();
    assert_eq!(
        list,
        [
            ("fixed_variables", vec![("fixed", 2)]),
            ("singleton_rows", vec![("deleted_row", 1), ("tightened_bound", 2)]),
        ]
    );
    assert_eq!(record.work.fast_phases, 1);
}

#[test]
fn recorded_instances_are_distinct_and_in_order() {
    let record = |instance: &str| snapshot::Record {
        instance: instance.into(),
        run: snapshot::Run::Panic { message: "boom".into() },
    };
    assert_eq!(snapshot::write_order(&vec![record("b/x"), record("a/x")]), Ok(vec![1, 0]));
    assert_eq!(
        snapshot::write_order(&vec![record("a/x"), record("a/x")]),
        Err("instance a/x recorded twice".to_string())
    );
    let mut list = Snapshot::new();
    let line = |name: &str| object(vec![("instance", s(name)), ("status", s("panic"))]);
    assert_eq!(snapshot::take_in(&mut list, &line("b/x")), Ok(()));
    assert_eq!(snapshot::take_in(&mut list, &line("a/x")), Ok(()));
    assert_eq!(
        snapshot::take_in(&mut list, &line("a/x")),
        Err("instance a/x recorded twice".to_string())
    );
    assert_eq!(
        snapshot::take_in(&mut list, &object(vec![("status", s("panic"))])),
        Err("record without a string instance".to_string())
    );
    assert_eq!(list[0].0, "a/x");
    assert!(list[0].1.same(&object(vec![("status", s("panic"))])));
}

#[test]
fn lines_of_text_are_parsed_before_they_are_taken_in() {
    let mut list = Vec::new();
    assert_eq!(snapshot::take_line(&mut list, "  "), Ok(()));
    let text = "{\"instance\":\"a/x\",\"status\":\"panic\",\"message\":\"p\"}";
    assert_eq!(snapshot::take_line(&mut list, text), Ok(()));
    assert_eq!(list.len(), 1);
    assert!(snapshot::take_line(&mut list, text).is_err());
    assert!(snapshot::take_line(&mut list, "{").is_err());
    assert_eq!(list.len(), 1);
}
