use pi_natives::builtins::{
    bounded_run_result, command_line, delay_result, parse_duration, plan_bounded_run,
    plan_delay, quote_arg, snapshot_command, BoundedRunEnd, BoundedRunPlan, DelayPlan,
};
use pi_natives::coordinator::{exit_code, ControlFlow, ExecutionResult, ExitStatus};

fn strings(v: &[&str]) -> Vec<String> {
    v.iter().map(|s| s.to_string()).collect()
}

#[test]
fn duration_units() {
    assert_eq!(parse_duration("5"), Some(5000));
    assert_eq!(parse_duration("5s"), Some(5000));
    assert_eq!(parse_duration("2m"), Some(120_000));
    assert_eq!(parse_duration("1h"), Some(3_600_000));
    assert_eq!(parse_duration("1d"), Some(86_400_000));
    assert_eq!(parse_duration("  3  "), Some(3000));
    assert_eq!(parse_duration("+2"), Some(2000));
}

#[test]
fn duration_fractions_round_to_millis() {
    assert_eq!(parse_duration("1.5m"), Some(90_000));
    assert_eq!(parse_duration("0.1"), Some(100));
    assert_eq!(parse_duration(".25"), Some(250));
    assert_eq!(parse_duration("5."), Some(5000));
    assert_eq!(parse_duration("0.0005"), Some(1));
    assert_eq!(parse_duration("0.0004999"), Some(0));
    assert_eq!(parse_duration("0.00001d"), Some(864));
}

#[test]
fn duration_rejects_bad_tokens() {
    for bad in [
        "", "   ", "s", "-1", "-0", "abc", "5x", "1.2.3", ".", "+", "inf", "nan", "infs", "5e", "e5",
        "1e+", "1e-s", "1.e", "++1", "1e3.5",
    ] {
        assert_eq!(parse_duration(bad), None, "{bad:?}");
    }
}

#[test]
fn duration_exponents() {
    assert_eq!(parse_duration("1e3"), Some(1_000_000));
    assert_eq!(parse_duration("5e-1"), Some(500));
    assert_eq!(parse_duration("1E+2s"), Some(100_000));
    assert_eq!(parse_duration("2e1m"), Some(1_200_000));
    assert_eq!(parse_duration("1.5e-3"), Some(2));
    assert_eq!(parse_duration(".5e1"), Some(5000));
    assert_eq!(parse_duration("1e15"), Some(1_000_000_000_000_000_000));
    assert_eq!(parse_duration("0e999999999999999999999999"), Some(0));
    assert_eq!(parse_duration("7e-99999999999999999999999999"), Some(0));
}

#[test]
fn duration_not_finite_is_rejected() {
    assert_eq!(parse_duration("1e400"), None);
    assert_eq!(parse_duration("1e99999999999999999999999999"), None);
    assert_eq!(parse_duration(&"9".repeat(400)), None);
    let bound = "179769313486231590772930519078902473361797697894230657273430081157732675805500963132708477322407536021120113879871393357658789768814416622492847430639474124377767893424865485276302219601246094119453082952085005768838150682342462881473913110540827237163350510684586298239947245938479716304835356329624224137216";
    let at_bound = format!("{}.{}e305", &bound[..1], &bound[1..]);
    assert_eq!(parse_duration(&at_bound), None);
    let below = format!("{}.{}5e305", &bound[..1], &bound[1..bound.len() - 1]);
    assert_eq!(parse_duration(&below), Some(u64::MAX));
}

#[test]
fn duration_saturates() {
    assert_eq!(parse_duration("99999999999999999999999999"), Some(u64::MAX));
    assert_eq!(parse_duration("1e17"), Some(u64::MAX));
}

#[test]
fn quoting_tokens() {
    assert_eq!(quote_arg(""), "''");
    assert_eq!(quote_arg("a-b_c.d/e:f+g9"), "a-b_c.d/e:f+g9");
    assert_eq!(quote_arg("hello world"), "'hello world'");
    assert_eq!(quote_arg("it's"), "'it'\"'\"'s'");
    assert_eq!(quote_arg("$HOME"), "'$HOME'");
}

#[test]
fn nested_command_line() {
    assert_eq!(command_line(&strings(&["sleep", "5"])), "sleep 5");
    assert_eq!(command_line(&strings(&["echo", "a b", ""])), "echo 'a b' ''");
    assert_eq!(command_line(&Vec::new()), "");
}

#[test]
fn delay_plans() {
    assert!(matches!(plan_delay(true, &strings(&["1"])), DelayPlan::Interrupted));
    assert!(matches!(
        plan_delay(false, &strings(&["1", "0.5", "1m"])),
        DelayPlan::Sleep { millis: 61_500 }
    ));
    match plan_delay(false, &strings(&["1", "x", "y"])) {
        DelayPlan::Invalid { message, status } => {
            assert_eq!(message, "sleep: invalid time interval 'x'");
            assert_eq!(status, ExitStatus::GeneralError);
        }
        _ => panic!("expected an invalid token"),
    }
    assert_eq!(delay_result(false).exit_code, ExitStatus::Success);
    assert_eq!(delay_result(true).exit_code, ExitStatus::Interrupted);
}

#[test]
fn bounded_run_elapsed_reports_124() {
    match plan_bounded_run(false, "1", &strings(&["sleep", "5"])) {
        BoundedRunPlan::Run { millis, command_line } => {
            assert_eq!(millis, 1000);
            assert_eq!(command_line, "sleep 5");
        }
        _ => panic!("expected a run"),
    }
    let r = bounded_run_result(BoundedRunEnd::Elapsed).unwrap();
    assert_eq!(exit_code(&r), 124);
    assert_eq!(r.next_control_flow, ControlFlow::Normal);
}

#[test]
fn bounded_run_other_endings() {
    let r = bounded_run_result(BoundedRunEnd::OuterCancelled).unwrap();
    assert_eq!(exit_code(&r), 130);
    let nested = ExecutionResult { next_control_flow: ControlFlow::Normal, exit_code: ExitStatus::Custom(7) };
    assert_eq!(bounded_run_result(BoundedRunEnd::Completed(Ok(nested))), Ok(nested));
    assert!(matches!(plan_bounded_run(true, "1", &strings(&["x"])), BoundedRunPlan::Interrupted));
    match plan_bounded_run(false, "zz", &strings(&["x"])) {
        BoundedRunPlan::Invalid { message, status } => {
            assert_eq!(message, "timeout: invalid time interval 'zz'");
            assert_eq!(status, ExitStatus::Custom(125));
        }
        _ => panic!("expected invalid duration"),
    }
    match plan_bounded_run(false, "1", &Vec::new()) {
        BoundedRunPlan::Invalid { message, status } => {
            assert_eq!(message, "timeout: missing command");
            assert_eq!(status, ExitStatus::Custom(125));
        }
        _ => panic!("expected missing command"),
    }
}

#[test]
fn snapshot_source_command() {
    assert_eq!(snapshot_command("/tmp/snap.sh"), "source '/tmp/snap.sh'");
    assert_eq!(snapshot_command("a'b"), "source 'a'\\''b'");
}
