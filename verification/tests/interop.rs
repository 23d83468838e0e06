//! Judging runs of the regression suite.

use vortice::interop::{
    claim, completion_label, is_stale, readiness, Attempt, Claim, ClientRun, InteropError, LibVortex,
    Readiness, StartFault,
};

fn run(stdout: &str, success: bool) -> ClientRun {
    ClientRun {
        success,
        stdout: stdout.to_owned(),
        stderr: String::new(),
    }
}

/// A completion line in the exact shape `run_test()` prints.
fn completion(name: &str) -> String {
    let label = completion_label(name).unwrap_or_else(|| name.to_owned());
    format!("{label}: some description [   OK   ] (finished in 0 secs, 1000 microseconds)\n")
}

#[test]
fn recognises_the_completion_line_libvortex_actually_prints() {
    let output = "INFO: running test=test_01\n\
                  INFO: Checking to run test: test_01..\n\
                  Test 01: basic BEEP support [   OK   ] (finished in 0 secs, 1978 microseconds)\n\
                  **\n** INFO: All test ok!\n**\n";
    assert!(run(output, true).check(&["test_01"]).is_ok());
}

#[test]
fn accepts_a_clean_run() {
    let output = format!("{}INFO: All test ok!\n", completion("test_01"));
    assert!(run(&output, true).check(&["test_01"]).is_ok());
}

#[test]
fn rejects_a_test_that_never_ran() {
    // The trap: an unknown --run-test name runs nothing and still reports success.
    let output = "INFO: All test ok!\n";
    assert!(matches!(
        run(output, true).check(&["test_typo"]),
        Err(InteropError::TestNotRun { .. })
    ));
}

#[test]
fn believes_the_machine_readable_markers() {
    let output = "INFO: [begin] test_01\n\
                  Test 01: basic BEEP support [   OK   ] (finished in 0 secs, 2248 microseconds)\n\
                  INFO: [end] test_01\n\
                  INFO: [begin] test_02b\n\
                  Test 02-b: small message followed by close [   OK   ] (finished in 0 secs, 502489 microseconds)\n\
                  INFO: [end] test_02b\n\
                  ** INFO: All test ok!\n";
    let result = run(output, true);
    assert!(result.check(&["test_01", "test_02b"]).is_ok());
    assert_eq!(result.last_started().as_deref(), Some("test_02b"));
}

#[test]
fn does_not_accept_a_test_that_only_began() {
    // A test that started and never reported an end did not pass.
    let output = "INFO: [begin] test_01\n** INFO: All test ok!\n";
    assert!(matches!(
        run(output, true).check(&["test_01"]),
        Err(InteropError::TestNotRun { .. })
    ));
}

#[test]
fn names_the_test_a_failed_run_should_be_blamed_on() {
    let output = "INFO: [begin] test_02n\n\
                  Test 02-n: msgno reuse [ FAILED ]\n\
                  INFO: [failed] test_02n\n";
    let result = run(output, false);
    assert!(result.failed("test_02n"));
    assert!(
        matches!(result.check(&[]), Err(InteropError::ClientFailed { test: Some(name), .. }) if name == "test_02n")
    );
}

#[test]
fn blames_the_test_in_progress_when_the_client_dies_without_a_verdict() {
    // The [begin] marker is flushed precisely so a crash still identifies the test.
    let output = "INFO: [begin] test_01g1\n";
    let result = run(output, false);
    assert!(
        matches!(result.check(&[]), Err(InteropError::ClientFailed { test: Some(name), .. }) if name == "test_01g1")
    );
}

#[test]
fn is_not_fooled_by_the_name_echoed_in_the_banner() {
    // What the client actually prints for --run-test=test_does_not_exist: the name
    // appears twice, no test runs, and the success line is printed anyway.
    let output = "INFO: running test=test_does_not_exist\n\
                  INFO: Checking to run test: test_does_not_exist..\n\
                  **\n** INFO: All test ok!\n**\n";
    assert!(matches!(
        run(output, true).check(&["test_does_not_exist"]),
        Err(InteropError::TestNotRun { .. })
    ));
}

#[test]
fn does_not_accept_a_longer_test_name_in_place_of_the_one_requested() {
    let output = format!("{}INFO: All test ok!\n", completion("test_01a"));
    let result = run(&output, true);
    assert!(result.completed("test_01a"));
    assert!(!result.completed("test_01"));
}

#[test]
fn rejects_a_self_skipped_module() {
    let output = "--- WARNING: TLS not enabled, skipping test\nINFO: All test ok!\n";
    assert!(matches!(
        run(output, true).check(&[]),
        Err(InteropError::TestSkipped { .. })
    ));
}

#[test]
fn rejects_a_run_without_the_success_line() {
    assert!(matches!(
        run(&completion("test_01"), true).check(&["test_01"]),
        Err(InteropError::NoSuccessLine { .. })
    ));
}

#[test]
fn rejects_a_failing_process() {
    assert!(matches!(
        run("INFO: All test ok!\n", false).check(&[]),
        Err(InteropError::ClientFailed { .. })
    ));
}

#[test]
fn labels_tests_the_way_they_complete() {
    assert_eq!(completion_label("test_01").as_deref(), Some("Test 01"));
    assert_eq!(completion_label("test_01g1").as_deref(), Some("Test 01-g1"));
    assert_eq!(completion_label("test_001").as_deref(), Some("Test 00-1"));
    assert_eq!(completion_label("not-a-test"), None);
    assert_eq!(completion_label("test_1"), None);
    assert_eq!(completion_label("test_\u{e9}x").as_deref(), Some("Test \u{e9}-x"));
}

#[test]
fn lines_may_end_in_a_carriage_return() {
    let result = run("INFO: [end] test_01 \t\r\nINFO: [failed] test_02", true);
    assert!(result.completed("test_01"));
    assert!(result.failed("test_02"));
    assert!(!result.failed("test_0"));
    assert_eq!(result.last_started(), None);
}

#[test]
fn the_warning_that_is_reported_is_the_first() {
    let result = run("ok\n  a --- WARNING: one \n--- WARNING: two\nAll test ok!", true);
    assert!(
        matches!(result.check(&[]), Err(InteropError::TestSkipped { line }) if line == "a --- WARNING: one")
    );
}

#[test]
fn interop_errors_describe_themselves() {
    let result = ClientRun {
        success: false,
        stdout: "out".to_owned(),
        stderr: "err".to_owned(),
    };
    let failed = result.check(&[]).expect_err("a failure");
    assert_eq!(
        failed.message(),
        "vortex-regression-client exited with failure\n--- stdout ---\nout\n--- stderr ---\nerr"
    );
    let said = [
        (
            InteropError::ClientFailed {
                test: Some("test_01".to_owned()),
                output: "o".to_owned(),
            },
            "vortex-regression-client failed in test_01\no",
        ),
        (
            InteropError::TestNotRun {
                name: "test_x".to_owned(),
                output: "o".to_owned(),
            },
            "test 'test_x' never ran: the suite ignores unknown --run-test names and still \
             reports success\no",
        ),
        (
            InteropError::TestSkipped {
                line: "w".to_owned(),
            },
            "a test self-skipped because the module is not built into LibVortex: w",
        ),
        (
            InteropError::NoSuccessLine {
                output: "o".to_owned(),
            },
            "run finished without the 'All test ok!' line\no",
        ),
    ];
    for (error, text) in said {
        assert_eq!(error.message(), text);
    }
}

#[test]
fn names_the_ports_and_binaries_of_the_suite() {
    let suite = LibVortex::at("/opt/suite");
    assert_eq!(suite.port_offset(), 1000);
    assert_eq!(suite.listener_port(), 45_010);
    assert_eq!(suite.websocket_port(), 45_013);
    assert_eq!(suite.sharing_port(), 45_015);
    assert_eq!(suite.test_dir(), "/opt/suite");
    assert_eq!(
        suite.listener_binary(),
        "/opt/suite/vortex-regression-listener"
    );
    assert_eq!(
        LibVortex::at("dir/").client_binary(),
        "dir/vortex-regression-client"
    );
    assert_eq!(LibVortex::at("").client_binary(), "vortex-regression-client");
    assert_eq!(suite.with_port_offset(7).listener_port(), 44_017);
}

#[test]
fn takes_its_settings_where_they_make_sense() {
    assert!(LibVortex::from_settings(None, Some("5")).is_none());
    let offset = |setting| {
        LibVortex::from_settings(Some("d"), setting)
            .expect("a directory")
            .port_offset()
    };
    assert_eq!(offset(None), 1000);
    assert_eq!(offset(Some("5")), 5);
    assert_eq!(offset(Some("+65535")), 65_535);
    assert_eq!(offset(Some("65536")), 1000);
    assert_eq!(offset(Some(" 5")), 1000);
    assert_eq!(offset(Some("")), 1000);
}

#[test]
fn passes_arguments_in_the_order_the_suite_matches_them() {
    let suite = LibVortex::at("d").with_port_offset(30);
    assert_eq!(
        suite.client_arguments(&[]),
        ["--offset-port=30", "--disable-time-checks"]
    );
    assert_eq!(
        suite.client_arguments(&["test_01", "test_02"]),
        [
            "--offset-port=30",
            "--disable-time-checks",
            "--run-test=test_01,test_02"
        ]
    );
}

#[test]
fn says_why_a_binary_cannot_be_started() {
    let suite = LibVortex::at("/s");
    assert_eq!(suite.check_listener(true, true), Ok(()));
    assert_eq!(
        suite.check_listener(false, false),
        Err(StartFault::NotFound(
            "/s/vortex-regression-listener not found; build LibVortex first".to_owned()
        ))
    );
    assert_eq!(
        suite.check_listener(true, false),
        Err(StartFault::PortTaken(
            "port 45010 is already taken; a stray vortex-regression-listener would silently \
             answer for the one started here. Set VORTICE_LIBVORTEX_PORT_OFFSET to move this run \
             out of the way"
                .to_owned()
        ))
    );
    assert_eq!(suite.check_client(true), Ok(()));
    assert_eq!(
        suite.check_client(false),
        Err(StartFault::NotFound(
            "/s/vortex-regression-client not found; build LibVortex first".to_owned()
        ))
    );
}

#[test]
fn waits_for_a_listener_until_something_is_decided() {
    assert_eq!(readiness(true, true, true), Readiness::Died);
    assert_eq!(readiness(false, true, true), Readiness::Ready);
    assert_eq!(readiness(false, false, true), Readiness::TimedOut);
    assert_eq!(readiness(false, false, false), Readiness::Waiting);
}

#[test]
fn a_lock_is_broken_only_when_nobody_can_be_holding_it() {
    assert_eq!(claim(Attempt::Made, None), Claim::Go);
    assert_eq!(claim(Attempt::Failed, Some((10_000, 0))), Claim::Go);
    assert_eq!(claim(Attempt::Taken, None), Claim::Wait);
    assert_eq!(claim(Attempt::Taken, Some((900, 0))), Claim::Wait);
    assert_eq!(claim(Attempt::Taken, Some((900, 1))), Claim::BreakAndWait);
    assert!(is_stale(Some((901, 0))));
    assert!(!is_stale(Some((899, 999_999_999))));
}

#[test]
fn a_suite_is_built_when_both_binaries_are_there() {
    let suite = LibVortex::at("d");
    assert!(suite.is_built(true, true));
    assert!(!suite.is_built(true, false));
    assert!(!suite.is_built(false, true));
}

/// A binary that is not there is reported before the port is looked at.
#[test]
fn a_missing_listener_is_reported_whatever_the_offset() {
    let suite = LibVortex::at("d").with_port_offset(65_535);
    assert_eq!(
        suite.check_listener(false, false),
        Err(StartFault::NotFound(
            "d/vortex-regression-listener not found; build LibVortex first".to_owned()
        ))
    );
}
