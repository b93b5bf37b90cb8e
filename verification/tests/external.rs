use lib::external::{exit_report, external_path, PATH_MAX};

#[test]
fn builds_bin_path() {
    let args = vec![b"obrowse".to_vec(), b"http://x".to_vec()];
    assert_eq!(external_path(&args), Some(b"/bin/obrowse\0".to_vec()));
}

#[test]
fn refuses_missing_empty_or_slashed_commands() {
    assert_eq!(external_path(&[]), None);
    assert_eq!(external_path(&[Vec::new()]), None);
    assert_eq!(external_path(&[b"./run".to_vec()]), None);
    assert_eq!(external_path(&[b"/bin/ls".to_vec()]), None);
}

#[test]
fn refuses_too_long_commands() {
    let fits = vec![b'a'; PATH_MAX - 6];
    let p = external_path(&[fits.clone()]).unwrap();
    assert_eq!(p.len(), PATH_MAX);
    let too_long = vec![b'a'; PATH_MAX - 5];
    assert_eq!(external_path(&[too_long]), None);
}

#[test]
fn reports_nonzero_exit() {
    assert_eq!(exit_report(b"vim", 0), None);
    assert_eq!(exit_report(b"vim", 1), Some(b"osh: vim: exited with code 1\n".to_vec()));
    assert_eq!(exit_report(b"x", 127), Some(b"osh: x: exited with code 127\n".to_vec()));
    assert_eq!(exit_report(b"x", -2), Some(b"osh: x: exited with code -2\n".to_vec()));
    assert_eq!(
        exit_report(b"x", i32::MIN),
        Some(format!("osh: x: exited with code {}\n", i32::MIN).into_bytes())
    );
    assert_eq!(
        exit_report(b"x", i32::MAX),
        Some(format!("osh: x: exited with code {}\n", i32::MAX).into_bytes())
    );
}

use lib::external::{external_step, ExternalAction, ExternalError, ExternalEvent};

#[test]
fn external_steps() {
    let cmd = b"otop";
    let a = external_step(cmd, ExternalEvent::Stat(-2));
    assert!(matches!(a, ExternalAction::NotFound));
    assert_eq!(a.result(), Some(false));
    let a = external_step(cmd, ExternalEvent::Stat(0));
    assert!(matches!(a, ExternalAction::BuildArgv));
    assert_eq!(a.result(), None);
    let a = external_step(cmd, ExternalEvent::Argv(0));
    assert!(matches!(a, ExternalAction::Error(ExternalError::ArgvTooLong)));
    assert_eq!(a.result(), Some(true));
    assert!(matches!(external_step(cmd, ExternalEvent::Argv(2)), ExternalAction::Spawn));
    assert!(matches!(
        external_step(cmd, ExternalEvent::Spawned(-12)),
        ExternalAction::Error(ExternalError::Spawn(-12))
    ));
    assert!(matches!(external_step(cmd, ExternalEvent::Spawned(42)), ExternalAction::Wait));
    assert!(matches!(
        external_step(cmd, ExternalEvent::Waited(-4, 0)),
        ExternalAction::Error(ExternalError::Wait(-4))
    ));
    match external_step(cmd, ExternalEvent::Waited(42, 0)) {
        ExternalAction::Finished(None) => {}
        _ => panic!("expected a quiet finish"),
    }
    match external_step(cmd, ExternalEvent::Waited(42, 3)) {
        ExternalAction::Finished(Some(m)) => assert_eq!(m, b"osh: otop: exited with code 3\n".to_vec()),
        _ => panic!("expected a report"),
    }
}
