use crontab_manager::error::Error;
use crontab_manager::job::CronJob;
use crontab_manager::sync::{next_action, start_push, SyncAction, SyncEvent, SyncStage};

fn job(is_active: bool) -> CronJob {
    CronJob {
        id: "abc".to_string(),
        name: None,
        schedule: "0 9 * * *".to_string(),
        command: "echo hi".to_string(),
        is_active,
    }
}

fn unexpected() -> SyncAction {
    SyncAction::Fail(Error::SyncError("unexpected outcome".to_string()))
}

#[test]
fn a_push_without_a_prompt() {
    let j = job(true);
    let mut action = start_push();
    assert_eq!(action, SyncAction::Read);
    let mut seen = vec![];
    let events = vec![
        SyncEvent::Text("X=1\n".to_string()),
        SyncEvent::Done,
        SyncEvent::Allowed(true),
        SyncEvent::Done,
    ];
    for event in events {
        let stage = action.stage().unwrap();
        action = next_action(stage, event, &j, "/log");
        seen.push(action.clone());
    }
    assert_eq!(
        seen,
        vec![
            SyncAction::Write(
                "X=1\n\n# JOB_ID:abc\n# NAME:\n0 9 * * * echo hi > '/log' 2>&1\n".to_string()
            ),
            SyncAction::Probe,
            SyncAction::Reload,
            SyncAction::Finish,
        ]
    );
    assert_eq!(action.stage(), None);
}

#[test]
fn a_push_that_asks_for_the_privilege() {
    let j = job(false);
    assert_eq!(
        next_action(SyncStage::Probing, SyncEvent::Allowed(false), &j, "/log"),
        SyncAction::Prompt
    );
    assert_eq!(SyncAction::Prompt.stage(), Some(SyncStage::Prompting));
    assert_eq!(
        next_action(SyncStage::Prompting, SyncEvent::Done, &j, "/log"),
        SyncAction::Reload
    );
    assert_eq!(SyncAction::Reload.stage(), Some(SyncStage::Reloading));
    assert_eq!(
        next_action(SyncStage::Reloading, SyncEvent::Done, &j, "/log"),
        SyncAction::Finish
    );
}

#[test]
fn a_failed_step_fails_the_push() {
    let j = job(true);
    for stage in [
        SyncStage::Reading,
        SyncStage::Writing,
        SyncStage::Probing,
        SyncStage::Prompting,
        SyncStage::Reloading,
    ] {
        let action = next_action(stage, SyncEvent::Failed("no".to_string()), &j, "/log");
        assert_eq!(action, SyncAction::Fail(Error::SyncError("no".to_string())));
        assert_eq!(action.stage(), None);
    }
}

#[test]
fn an_outcome_that_does_not_fit_fails_the_push() {
    let j = job(true);
    assert_eq!(next_action(SyncStage::Reading, SyncEvent::Done, &j, "/l"), unexpected());
    assert_eq!(
        next_action(SyncStage::Writing, SyncEvent::Text("".to_string()), &j, "/l"),
        unexpected()
    );
    assert_eq!(next_action(SyncStage::Probing, SyncEvent::Done, &j, "/l"), unexpected());
    assert_eq!(
        next_action(SyncStage::Prompting, SyncEvent::Allowed(true), &j, "/l"),
        unexpected()
    );
    assert_eq!(
        next_action(SyncStage::Reloading, SyncEvent::Allowed(false), &j, "/l"),
        unexpected()
    );
}

#[test]
fn pushing_an_inactive_job_removes_its_block() {
    let text = "0 * * * * /bin/true\n\n# JOB_ID:abc\n# NAME:\n0 9 * * * echo hi > '/log' 2>&1\n";
    assert_eq!(
        next_action(
            SyncStage::Reading,
            SyncEvent::Text(text.to_string()),
            &job(false),
            "/log"
        ),
        SyncAction::Write("0 * * * * /bin/true\n".to_string())
    );
}
