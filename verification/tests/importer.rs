use crontab_manager::importer::{import, unwrap_command};
use crontab_manager::error::Error;
use crontab_manager::job::{find_job, locate_job, CronJob};

fn stored(id: &str, name: Option<&str>, schedule: &str, command: &str, is_active: bool) -> CronJob {
    CronJob {
        id: id.to_string(),
        name: name.map(|n| n.to_string()),
        schedule: schedule.to_string(),
        command: command.to_string(),
        is_active,
    }
}

#[test]
fn startup_import_follows_the_external_text() {
    let jobs = vec![
        stored("X", Some("x job"), "0 1 * * *", "old-x", true),
        stored("Y", Some("y job"), "0 2 * * *", "run-y", true),
    ];
    let text = "MAILTO=me\n\n# JOB_ID:X\n# NAME:x job\n30 6 * * 1 new-x --fast > '/home/u/.crontab/X.log' 2>&1\n";
    let out = import(text, &jobs);
    assert_eq!(
        out,
        vec![
            stored("X", Some("x job"), "30 6 * * 1", "new-x --fast", true),
            stored("Y", Some("y job"), "0 2 * * *", "run-y", false),
        ]
    );
}

#[test]
fn unknown_blocks_become_new_active_jobs() {
    let jobs = vec![stored("Y", None, "0 2 * * *", "run-y", false)];
    let text = "# JOB_ID:new\n@daily   tidy   up > '/l' 2>&1\n\n# JOB_ID:Y\n# NAME:  named \n0  3 * * * run-y  again > '/l' 2>&1\n";
    let out = import(text, &jobs);
    assert_eq!(
        out,
        vec![
            stored("Y", Some("named"), "0 3 * * *", "run-y again", true),
            stored("new", None, "@daily", "tidy up", true),
        ]
    );
}

#[test]
fn without_blocks_every_job_is_inactive() {
    let jobs = vec![
        stored("a", None, "@daily", "one", true),
        stored("b", Some("B"), "@hourly", "two", false),
    ];
    let out = import("0 * * * * /bin/true\n", &jobs);
    assert_eq!(
        out,
        vec![
            stored("a", None, "@daily", "one", false),
            stored("b", Some("B"), "@hourly", "two", false),
        ]
    );
    assert_eq!(import("", &vec![]), vec![]);
}

#[test]
fn the_last_block_of_an_id_wins() {
    let text = "# JOB_ID:a\n0 1 * * * first > '/l' 2>&1\n\n# JOB_ID:a\n# NAME:\n0 2 * * * second > '/l' 2>&1\n";
    let out = import(text, &vec![]);
    assert_eq!(out, vec![stored("a", Some(""), "0 2 * * *", "second", true)]);
}

#[test]
fn unwrapping_cuts_at_the_first_redirect() {
    assert_eq!(unwrap_command("echo hi > '/log' 2>&1"), "echo hi");
    assert_eq!(unwrap_command("  a   b\tc  "), "a b c");
    assert_eq!(unwrap_command("> x"), "");
    assert_eq!(unwrap_command("sort < in > out"), "sort < in");
}

#[test]
fn find_job_gives_the_first_match() {
    let jobs = vec![
        stored("a", None, "@daily", "one", true),
        stored("b", None, "@daily", "two", true),
        stored("a", None, "@daily", "three", true),
    ];
    assert_eq!(find_job(&jobs, "a"), Some(0));
    assert_eq!(find_job(&jobs, "b"), Some(1));
    assert_eq!(find_job(&jobs, "c"), None);
    assert_eq!(find_job(&vec![], "a"), None);
    assert_eq!(locate_job(&jobs, "b"), Ok(1));
    assert_eq!(locate_job(&jobs, "c"), Err(Error::JobNotFound));
}

#[test]
fn a_block_with_comments_around_its_entry_is_imported() {
    let jobs = vec![stored("a", None, "@daily", "old", false)];
    let text = "# JOB_ID:a\n# NAME:n\n0 9 * * * echo hi > '/l' 2>&1\n# a note\n";
    assert_eq!(
        import(text, &jobs),
        vec![stored("a", Some("n"), "0 9 * * *", "echo hi", true)]
    );
    let text = "# JOB_ID:b\n# kept by hand\n# NAME:n\n@hourly tick > '/l' 2>&1\n# a note\n\n";
    assert_eq!(
        import(text, &vec![]),
        vec![stored("b", Some("n"), "@hourly", "tick", true)]
    );
}

#[test]
fn a_paragraph_that_is_no_block_is_not_imported() {
    let jobs = vec![stored("a", None, "@daily", "old", true)];
    let text = "# JOB_ID:a\n0 9 * * * one\n0 10 * * * two\n";
    assert_eq!(import(text, &jobs), vec![stored("a", None, "@daily", "old", false)]);
}
