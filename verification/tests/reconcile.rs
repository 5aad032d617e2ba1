use crontab_manager::job::CronJob;
use crontab_manager::reconcile::{job_fits, reconcile, wrap_command};
use crontab_manager::schedule_text::{parse, render, Block, Line};

fn job(id: &str, name: Option<&str>, schedule: &str, command: &str, is_active: bool) -> CronJob {
    CronJob {
        id: id.to_string(),
        name: name.map(|n| n.to_string()),
        schedule: schedule.to_string(),
        command: command.to_string(),
        is_active,
    }
}

#[test]
fn deleting_a_job_removes_its_block_only() {
    let text = "0 * * * * /bin/true\n\n# JOB_ID:abc\n# NAME:\n0 9 * * * echo hi > '/log' 2>&1\n";
    let gone = job("abc", None, "0 9 * * *", "echo hi", false);
    assert_eq!(reconcile(text, &gone, "/log"), "0 * * * * /bin/true\n");
}

#[test]
fn reconciling_twice_is_reconciling_once() {
    let text = "0 * * * * /bin/true\n\n# JOB_ID:abc\n# NAME:\n0 9 * * * echo hi > '/log' 2>&1\n\n# JOB_ID:abc\n# NAME:again\n@daily echo again > '/log' 2>&1\n";
    let gone = job("abc", None, "0 9 * * *", "echo hi", false);
    let once = reconcile(text, &gone, "/log");
    assert_eq!(once, "0 * * * * /bin/true\n");
    assert_eq!(reconcile(&once, &gone, "/log"), once);
}

#[test]
fn a_marker_before_a_block_of_the_same_job_leaves_with_it() {
    let text = "# JOB_ID:abc\n# JOB_ID:abc\n# NAME:n\n0 9 * * * echo hi\n\n0 0 * * * /bin/true now\n";
    let gone = job("abc", None, "0 9 * * *", "echo hi", false);
    let once = reconcile(text, &gone, "/log");
    assert_eq!(once, "0 0 * * * /bin/true now\n");
    assert_eq!(reconcile(&once, &gone, "/log"), once);
}

#[test]
fn comment_lines_behind_the_entry_leave_with_the_block() {
    let text = "# JOB_ID:abc\n# NAME:n\n0 9 * * * echo hi\n# a note\n";
    let gone = job("abc", None, "0 9 * * *", "echo hi", false);
    assert_eq!(reconcile(text, &gone, "/log"), "");
    let text = "X=1\n\n# JOB_ID:abc\n# a note\n# NAME:n\n0 9 * * * echo hi\n# more\n#\n\nY=2\n";
    let once = reconcile(text, &gone, "/log");
    assert_eq!(once, "X=1\n\nY=2\n");
    assert_eq!(reconcile(&once, &gone, "/log"), once);
}

#[test]
fn reconciling_twice_is_reconciling_once_on_odd_texts() {
    let gone = job("a", None, "0 9 * * *", "echo hi", false);
    for text in [
        "",
        "# JOB_ID:a",
        "# JOB_ID:a\n",
        "# JOB_ID:a\n\n0 1 * * * x y\n",
        "# JOB_ID:a\n0 1 * * * x\n# JOB_ID:a\n0 2 * * * y\n\n# c\n",
        "0 0 * * * pre cmd\n# JOB_ID:a\n0 1 * * * x\n\n# JOB_ID:a\n0 2 * * * y\n0 3 * * * z\n",
        "0 0 * * * pre cmd\n# JOB_ID:a\n0 1 * * * x\n\n# JOB_ID:a\n0 2 * * * y\n",
        "# JOB_ID:b\n# JOB_ID:a\n0 1 * * * x\n\n# JOB_ID:a\n# JOB_ID:b\n0 1 * * * x\n",
        "# JOB_ID:a\n0 1 * * * x",
        "\n\n# JOB_ID:a\n0 1 * * * x\n\n\n# JOB_ID:a\n0 1 * * * x\n \n",
    ] {
        let once = reconcile(text, &gone, "/log");
        assert_eq!(reconcile(&once, &gone, "/log"), once, "{:?}", text);
        let blocks_left = parse(&once)
            .iter()
            .filter(|item| matches!(item, Line::Block(b) if b.job_id().as_deref() == Some("a")))
            .count();
        assert_eq!(blocks_left, 0, "{:?}", text);
    }
}

#[test]
fn a_paragraph_with_two_entries_behind_its_marker_is_foreign() {
    let text = "# JOB_ID:a\n0 1 * * * x\n# JOB_ID:a\n0 2 * * * y\n";
    let gone = job("a", None, "0 9 * * *", "echo hi", false);
    assert_eq!(reconcile(text, &gone, "/log"), text);
}

#[test]
fn the_marker_that_a_block_starts_with_names_the_job() {
    let text = "# JOB_ID:a\n# JOB_ID:b\n0 1 * * * x\n";
    assert_eq!(reconcile(text, &job("a", None, "@daily", "x", false), "/l"), "");
    assert_eq!(reconcile(text, &job("b", None, "@daily", "x", false), "/l"), text);
}

#[test]
fn other_blocks_and_foreign_lines_stay_byte_identical() {
    let b_block = "# JOB_ID:b\n# NAME:  Job B \n*/5  *\t* * * run-b   --flag > '/home/u/.crontab/b.log' 2>&1\n";
    let text = format!(
        "MAILTO=me\n# a comment\n\n{}\n# JOB_ID:a\n# NAME:old\n0 1 * * * old > '/l' 2>&1\n\n  \n5 4 * * * /usr/bin/foreign\n",
        b_block
    );
    let a = job("a", Some("new"), "0 2 * * *", "fresh", true);
    let out = reconcile(&text, &a, "/logs/a.log");
    let expected = format!(
        "MAILTO=me\n# a comment\n\n{}\n  \n5 4 * * * /usr/bin/foreign\n\n# JOB_ID:a\n# NAME:new\n0 2 * * * fresh > '/logs/a.log' 2>&1\n",
        b_block
    );
    assert_eq!(out, expected);
    assert!(out.contains(b_block));
}

#[test]
fn an_active_job_gets_one_block_at_the_end() {
    let a = job("a", None, "@daily", "backup", true);
    assert_eq!(
        reconcile("", &a, "/l"),
        "\n# JOB_ID:a\n# NAME:\n@daily backup > '/l' 2>&1\n"
    );
    assert_eq!(
        reconcile("X=1", &a, "/l"),
        "X=1\n\n# JOB_ID:a\n# NAME:\n@daily backup > '/l' 2>&1\n"
    );
    let once = reconcile("X=1\n", &a, "/l");
    assert_eq!(once, "X=1\n\n# JOB_ID:a\n# NAME:\n@daily backup > '/l' 2>&1\n");
    assert_eq!(reconcile(&once, &a, "/l"), once);
    let b = job("b", Some("B"), "0 9 * * 1-5", "work", true);
    let both = reconcile(&once, &b, "/m");
    assert_eq!(
        both,
        "X=1\n\n# JOB_ID:a\n# NAME:\n@daily backup > '/l' 2>&1\n\n# JOB_ID:b\n# NAME:B\n0 9 * * 1-5 work > '/m' 2>&1\n"
    );
    // Touching the first job again moves its block to the end.
    assert_eq!(
        reconcile(&both, &a, "/l"),
        "X=1\n\n# JOB_ID:b\n# NAME:B\n0 9 * * 1-5 work > '/m' 2>&1\n\n# JOB_ID:a\n# NAME:\n@daily backup > '/l' 2>&1\n"
    );
}

#[test]
fn a_block_without_a_final_line_feed_is_kept_apart() {
    let text = "# JOB_ID:b\n0 9 * * * work";
    let a = job("a", None, "@hourly", "tick", true);
    let out = reconcile(text, &a, "/l");
    assert_eq!(
        out,
        "# JOB_ID:b\n0 9 * * * work\n\n# JOB_ID:a\n# NAME:\n@hourly tick > '/l' 2>&1\n"
    );
    let items = parse(&out);
    assert_eq!(items.len(), 2);
    assert!(matches!(&items[0], Line::Block(b)
        if b.job_id().as_deref() == Some("b") && b.name().is_none() && b.gap.is_some()));
    assert!(matches!(&items[1], Line::Block(b)
        if b.job_id().as_deref() == Some("a") && b.name().as_deref() == Some("")));
}

#[test]
fn the_id_must_match_exactly() {
    let text = "# JOB_ID:abcd\n# NAME:\n0 9 * * * echo hi > '/log' 2>&1\n";
    let gone = job("abc", None, "0 9 * * *", "echo hi", false);
    assert_eq!(reconcile(text, &gone, "/log"), text);
}

#[test]
fn wrapping_sends_output_to_the_log() {
    assert_eq!(wrap_command("echo hi", "/log"), "echo hi > '/log' 2>&1");
}

#[test]
fn parse_and_render_round_trip() {
    for text in [
        "",
        "\n",
        "a",
        "a\n",
        "a\n\nb",
        "\n\n\n",
        "# JOB_ID:x\n# NAME:n\n0 9 * * * cmd\n",
        "# JOB_ID:x\n# NAME:n\n0 9 * * * cmd",
        "# JOB_ID:x\n0 9 * * * cmd\n \t \nrest",
        "# JOB_ID:x\n# NAME:n\n\n0 9 * * * cmd\n",
        "# JOB_ID:x\n# NAME:n\n0 9 * * * cmd\nnot blank\n",
        "# JOB_ID:x\n# NAME:n\n0 9 * * *\tcmd\n",
        "# JOB_ID:x\n# NAME:n\n  0   9 * * *  cmd  \r\n",
        "# JOB_ID:\n# NAME:\n@reboot x\n",
        "line with \u{a0} and \u{3000}\n\u{2003}\n",
    ] {
        assert_eq!(render(&parse(text)), text, "{:?}", text);
    }
}

#[test]
fn blocks_are_recognised() {
    let items = parse("MAILTO=x\n\n# JOB_ID:abc\n# NAME:My job\n0  9 * * 1-5 echo  hi > '/log' 2>&1\n\n@daily other\n");
    assert_eq!(
        items,
        vec![
            Line::Foreign("MAILTO=x".to_string()),
            Line::Foreign("".to_string()),
            Line::Block(Block {
                head: vec!["# JOB_ID:abc".to_string(), "# NAME:My job".to_string()],
                schedule_field_text: "0  9 * * 1-5".to_string(),
                wrapped_command: "echo  hi > '/log' 2>&1".to_string(),
                tail: vec![],
                gap: Some("".to_string()),
            }),
            Line::Foreign("@daily other".to_string()),
            Line::Foreign("".to_string()),
        ]
    );
}

#[test]
fn shorthand_entries_take_one_word() {
    let items = parse("# JOB_ID:d\n@daily  run me");
    assert_eq!(
        items,
        vec![Line::Block(Block {
            head: vec!["# JOB_ID:d".to_string()],
            schedule_field_text: "@daily".to_string(),
            wrapped_command: " run me".to_string(),
            tail: vec![],
            gap: None,
        })]
    );
    assert_eq!(job_id_of(&items[0]), Some("d".to_string()));
}

fn job_id_of(item: &Line) -> Option<String> {
    match item {
        Line::Block(b) => b.job_id(),
        Line::Foreign(_) => None,
    }
}

#[test]
fn a_block_runs_to_the_end_of_its_paragraph() {
    let items = parse("pre\n# JOB_ID:a\n# c1\n# NAME: one \n# NAME:two\n# JOB_ID:b\n# c2\n@daily run\n# t1\n# JOB_ID:c\n \t\nnext");
    assert_eq!(
        items,
        vec![
            Line::Foreign("pre".to_string()),
            Line::Block(Block {
                head: vec![
                    "# JOB_ID:a".to_string(),
                    "# c1".to_string(),
                    "# NAME: one ".to_string(),
                    "# NAME:two".to_string(),
                    "# JOB_ID:b".to_string(),
                    "# c2".to_string(),
                ],
                schedule_field_text: "@daily".to_string(),
                wrapped_command: "run".to_string(),
                tail: vec!["# t1".to_string(), "# JOB_ID:c".to_string()],
                gap: Some(" \t".to_string()),
            }),
            Line::Foreign("next".to_string()),
        ]
    );
    match &items[1] {
        Line::Block(b) => {
            assert_eq!(b.job_id(), Some("a".to_string()));
            assert_eq!(b.name(), Some("two".to_string()));
        }
        Line::Foreign(_) => panic!("a block was expected"),
    }
}

#[test]
fn malformed_blocks_are_foreign() {
    for text in [
        // no entry
        "# JOB_ID:x\n# NAME:n",
        // a blank line before the entry
        "# JOB_ID:x\n\n0 9 * * * cmd",
        // the entry is a comment
        "# JOB_ID:x\n# NAME:n\n# 0 9 * * * cmd",
        // too few words
        "# JOB_ID:x\n0 9 * * *",
        "# JOB_ID:x\n0 9 * * * ",
        // a second line behind the entry
        "# JOB_ID:x\n0 9 * * * cmd\n0 10 * * * other",
        // not the exact marker
        "#JOB_ID:x\n0 9 * * * cmd",
        " # JOB_ID:x\n0 9 * * * cmd",
        // a tab between recurrence and command
        "# JOB_ID:x\n0 9 * * *\tcmd",
    ] {
        let items = parse(text);
        let lines: Vec<&str> = text.split('\n').collect();
        assert_eq!(items.len(), lines.len(), "{:?}", text);
        for (item, line) in items.iter().zip(lines) {
            assert_eq!(item, &Line::Foreign(line.to_string()), "{:?}", text);
        }
    }
}

#[test]
fn a_job_that_fits_reads_back() {
    let a = job("a", Some("My job"), "0 9 * * 1-5", "echo hi", true);
    let text = "X=1\n# JOB_ID:b\n0 1 * * * other\n\n# JOB_ID:a\n@daily old\n";
    let out = reconcile(text, &a, "/home/u/.crontab/a.log");
    let items = parse(&out);
    assert_eq!(
        items.last(),
        Some(&Line::Block(Block {
            head: vec!["# JOB_ID:a".to_string(), "# NAME:My job".to_string()],
            schedule_field_text: "0 9 * * 1-5".to_string(),
            wrapped_command: "echo hi > '/home/u/.crontab/a.log' 2>&1".to_string(),
            tail: vec![],
            gap: Some("".to_string()),
        }))
    );
    let of_a = items
        .iter()
        .filter(|item| matches!(item, Line::Block(b) if b.job_id().as_deref() == Some("a")))
        .count();
    assert_eq!(of_a, 1);
}

#[test]
fn jobs_that_fit_a_block() {
    assert!(job_fits(&job("a", Some("n"), "0 9 * * 1-5", "echo hi", true), "/l"));
    assert!(job_fits(&job("a", None, "@daily", "echo hi", true), "/l"));
    assert!(job_fits(&job("a", None, "*/5 * * * *", "", true), "/l"));
    assert!(job_fits(&job("a", None, "a\tb  c d e", "x", false), "/l"));
    assert!(job_fits(&job("a", None, " 0 9 * * *", "echo hi", true), "/l"));
    // too few or too many words, or something behind them
    assert!(!job_fits(&job("a", None, "0 9 * *", "echo hi", true), "/l"));
    assert!(!job_fits(&job("a", None, "0 9 * * * *", "echo hi", true), "/l"));
    assert!(!job_fits(&job("a", None, "@daily now", "echo hi", true), "/l"));
    assert!(!job_fits(&job("a", None, "0 9 * * * ", "echo hi", true), "/l"));
    assert!(!job_fits(&job("a", None, "", "echo hi", true), "/l"));
    assert!(!job_fits(&job("a", None, "# 1 2 3 4", "echo hi", true), "/l"));
    // a line feed in a field
    assert!(!job_fits(&job("a\n", None, "@daily", "echo hi", true), "/l"));
    assert!(!job_fits(&job("a", Some("x\ny"), "@daily", "echo hi", true), "/l"));
    assert!(!job_fits(&job("a", None, "@daily", "echo\nhi", true), "/l"));
    assert!(!job_fits(&job("a", None, "0 9 *\n* *", "echo hi", true), "/l"));
    assert!(!job_fits(&job("a", None, "@daily", "echo hi", true), "/l\n"));
}

#[test]
fn a_job_that_fits_reads_back_behind_any_text() {
    let a = job("a", Some("n"), "0 9 * * 1-5", "echo hi", true);
    for text in [
        "",
        "X=1",
        "# JOB_ID:a",
        "# JOB_ID:a\n0 1 * * * x y",
        "# JOB_ID:b\n0 1 * * * x y",
        "# JOB_ID:a\n0 1 * * * x\n# JOB_ID:a\n0 2 * * * y\n",
        "pre\n# JOB_ID:a\n0 1 * * * x\n# note\n  \n# JOB_ID:c\n",
    ] {
        let out = reconcile(text, &a, "/l");
        let items = parse(&out);
        match items.last() {
            Some(Line::Block(b)) => {
                assert_eq!(b.job_id(), Some("a".to_string()), "{:?}", text);
                assert_eq!(b.name(), Some("n".to_string()));
                assert_eq!(b.schedule_field_text, "0 9 * * 1-5");
                assert_eq!(b.wrapped_command, "echo hi > '/l' 2>&1");
            }
            _ => panic!("no block at the end of {:?}", out),
        }
        let of_a = items
            .iter()
            .filter(|item| matches!(item, Line::Block(b) if b.job_id().as_deref() == Some("a")))
            .count();
        assert_eq!(of_a, 1, "{:?}", text);
        assert_eq!(reconcile(&out, &a, "/l"), out, "{:?}", text);
    }
}
