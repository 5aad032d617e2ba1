use crontab_manager::error::Error;
use crontab_manager::python::{join_path, PythonEnv, Ran, SetupCommand, SetupStep};
use crontab_manager::logs::{has_log_extension, job_log_path, log_directory, newest_first};
use crontab_manager::runner::{
    install_failure, judge_rerun, judge_run, missing_module, run_environment, Verdict,
};

#[test]
fn the_environment_lives_below_home() {
    let env = PythonEnv::new("/home/u").unwrap();
    assert_eq!(env.get_venv_path(), "/home/u/.venv");
    assert_eq!(PythonEnv::new("/home/u/").unwrap().get_venv_path(), "/home/u/.venv");
    assert_eq!(PythonEnv::new("").unwrap().get_venv_path(), ".venv");
    assert_eq!(PythonEnv::new("/").unwrap().get_venv_path(), "/.venv");
}

#[test]
fn joining_paths() {
    assert_eq!(join_path("a", "b"), "a/b");
    assert_eq!(join_path("a/", "b"), "a/b");
    assert_eq!(join_path("", "b"), "b");
    assert_eq!(join_path("/x/y", ""), "/x/y/");
}

fn words(words: &[&str]) -> Vec<String> {
    words.iter().map(|w| w.to_string()).collect()
}

#[test]
fn setting_up_the_environment() {
    let env = PythonEnv::new("/home/u").unwrap();
    assert_eq!(env.initialize(true), vec![]);
    assert_eq!(
        env.initialize(false),
        vec![
            SetupCommand {
                step: SetupStep::Create,
                words: words(&["python3", "-m", "venv", "/home/u/.venv"]),
            },
            SetupCommand {
                step: SetupStep::Upgrade,
                words: words(&["pip3", "install", "--upgrade", "pip"]),
            },
        ]
    );
    assert_eq!(env.install_package("requests"), vec!["pip3", "install", "requests"]);
}

#[test]
fn what_a_pip_command_amounts_to() {
    assert_eq!(
        PythonEnv::pip_outcome(&Ran::Finished(true, "ignored".to_string())),
        Ok(())
    );
    assert_eq!(
        PythonEnv::pip_outcome(&Ran::Finished(false, "no network".to_string())),
        Err(Error::PythonError("pip 命令执行失败: no network".to_string()))
    );
    assert_eq!(
        PythonEnv::pip_outcome(&Ran::NotStarted("not found".to_string())),
        Err(Error::PythonError("执行 pip 命令失败: not found".to_string()))
    );
}

#[test]
fn what_a_set_up_command_amounts_to() {
    let failed = Ran::Finished(false, "boom".to_string());
    let missing = Ran::NotStarted("not found".to_string());
    let fine = Ran::Finished(true, String::new());
    // Creating the environment fails only where the command cannot start.
    assert_eq!(PythonEnv::setup_outcome(SetupStep::Create, &fine), Ok(()));
    assert_eq!(PythonEnv::setup_outcome(SetupStep::Create, &failed), Ok(()));
    assert_eq!(
        PythonEnv::setup_outcome(SetupStep::Create, &missing),
        Err(Error::PythonError("创建虚拟环境失败: not found".to_string()))
    );
    assert_eq!(PythonEnv::setup_outcome(SetupStep::Upgrade, &fine), Ok(()));
    assert_eq!(
        PythonEnv::setup_outcome(SetupStep::Upgrade, &failed),
        Err(Error::PythonError(
            "升级 pip 失败: Python error: pip 命令执行失败: boom".to_string()
        ))
    );
    assert_eq!(
        PythonEnv::setup_outcome(SetupStep::Upgrade, &missing),
        Err(Error::PythonError(
            "升级 pip 失败: Python error: 执行 pip 命令失败: not found".to_string()
        ))
    );
}

#[test]
fn the_variables_of_a_trial() {
    assert_eq!(
        run_environment("/home/u", "/usr/bin:/bin", "/home/u/.venv"),
        vec![
            ("HOME".to_string(), "/home/u".to_string()),
            ("PATH".to_string(), "/usr/bin:/bin:/home/u/.venv/bin".to_string()),
            ("VIRTUAL_ENV".to_string(), "/home/u/.venv".to_string()),
        ]
    );
}

#[test]
fn the_missing_module_is_the_quoted_one() {
    let errors = "Traceback (most recent call last):\n  File \"x.py\", line 1, in <module>\n    import requests\nModuleNotFoundError: No module named 'requests'\n";
    assert_eq!(missing_module(errors), Some("requests".to_string()));
    assert_eq!(missing_module("No module named 'requests'"), None);
    assert_eq!(missing_module("ModuleNotFoundError: something else"), None);
    assert_eq!(
        missing_module("ModuleNotFoundError\nNo module named requests"),
        None
    );
    assert_eq!(
        missing_module("ModuleNotFoundError\nNo module named 'a\nNo module named 'b'"),
        Some("a".to_string())
    );
    assert_eq!(
        missing_module("x 'early' No module named 'late' ModuleNotFoundError"),
        Some("early".to_string())
    );
}

#[test]
fn judging_the_first_run() {
    assert_eq!(
        judge_run(true, "out", "warnings"),
        Verdict::Passed("out".to_string())
    );
    assert_eq!(
        judge_run(true, "", ""),
        Verdict::Passed("命令执行成功，无输出".to_string())
    );
    assert_eq!(
        judge_run(true, "", "ModuleNotFoundError: No module named 'yaml'"),
        Verdict::Passed("命令执行成功，无输出".to_string())
    );
    assert_eq!(
        judge_run(false, "out", "sh: 1: nope: not found"),
        Verdict::Failed(Error::SyncError("sh: 1: nope: not found".to_string()))
    );
    assert_eq!(
        judge_run(false, "", ""),
        Verdict::Failed(Error::SyncError("".to_string()))
    );
    assert_eq!(
        judge_run(false, "", "ModuleNotFoundError: No module named 'yaml'"),
        Verdict::Install("yaml".to_string())
    );
    assert_eq!(
        judge_run(false, "", "ModuleNotFoundError: ?"),
        Verdict::Failed(Error::SyncError(
            "Python 模块缺失，请先安装所需模块：\n\npip3 install 所需模块\n\n原始错误：\nModuleNotFoundError: ?"
                .to_string()
        ))
    );
}

#[test]
fn judging_the_second_run() {
    assert_eq!(
        judge_rerun("yaml", true, "done", ""),
        Ok("已自动安装模块 yaml，执行结果：\ndone".to_string())
    );
    assert_eq!(
        judge_rerun("yaml", true, "", ""),
        Ok("已自动安装模块 yaml，执行结果：\n命令执行成功，无输出".to_string())
    );
    assert_eq!(
        judge_rerun("yaml", false, "", "boom"),
        Err(Error::SyncError(
            "模块已安装但执行仍然失败：\nboom".to_string()
        ))
    );
    assert_eq!(
        install_failure(
            "yaml",
            &Error::PythonError("pip 命令执行失败: x".to_string())
        ),
        Error::SyncError(
            "尝试安装模块 yaml 失败：\nPython error: pip 命令执行失败: x".to_string()
        )
    );
}

#[test]
fn where_the_logs_go() {
    assert_eq!(log_directory("/home/u"), "/home/u/.crontab");
    assert_eq!(job_log_path("/home/u", "abc"), "/home/u/.crontab/abc.log");
    assert_eq!(job_log_path("", "abc"), ".crontab/abc.log");
}

#[test]
fn which_files_are_logs() {
    assert!(has_log_extension("a.log"));
    assert!(has_log_extension("2024-01-01.run.log"));
    assert!(has_log_extension("..log"));
    assert!(!has_log_extension(".log"));
    assert!(!has_log_extension("log"));
    assert!(!has_log_extension("a.log.gz"));
    assert!(!has_log_extension("a.LOG"));
    assert!(!has_log_extension(""));
}

#[test]
fn logs_are_shown_last_first() {
    let logs: Vec<String> = ["b", "a", "", "c", "ab", "b", "\u{e9}", "B"]
        .iter()
        .map(|s| s.to_string())
        .collect();
    let mut expected = logs.clone();
    expected.sort_by(|a, b| b.cmp(a));
    assert_eq!(newest_first(&logs), expected);
    assert_eq!(
        newest_first(&logs),
        vec!["\u{e9}", "c", "b", "b", "ab", "a", "B", ""]
    );
    assert_eq!(newest_first(&vec![]), Vec::<String>::new());
}
