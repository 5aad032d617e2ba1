//! Trying out a job's command: the environment it runs in, and what to make
//! of how it ended. A command that fails for want of a Python module is run
//! once more after the module was installed.

use crate::chars::{
    contains, from_chars, has_infix, split_chars, split_on, to_chars,
};
use crate::error::{concat, Error, ErrorView};
use crate::python::{join_path, path_join};
use vstd::prelude::*;
use vstd::string::StringExecFns;

verus! {

/// The variables that a command under trial runs with: the home directory,
/// the search path with the environment's `bin` directory at its end, and the
/// environment itself.
pub open spec fn run_variables(home: Seq<char>, path: Seq<char>, venv: Seq<char>) -> Seq<
    (Seq<char>, Seq<char>),
> {
    seq![
        ("HOME"@, home),
        ("PATH"@, path + ":"@ + path_join(venv, "bin"@)),
        ("VIRTUAL_ENV"@, venv),
    ]
}

/// The variables that a command under trial runs with.
pub fn run_environment(home: &str, path: &str, venv: &str) -> (r: Vec<(String, String)>)
    ensures
        r.deep_view() == run_variables(home@, path@, venv@),
{
    let mut search = concat(path, ":");
    search.append(join_path(venv, "bin").as_str());
    let mut r: Vec<(String, String)> = Vec::new();
    r.push((String::from_str("HOME"), String::from_str(home)));
    r.push((String::from_str("PATH"), search));
    r.push((String::from_str("VIRTUAL_ENV"), String::from_str(venv)));
    assert(r.deep_view() =~= run_variables(home@, path@, venv@));
    r
}

/// The first of `lines` that holds `p`.
pub open spec fn first_with(lines: Seq<Seq<char>>, p: Seq<char>) -> Option<Seq<char>>
    decreases lines.len(),
{
    if lines.len() == 0 {
        None
    } else {
        match first_with(lines.drop_last(), p) {
            Some(line) => Some(line),
            None => if has_infix(lines.last(), p) {
                Some(lines.last())
            } else {
                None
            },
        }
    }
}

/// What stands between the first two single quotes of `line`, or behind the
/// first where there is no second.
pub open spec fn quoted(line: Seq<char>) -> Option<Seq<char>> {
    let parts = split_on(line, '\'');
    if parts.len() >= 2 {
        Some(parts[1])
    } else {
        None
    }
}

/// The Python module that the error output reports as missing: the output
/// speaks of a `ModuleNotFoundError`, and the module is quoted on the first
/// line that says `No module named`.
pub open spec fn missing_module_of(errors: Seq<char>) -> Option<Seq<char>> {
    if has_infix(errors, "ModuleNotFoundError"@) {
        match first_with(split_on(errors, '\n'), "No module named"@) {
            Some(line) => quoted(line),
            None => None,
        }
    } else {
        None
    }
}

/// Once a line holds `p`, the first line that does is among the lines up to it.
proof fn lemma_first_with_found(lines: Seq<Seq<char>>, p: Seq<char>, k: int, n: int)
    requires
        0 <= k < n <= lines.len(),
        first_with(lines.take(k + 1), p) is Some,
    ensures
        first_with(lines.take(n), p) == first_with(lines.take(k + 1), p),
    decreases n,
{
    if n > k + 1 {
        lemma_first_with_found(lines, p, k, n - 1);
        assert(lines.take(n).drop_last() == lines.take(n - 1));
    }
}

/// Finds the Python module that the error output reports as missing.
pub fn missing_module(errors: &str) -> (r: Option<String>)
    ensures
        r.deep_view() == missing_module_of(errors@),
{
    let text = to_chars(errors);
    if !contains(text.as_slice(), to_chars("ModuleNotFoundError").as_slice()) {
        return None;
    }
    let lines = split_chars(text.as_slice(), '\n');
    let wanted = to_chars("No module named");
    let ghost all = lines.deep_view();
    let mut k: usize = 0;
    assert(all.take(0) =~= Seq::<Seq<char>>::empty());
    while k < lines.len()
        invariant
            k <= lines.len(),
            all == lines.deep_view(),
            all == split_on(errors@, '\n'),
            has_infix(errors@, "ModuleNotFoundError"@),
            wanted@ == "No module named"@,
            first_with(all.take(k as int), wanted@) is None,
        decreases lines.len() - k,
    {
        assert(all.take(k + 1).drop_last() == all.take(k as int));
        assert(all.take(k + 1).last() == lines@[k as int]@);
        if contains(lines[k].as_slice(), wanted.as_slice()) {
            proof {
                assert(first_with(all.take(k + 1), wanted@) == Some(lines@[k as int]@));
                lemma_first_with_found(all, wanted@, k as int, all.len() as int);
                assert(all.take(all.len() as int) == all);
            }
            let parts = split_chars(lines[k].as_slice(), '\'');
            if parts.len() >= 2 {
                assert(parts.deep_view()[1] == parts@[1]@);
                return Some(from_chars(parts[1].as_slice()));
            } else {
                return None;
            }
        }
        k += 1;
    }
    assert(all.take(lines.len() as int) == all);
    None
}

/// What to make of a command that was tried out.
#[derive(Debug, Clone, PartialEq, Eq)]
pub enum Verdict {
    /// It succeeded; this is what to show.
    Passed(String),
    /// It failed for want of this Python module: install it and run again.
    Install(String),
    /// It failed.
    Failed(Error),
}

/// A verdict as plain values.
pub enum VerdictView {
    Passed(Seq<char>),
    Install(Seq<char>),
    Failed(ErrorView),
}

impl View for Verdict {
    type V = VerdictView;

    open spec fn view(&self) -> VerdictView {
        match self {
            Verdict::Passed(t) => VerdictView::Passed(t@),
            Verdict::Install(m) => VerdictView::Install(m@),
            Verdict::Failed(e) => VerdictView::Failed(e@),
        }
    }
}

/// What is shown of a successful command: its output, or a note where it
/// wrote none.
pub open spec fn shown(output: Seq<char>) -> Seq<char> {
    if output.len() == 0 {
        "命令执行成功，无输出"@
    } else {
        output
    }
}

/// What is said where the error output speaks of a missing module: the
/// module that it names, or a placeholder, and the error output itself.
pub open spec fn missing_module_text(errors: Seq<char>) -> Seq<char> {
    "Python 模块缺失，请先安装所需模块：\n\npip3 install "@ + match missing_module_of(errors) {
        Some(module) => module,
        None => "所需模块"@,
    } + "\n\n原始错误：\n"@ + errors
}

/// The verdict on a first run that ended with the given success, output and
/// error output. A run that succeeded passes. One that failed and speaks of
/// a `ModuleNotFoundError` asks for the module that it names, and fails where
/// it names none. Any other failure is reported with the error output as it
/// is.
pub open spec fn first_verdict(succeeded: bool, output: Seq<char>, errors: Seq<char>)
    -> VerdictView {
    if succeeded {
        VerdictView::Passed(shown(output))
    } else if has_infix(errors, "ModuleNotFoundError"@) {
        match missing_module_of(errors) {
            Some(module) => VerdictView::Install(module),
            None => VerdictView::Failed(ErrorView::SyncError(missing_module_text(errors))),
        }
    } else {
        VerdictView::Failed(ErrorView::SyncError(errors))
    }
}

/// What is shown of a successful command.
fn shown_text(output: &str) -> (r: String)
    ensures
        r@ == shown(output@),
{
    if output.unicode_len() == 0 {
        String::from_str("命令执行成功，无输出")
    } else {
        String::from_str(output)
    }
}

/// Judges the first run of a command.
pub fn judge_run(succeeded: bool, output: &str, errors: &str) -> (r: Verdict)
    ensures
        r@ == first_verdict(succeeded, output@, errors@),
{
    if succeeded {
        return Verdict::Passed(shown_text(output));
    }
    let text = to_chars(errors);
    if contains(text.as_slice(), to_chars("ModuleNotFoundError").as_slice()) {
        match missing_module(errors) {
            Some(module) => Verdict::Install(module),
            None => {
                let mut m = String::from_str("Python 模块缺失，请先安装所需模块：\n\npip3 install ");
                m.append("所需模块");
                m.append("\n\n原始错误：\n");
                m.append(errors);
                Verdict::Failed(Error::SyncError(m))
            },
        }
    } else {
        Verdict::Failed(Error::SyncError(String::from_str(errors)))
    }
}

/// What is reported where the module `module` could not be installed
/// because of `cause`.
pub open spec fn install_failure_text(module: Seq<char>, cause: ErrorView) -> Seq<char> {
    "尝试安装模块 "@ + module + " 失败：\n"@ + cause.message_text()
}

/// The failure to report where the module `module` could not be installed
/// because of `cause`.
pub fn install_failure(module: &str, cause: &Error) -> (e: Error)
    ensures
        e@ == ErrorView::SyncError(install_failure_text(module@, cause@)),
{
    let mut m = concat("尝试安装模块 ", module);
    m.append(" 失败：\n");
    m.append(cause.message().as_str());
    Error::SyncError(m)
}

/// The outcome of a second run, after `module` was installed: what to show,
/// or the failure to report.
pub open spec fn second_outcome(
    module: Seq<char>,
    succeeded: bool,
    output: Seq<char>,
    errors: Seq<char>,
) -> Result<Seq<char>, ErrorView> {
    if succeeded {
        Ok("已自动安装模块 "@ + module + "，执行结果：\n"@ + shown(output))
    } else {
        Err(ErrorView::SyncError("模块已安装但执行仍然失败：\n"@ + errors))
    }
}

/// Judges the second run of a command, after `module` was installed.
pub fn judge_rerun(module: &str, succeeded: bool, output: &str, errors: &str) -> (r: Result<
    String,
    Error,
>)
    ensures
        match second_outcome(module@, succeeded, output@, errors@) {
            Ok(text) => r matches Ok(t) && t@ == text,
            Err(failure) => r matches Err(e) && e@ == failure,
        },
{
    if succeeded {
        let mut text = concat("已自动安装模块 ", module);
        text.append("，执行结果：\n");
        text.append(shown_text(output).as_str());
        Ok(text)
    } else {
        Err(Error::SyncError(concat("模块已安装但执行仍然失败：\n", errors)))
    }
}

} // verus!
