//! The Python environment in which job commands are tried out: where it
//! lives, which commands set it up, and what to make of how they ended.
//! Running the commands is the caller's part.

use crate::error::{concat, Error, ErrorView};
use vstd::prelude::*;
use vstd::string::StringExecFns;

verus! {

/// `name` below the directory `base`: a `/` is put between the two unless
/// `base` is empty or ends in one.
pub open spec fn path_join(base: Seq<char>, name: Seq<char>) -> Seq<char> {
    if base.len() == 0 {
        name
    } else if base.last() == '/' {
        base + name
    } else {
        base + seq!['/'] + name
    }
}

/// The path of `name` below the directory `base`.
pub fn join_path(base: &str, name: &str) -> (r: String)
    ensures
        r@ == path_join(base@, name@),
{
    let n: usize = base.unicode_len();
    if n == 0 {
        String::from_str(name)
    } else if base.get_char(n - 1) == '/' {
        concat(base, name)
    } else {
        let mut r = String::from_str(base);
        r.push('/');
        r.append(name);
        r
    }
}

/// How running a command went.
#[derive(Debug, Clone, PartialEq, Eq)]
pub enum Ran {
    /// The command ran to its end: whether it succeeded, and what it wrote
    /// to its error stream.
    Finished(bool, String),
    /// The command could not be started, for this reason.
    NotStarted(String),
}

/// How running a command went, as plain values.
pub enum RanView {
    Finished(bool, Seq<char>),
    NotStarted(Seq<char>),
}

impl View for Ran {
    type V = RanView;

    open spec fn view(&self) -> RanView {
        match self {
            Ran::Finished(succeeded, errors) => RanView::Finished(*succeeded, errors@),
            Ran::NotStarted(reason) => RanView::NotStarted(reason@),
        }
    }
}

/// A step of setting the environment up.
#[derive(Debug, Clone, Copy, PartialEq, Eq)]
pub enum SetupStep {
    /// Create the environment.
    Create,
    /// Bring `pip` up to date.
    Upgrade,
}

/// A command that sets the environment up, word by word, and the step that
/// it is.
#[derive(Debug, Clone, PartialEq, Eq)]
pub struct SetupCommand {
    pub step: SetupStep,
    pub words: Vec<String>,
}

/// A set-up command as plain values.
pub struct SetupView {
    pub step: SetupStep,
    pub words: Seq<Seq<char>>,
}

impl View for SetupCommand {
    type V = SetupView;

    open spec fn view(&self) -> SetupView {
        SetupView { step: self.step, words: self.words.deep_view() }
    }
}

/// The views of a row of set-up commands.
pub open spec fn setup_views(commands: Seq<SetupCommand>) -> Seq<SetupView> {
    commands.map_values(|c: SetupCommand| c@)
}

/// The commands that set up the environment at `path`: none where it exists
/// already, else one that creates it and one that brings `pip` up to date.
pub open spec fn setup_commands(path: Seq<char>, exists: bool) -> Seq<SetupView> {
    if exists {
        Seq::empty()
    } else {
        seq![
            SetupView { step: SetupStep::Create, words: seq!["python3"@, "-m"@, "venv"@, path] },
            SetupView {
                step: SetupStep::Upgrade,
                words: seq!["pip3"@, "install"@, "--upgrade"@, "pip"@],
            },
        ]
    }
}

/// What a `pip` command that was run amounts to: a failure where it could
/// not be started, and one with what it wrote to its error stream where it
/// did not succeed.
pub open spec fn pip_result(ran: RanView) -> Option<ErrorView> {
    match ran {
        RanView::NotStarted(reason) => Some(ErrorView::PythonError("执行 pip 命令失败: "@ + reason)),
        RanView::Finished(succeeded, errors) => if succeeded {
            None
        } else {
            Some(ErrorView::PythonError("pip 命令执行失败: "@ + errors))
        },
    }
}

/// What a set-up command that was run amounts to. Creating the environment
/// fails only where the command could not be started; bringing `pip` up to
/// date fails where the `pip` command fails, and says why.
pub open spec fn setup_result(step: SetupStep, ran: RanView) -> Option<ErrorView> {
    match step {
        SetupStep::Create => match ran {
            RanView::NotStarted(reason) => Some(
                ErrorView::PythonError("创建虚拟环境失败: "@ + reason),
            ),
            RanView::Finished(_, _) => None,
        },
        SetupStep::Upgrade => match pip_result(ran) {
            Some(cause) => Some(ErrorView::PythonError("升级 pip 失败: "@ + cause.message_text())),
            None => None,
        },
    }
}

/// Whether `r` is the outcome that `failure` describes: success where there
/// is none, else that error.
pub open spec fn is_outcome(r: Result<(), Error>, failure: Option<ErrorView>) -> bool {
    match failure {
        None => r is Ok,
        Some(v) => r matches Err(e) && e@ == v,
    }
}

/// A Python virtual environment below a home directory.
pub struct PythonEnv {
    venv_path: String,
}

impl View for PythonEnv {
    type V = Seq<char>;

    /// The path of the environment.
    closed spec fn view(&self) -> Seq<char> {
        self.venv_path@
    }
}

impl PythonEnv {
    /// The environment `.venv` below `home`.
    pub fn new(home: &str) -> (r: Result<Self, Error>)
        ensures
            r matches Ok(env) && env@ == path_join(home@, ".venv"@),
    {
        Ok(PythonEnv { venv_path: join_path(home, ".venv") })
    }

    /// The path of the environment.
    pub fn get_venv_path(&self) -> (r: String)
        ensures
            r@ == self@,
    {
        self.venv_path.clone()
    }

    /// The commands that set the environment up, given whether it exists.
    pub fn initialize(&self, exists: bool) -> (r: Vec<SetupCommand>)
        ensures
            setup_views(r@) == setup_commands(self@, exists),
    {
        let mut r: Vec<SetupCommand> = Vec::new();
        if !exists {
            let mut create: Vec<String> = Vec::new();
            create.push(String::from_str("python3"));
            create.push(String::from_str("-m"));
            create.push(String::from_str("venv"));
            create.push(self.venv_path.clone());
            assert(create.deep_view() =~= seq!["python3"@, "-m"@, "venv"@, self@]);
            let mut upgrade: Vec<String> = Vec::new();
            upgrade.push(String::from_str("pip3"));
            upgrade.push(String::from_str("install"));
            upgrade.push(String::from_str("--upgrade"));
            upgrade.push(String::from_str("pip"));
            assert(upgrade.deep_view() =~= seq!["pip3"@, "install"@, "--upgrade"@, "pip"@]);
            r.push(SetupCommand { step: SetupStep::Create, words: create });
            r.push(SetupCommand { step: SetupStep::Upgrade, words: upgrade });
        }
        assert(setup_views(r@) =~= setup_commands(self@, exists));
        r
    }

    /// The command that installs the package `package`.
    pub fn install_package(&self, package: &str) -> (r: Vec<String>)
        ensures
            r.deep_view() == seq!["pip3"@, "install"@, package@],
    {
        let mut r: Vec<String> = Vec::new();
        r.push(String::from_str("pip3"));
        r.push(String::from_str("install"));
        r.push(String::from_str(package));
        assert(r.deep_view() =~= seq!["pip3"@, "install"@, package@]);
        r
    }

    /// What a `pip` command that was run amounts to.
    pub fn pip_outcome(ran: &Ran) -> (r: Result<(), Error>)
        ensures
            is_outcome(r, pip_result(ran@)),
    {
        match ran {
            Ran::NotStarted(reason) => Err(
                Error::PythonError(concat("执行 pip 命令失败: ", reason.as_str())),
            ),
            Ran::Finished(succeeded, errors) => {
                if *succeeded {
                    Ok(())
                } else {
                    Err(Error::PythonError(concat("pip 命令执行失败: ", errors.as_str())))
                }
            },
        }
    }

    /// What a set-up command that was run amounts to.
    pub fn setup_outcome(step: SetupStep, ran: &Ran) -> (r: Result<(), Error>)
        ensures
            is_outcome(r, setup_result(step, ran@)),
    {
        match step {
            SetupStep::Create => match ran {
                Ran::NotStarted(reason) => Err(
                    Error::PythonError(concat("创建虚拟环境失败: ", reason.as_str())),
                ),
                Ran::Finished(_, _) => Ok(()),
            },
            SetupStep::Upgrade => match PythonEnv::pip_outcome(ran) {
                Ok(()) => Ok(()),
                Err(cause) => Err(
                    Error::PythonError(concat("升级 pip 失败: ", cause.message().as_str())),
                ),
            },
        }
    }
}

} // verus!
