//! The process-spawn surface's decisions: how a script-supplied command
//! description becomes a concrete launch plan, and how exit statuses are
//! judged. Actually spawning and collecting output is the host's work on
//! its worker pool; results come back only as fully-owned values.

use vstd::prelude::*;
use crate::LibError;

verus! {

/// How one standard stream of the child is wired.
#[derive(Copy, Clone, PartialEq, Eq, Structural, Debug)]
pub enum StdioMode {
    Null,
    Piped,
    Inherit,
}

/// A script-supplied command description, as plain values: either a shell
/// command line or argv-style arguments, with optional working directory,
/// environment additions, stdin text, and opt-in output capture.
pub struct CommandSpec {
    pub shell: Option<String>,
    pub args: Vec<String>,
    pub current_directory: Option<String>,
    pub env: Vec<(String, String)>,
    pub stdin: Option<String>,
    pub capture_stdout: bool,
    pub capture_stderr: bool,
}

/// A concrete launch plan: the program, its arguments, and how each
/// stream is wired.
pub struct CommandPlan {
    pub program: String,
    pub args: Vec<String>,
    pub current_directory: Option<String>,
    pub env: Vec<(String, String)>,
    pub stdin_data: Option<String>,
    pub stdin_mode: StdioMode,
    pub stdout_mode: StdioMode,
    pub stderr_mode: StdioMode,
}

impl CommandPlan {
    /// The argument views of the plan.
    pub open spec fn args_view(&self) -> Seq<Seq<char>> {
        self.args@.map(|i: int, s: String| s@)
    }
}

/// Turns a command description into a launch plan. A shell command runs
/// through the platform shell; argv-style arguments name the program
/// directly, and an empty argument list is rejected. Stdin text wires the
/// input pipe; captured outputs are piped, uncaptured standard output is
/// discarded and uncaptured standard error stays on the host's.
#[verifier::loop_isolation(false)]
pub fn parse_command_value(spec: CommandSpec, unix: bool) -> (r: Result<CommandPlan, LibError>)
    ensures
        (spec.shell is None && spec.args@.len() == 0) <==> r == Err::<CommandPlan, LibError>(
            LibError::EmptyCommand,
        ),
        r matches Ok(p) ==> {
            &&& match spec.shell {
                Some(cmd) => {
                    &&& p.program@ == (if unix {
                        "sh"@
                    } else {
                        "cmd"@
                    })
                    &&& p.args_view() == seq![
                        (if unix {
                            "-c"@
                        } else {
                            "/C"@
                        }),
                        cmd@,
                    ]
                },
                None => {
                    &&& spec.args@.len() > 0
                    &&& p.program@ == spec.args@[0]@
                    &&& p.args_view() == spec.args@.map(|i: int, s: String| s@).drop_first()
                },
            }
            &&& p.current_directory == spec.current_directory
            &&& p.env == spec.env
            &&& p.stdin_data == spec.stdin
            &&& p.stdin_mode == (if spec.stdin is Some {
                StdioMode::Piped
            } else {
                StdioMode::Null
            })
            &&& p.stdout_mode == (if spec.capture_stdout {
                StdioMode::Piped
            } else {
                StdioMode::Null
            })
            &&& p.stderr_mode == (if spec.capture_stderr {
                StdioMode::Piped
            } else {
                StdioMode::Inherit
            })
        },
{
    let CommandSpec { shell, args, current_directory, env, stdin, capture_stdout, capture_stderr } =
        spec;
    let stdin_mode = if stdin.is_some() {
        StdioMode::Piped
    } else {
        StdioMode::Null
    };
    let stdout_mode = if capture_stdout {
        StdioMode::Piped
    } else {
        StdioMode::Null
    };
    let stderr_mode = if capture_stderr {
        StdioMode::Piped
    } else {
        StdioMode::Inherit
    };
    match shell {
        Some(cmd) => {
            let program = if unix {
                "sh".to_owned()
            } else {
                "cmd".to_owned()
            };
            let flag = if unix {
                "-c".to_owned()
            } else {
                "/C".to_owned()
            };
            let mut shell_args: Vec<String> = Vec::new();
            shell_args.push(flag);
            shell_args.push(cmd);
            let p = CommandPlan {
                program,
                args: shell_args,
                current_directory,
                env,
                stdin_data: stdin,
                stdin_mode,
                stdout_mode,
                stderr_mode,
            };
            proof {
                assert(p.args_view() =~= seq![
                    (if unix {
                        "-c"@
                    } else {
                        "/C"@
                    }),
                    spec.shell->0@,
                ]);
            }
            Ok(p)
        },
        None => {
            if args.len() == 0 {
                return Err(LibError::EmptyCommand);
            }
            let ghost argsv = args@.map(|i: int, s: String| s@);
            let mut args = args;
            let program = replace_string(&mut args, 0);
            let mut rest: Vec<String> = Vec::new();
            let mut i: usize = 1;
            while i < args.len()
                invariant
                    1 <= i <= args@.len(),
                    args@.len() == argsv.len(),
                    forall|j: int| i <= j < args@.len() ==> (#[trigger] args@[j])@ == argsv[j],
                    rest@.len() == i - 1,
                    forall|j: int| 0 <= j < i - 1 ==> (#[trigger] rest@[j])@ == argsv[j + 1],
                decreases args@.len() - i,
            {
                let a = replace_string(&mut args, i);
                rest.push(a);
                i = i + 1;
            }
            let p = CommandPlan {
                program,
                args: rest,
                current_directory,
                env,
                stdin_data: stdin,
                stdin_mode,
                stdout_mode,
                stderr_mode,
            };
            proof {
                assert(p.args_view() =~= argsv.drop_first());
            }
            Ok(p)
        },
    }
}

/// Swaps an empty string into slot `i` and hands the stored one out.
fn replace_string(v: &mut Vec<String>, i: usize) -> (r: String)
    requires
        i < old(v).len(),
    ensures
        r == old(v)@[i as int],
        final(v)@.len() == old(v)@.len(),
        forall|j: int| 0 <= j < old(v)@.len() && j != i as int ==> final(v)@[j] == old(v)@[j],
{
    let mut tmp = String::new();
    std::mem::swap(&mut tmp, &mut v[i]);
    tmp
}

/// The exit code of a completed process, or a fault for one ended by a
/// signal.
pub fn status_code(code: Option<i32>) -> (r: Result<i32, LibError>)
    ensures
        code matches Some(c) ==> r == Ok::<i32, LibError>(c),
        code is None ==> r == Err::<i32, LibError>(LibError::NoStatus),
{
    match code {
        Some(c) => Ok(c),
        None => Err(LibError::NoStatus),
    }
}

/// Accepts exactly a zero exit code: any other code or a signal ending is
/// a fault.
pub fn check_status(code: Option<i32>) -> (r: Result<(), LibError>)
    ensures
        code == Some(0i32) <==> r == Ok::<(), LibError>(()),
        code matches Some(c) && c != 0 ==> r == Err::<(), LibError>(LibError::BadStatus),
        code is None ==> r == Err::<(), LibError>(LibError::NoStatus),
{
    match code {
        Some(0) => Ok(()),
        Some(_) => Err(LibError::BadStatus),
        None => Err(LibError::NoStatus),
    }
}

} // verus!
