//! The command invocation planner: binding positional arguments and prompted
//! values to a command's variables, choosing the effective shell, and
//! assembling the final exec specification (program and arguments).

use vstd::prelude::*;

use crate::parser::{Command, Settings, ShellDef, VarDef};
use crate::parser::{opt_shell_view, spec_default_shell};

verus! {

/// Errors of one invocation attempt.
#[derive(Debug, PartialEq, Eq, Clone, Copy, Structural)]
pub enum InvocationError {
    /// More positional arguments were supplied than the command has
    /// variables.
    TooManyArguments,
}

/// The final, fully determined process invocation: a program and its
/// argument list, the last argument being the resolved command text.
#[derive(Debug)]
pub struct ExecSpec {
    pub prog: String,
    pub args: Vec<String>,
}

/// Rejects an invocation that supplies more positional arguments than the
/// command has variables; accepts every other count.
pub fn check_arg_count(cmd: &Command, n_args: usize) -> (r: Result<(), InvocationError>)
    ensures
        r is Ok <==> n_args <= cmd.env_vars@.len(),
        r is Err ==> r == Result::<(), InvocationError>::Err(InvocationError::TooManyArguments),
{
    if n_args <= cmd.env_vars.len() {
        Ok(())
    } else {
        Err(InvocationError::TooManyArguments)
    }
}

/// The variables that still need a value after `n_args` positional arguments
/// were bound: the declared tail, in declaration (prompt) order.
pub fn vars_to_prompt(cmd: &Command, n_args: usize) -> (r: Vec<VarDef>)
    requires
        n_args <= cmd.env_vars@.len(),
    ensures
        r@.len() == cmd.env_vars@.len() - n_args,
        forall|i: int| 0 <= i < r@.len() ==> r@[i] == cmd.env_vars@[n_args + i],
{
    let mut r: Vec<VarDef> = Vec::new();
    let mut i: usize = n_args;
    while i < cmd.env_vars.len()
        invariant
            n_args <= i <= cmd.env_vars@.len(),
            r@.len() == i - n_args,
            forall|j: int| 0 <= j < r@.len() ==> r@[j] == cmd.env_vars@[n_args + j],
        decreases cmd.env_vars@.len() - i,
    {
        r.push(cmd.env_vars[i].clone());
        i = i + 1;
    }
    r
}

/// Binds a value to every variable, in declared order: positional arguments
/// first, then the interactively supplied values. The result pairs each
/// variable's name with its value, ready to be exported into the process
/// environment before the command body is resolved.
pub fn bind_env_vars(vars: &Vec<VarDef>, arg_vals: &Vec<String>, prompted: &Vec<String>) -> (r: Vec<
    (String, String),
>)
    requires
        arg_vals@.len() <= vars@.len(),
        arg_vals@.len() + prompted@.len() == vars@.len(),
    ensures
        r@.len() == vars@.len(),
        forall|i: int| 0 <= i < r@.len() ==> (#[trigger] r@[i]).0 == vars@[i].name,
        forall|i: int| 0 <= i < arg_vals@.len() ==> (#[trigger] r@[i]).1 == arg_vals@[i],
        forall|i: int|
            arg_vals@.len() <= i < vars@.len() ==> (#[trigger] r@[i]).1 == prompted@[i
                - arg_vals@.len()],
{
    let mut r: Vec<(String, String)> = Vec::new();
    let mut i: usize = 0;
    while i < vars.len()
        invariant
            i <= vars@.len(),
            arg_vals@.len() <= vars@.len(),
            arg_vals@.len() + prompted@.len() == vars@.len(),
            r@.len() == i,
            forall|j: int| 0 <= j < i ==> (#[trigger] r@[j]).0 == vars@[j].name,
            forall|j: int| 0 <= j < i && j < arg_vals@.len() ==> (#[trigger] r@[j]).1 == arg_vals@[j],
            forall|j: int|
                arg_vals@.len() <= j < i ==> (#[trigger] r@[j]).1 == prompted@[j - arg_vals@.len()],
        decreases vars@.len() - i,
    {
        let name = vars[i].name.clone();
        let val = if i < arg_vals.len() {
            arg_vals[i].clone()
        } else {
            prompted[i - arg_vals.len()].clone()
        };
        r.push((name, val));
        i = i + 1;
    }
    r
}

/// The shell a command runs under: the command's own override if present,
/// else the configuration's shell setting, else the built-in default.
pub fn effective_shell(cmd: &Command, settings: &Settings) -> (r: ShellDef)
    ensures
        match opt_shell_view(cmd.shell) {
            Option::Some(sv) => r@ == sv,
            Option::None => match opt_shell_view(settings.shell_def) {
                Option::Some(sv) => r@ == sv,
                Option::None => r@ == spec_default_shell(),
            },
        },
{
    match &cmd.shell {
        Some(s) => s.clone(),
        None => match &settings.shell_def {
            Some(s) => s.clone(),
            None => ShellDef::default(),
        },
    }
}

/// Assembles the final exec specification: the shell program, its fixed
/// argument prefix, and the resolved command text as the last argument.
pub fn make_exec_spec(shell: &ShellDef, command_text: &str) -> (r: ExecSpec)
    ensures
        r.prog@ == shell@.name,
        r.args.deep_view() == shell@.args.push(command_text@),
{
    ExecSpec { prog: shell.name.clone(), args: shell.args_with(command_text) }
}

/// Whether a finished `Repeat` command counts as successful: a non-zero exit
/// status is forgiven exactly when the command carries `IgnoreResult`.
pub fn command_outcome_ok(success: bool, ignore_result: bool) -> (r: bool)
    ensures
        r == (success || ignore_result),
{
    success || ignore_result
}

} // verus!
