//! Windows `nbv setup`: the PowerShell that appends the nbv binary directory
//! to the user's `PATH` (HKCU environment), and the dialogue around it as a
//! state machine.
//!
//! The binary directory is passed to PowerShell through the `NBV_SETUP_DIR`
//! environment variable rather than interpolated into the script, so paths with
//! spaces or quotes need no escaping. The script reads its target variable and
//! scope from env too, defaulting to `('Path','User')`.

use vstd::prelude::*;

use crate::setup::{path_entries_by, path_list_includes};

verus! {

/// PowerShell that appends `$env:NBV_SETUP_DIR` to a target environment
/// variable (default `Path`) in a target scope (default `User`), idempotently.
pub const PS_PERSIST: &'static str = "$d = $env:NBV_SETUP_DIR; $var = $env:NBV_SETUP_VAR; if (-not $var) { $var = 'Path' }; $scope = $env:NBV_SETUP_SCOPE; if (-not $scope) { $scope = 'User' }; $p = [Environment]::GetEnvironmentVariable($var, $scope); if ($null -eq $p) { $p = '' }; if (($p -split ';') -notcontains $d) { if ($p -ne '' -and -not $p.EndsWith(';')) { $p += ';' }; [Environment]::SetEnvironmentVariable($var, $p + $d, $scope) }";

/// Where the Windows setup dialogue stands.
pub enum WinStage {
    Begin,
    Confirming,
    Persisting,
    Done,
}

/// The dialogue's state: its stage and, once known, the binary directory.
pub struct WinState {
    pub stage: WinStage,
    pub bin: String,
}

/// How running PowerShell went.
pub enum PsOutcome {
    Succeeded,
    /// It ran and failed; the exit status as text.
    Exited(String),
    /// It could not be run; the error as text.
    Failed(String),
}

/// What the program tells the dialogue.
pub enum WinEvent {
    /// The binary's directory (none when it cannot be found) and `%PATH%`.
    Started { bin_dir: Option<String>, path_env: String },
    /// The answer to the prompt: whether it accepted.
    Answered { accepted: bool },
    /// How running `PS_PERSIST` with the directory went.
    Ran { outcome: PsOutcome },
}

/// What the dialogue asks the program to do next.
pub enum WinAction {
    /// Print `out`, prompt `Apply? [y/N] `, and report with `Answered`.
    Ask { out: String },
    /// Print `out`, run `PS_PERSIST` with `NBV_SETUP_DIR` set to `dir`, and
    /// report with `Ran`.
    Persist { out: String, dir: String },
    /// Print `out` to stdout and `err` to stderr, and exit with `code`.
    Exit { code: i32, out: String, err: String },
}

impl WinState {
    /// The dialogue before anything is known.
    pub fn new() -> (s: Self)
        ensures
            s.stage is Begin,
    {
        WinState { stage: WinStage::Begin, bin: String::new() }
    }
}

/// Whether an event is the one the stage waits for.
pub open spec fn win_expects(s: WinStage, ev: WinEvent) -> bool {
    match s {
        WinStage::Begin => ev is Started,
        WinStage::Confirming => ev is Answered,
        WinStage::Persisting => ev is Ran,
        WinStage::Done => false,
    }
}

pub open spec fn win_plan(bin: Seq<char>) -> Seq<char> {
    "nbv binary directory: "@ + bin
        + "\ntarget:               user environment variables (HKCU\\Environment)\n\nThis will append the directory to your user PATH via PowerShell.\n\n"@
}

pub open spec fn win_fallback(bin: Seq<char>) -> Seq<char> {
    "Add it manually in PowerShell:\n    [Environment]::SetEnvironmentVariable('Path', [Environment]::GetEnvironmentVariable('Path','User') + ';"@
        + bin + "', 'User')\n"@
}

pub open spec fn win_done(bin: Seq<char>) -> Seq<char> {
    "\nAdded to your user PATH. Open a NEW terminal to pick it up.\n\nTo activate it in THIS terminal right now, run:\n    $env:Path += ';"@
        + bin + "'\n"@
}

/// The action stops the dialogue with this code and text.
pub open spec fn win_exits(a: WinAction, code: i32, out: Seq<char>, err: Seq<char>) -> bool {
    a matches WinAction::Exit { code: c, out: o, err: e } && c == code && o@ == out && e@ == err
}

/// What one step of the Windows dialogue does:
/// - on start: no binary directory, exit 1; the directory already a
///   `;`-separated entry of `%PATH%`, exit 0; else show the plan, then run
///   PowerShell at once under `--yes`, or ask;
/// - on the answer: run PowerShell if accepted, else exit 0 with `Aborted.`;
/// - on PowerShell's outcome: exit 0 with how to use the new `PATH` now, or
///   exit 1 with the failure and the line to run by hand.
pub open spec fn win_stepped(s: WinState, ev: WinEvent, yes: bool, ns: WinState, a: WinAction) -> bool {
    match ev {
        WinEvent::Started { bin_dir, path_env } => match bin_dir {
            None => ns.stage is Done && win_exits(
                a,
                1,
                Seq::empty(),
                "nbv setup: could not determine the nbv binary directory\n"@,
            ),
            Some(b) => if path_entries_by(path_env@, ';').contains(b@) {
                ns.stage is Done && win_exits(a, 0, "'"@ + b@ + "' is already in PATH. Nothing to do.\n"@, Seq::empty())
            } else {
                &&& ns.bin@ == b@
                &&& if yes {
                    &&& ns.stage is Persisting
                    &&& a matches WinAction::Persist { out, dir } && out@ == win_plan(b@) && dir@ == b@
                } else {
                    &&& ns.stage is Confirming
                    &&& a matches WinAction::Ask { out } && out@ == win_plan(b@)
                }
            },
        },
        WinEvent::Answered { accepted } => if accepted {
            &&& ns.stage is Persisting
            &&& ns.bin@ == s.bin@
            &&& a matches WinAction::Persist { out, dir } && out@ == Seq::<char>::empty() && dir@ == s.bin@
        } else {
            ns.stage is Done && win_exits(a, 0, "Aborted.\n"@, Seq::empty())
        },
        WinEvent::Ran { outcome } => ns.stage is Done && match outcome {
            PsOutcome::Succeeded => win_exits(a, 0, win_done(s.bin@), Seq::empty()),
            PsOutcome::Exited(st) => win_exits(
                a,
                1,
                Seq::empty(),
                "nbv setup: failed to update user PATH (powershell exited with "@ + st@ + ").\n"@ + win_fallback(s.bin@),
            ),
            PsOutcome::Failed(e) => win_exits(
                a,
                1,
                Seq::empty(),
                "nbv setup: failed to run powershell: "@ + e@ + "\n"@ + win_fallback(s.bin@),
            ),
        },
    }
}

fn fallback_exec(bin: &str) -> (r: String)
    ensures
        r@ == win_fallback(bin@),
{
    let mut r = String::from_str(
        "Add it manually in PowerShell:\n    [Environment]::SetEnvironmentVariable('Path', [Environment]::GetEnvironmentVariable('Path','User') + ';",
    );
    r.append(bin);
    r.append("', 'User')\n");
    r
}

fn win_plan_exec(bin: &str) -> (r: String)
    ensures
        r@ == win_plan(bin@),
{
    let mut r = String::from_str("nbv binary directory: ");
    r.append(bin);
    r.append(
        "\ntarget:               user environment variables (HKCU\\Environment)\n\nThis will append the directory to your user PATH via PowerShell.\n\n",
    );
    r
}

/// One step of the Windows `nbv setup` dialogue: the event the current
/// stage waits for in, the next state and what to do out.
pub fn win_setup_step(s: WinState, ev: WinEvent, yes: bool) -> (r: (WinState, WinAction))
    requires
        win_expects(s.stage, ev),
    ensures
        win_stepped(s, ev, yes, r.0, r.1),
{
    match ev {
        WinEvent::Started { bin_dir, path_env } => {
            let b = match bin_dir {
                None => {
                    return (
                        WinState { stage: WinStage::Done, bin: s.bin },
                        WinAction::Exit {
                            code: 1,
                            out: String::new(),
                            err: String::from_str("nbv setup: could not determine the nbv binary directory\n"),
                        },
                    );
                },
                Some(b) => b,
            };
            if path_list_includes(path_env.as_str(), b.as_str(), ';') {
                let mut out = String::from_str("'");
                out.append(b.as_str());
                out.append("' is already in PATH. Nothing to do.\n");
                return (WinState { stage: WinStage::Done, bin: b }, WinAction::Exit { code: 0, out, err: String::new() });
            }
            let plan = win_plan_exec(b.as_str());
            if yes {
                let dir = String::from_str(b.as_str());
                (WinState { stage: WinStage::Persisting, bin: b }, WinAction::Persist { out: plan, dir })
            } else {
                (WinState { stage: WinStage::Confirming, bin: b }, WinAction::Ask { out: plan })
            }
        },
        WinEvent::Answered { accepted } => {
            if accepted {
                let dir = String::from_str(s.bin.as_str());
                (WinState { stage: WinStage::Persisting, bin: s.bin }, WinAction::Persist { out: String::new(), dir })
            } else {
                (
                    WinState { stage: WinStage::Done, bin: s.bin },
                    WinAction::Exit { code: 0, out: String::from_str("Aborted.\n"), err: String::new() },
                )
            }
        },
        WinEvent::Ran { outcome } => {
            let action = match outcome {
                PsOutcome::Succeeded => {
                    let mut out = String::from_str(
                        "\nAdded to your user PATH. Open a NEW terminal to pick it up.\n\nTo activate it in THIS terminal right now, run:\n    $env:Path += ';",
                    );
                    out.append(s.bin.as_str());
                    out.append("'\n");
                    WinAction::Exit { code: 0, out, err: String::new() }
                },
                PsOutcome::Exited(st) => {
                    let mut err = String::from_str("nbv setup: failed to update user PATH (powershell exited with ");
                    err.append(st.as_str());
                    err.append(").\n");
                    let f = fallback_exec(s.bin.as_str());
                    err.append(f.as_str());
                    WinAction::Exit { code: 1, out: String::new(), err }
                },
                PsOutcome::Failed(e) => {
                    let mut err = String::from_str("nbv setup: failed to run powershell: ");
                    err.append(e.as_str());
                    err.append("\n");
                    let f = fallback_exec(s.bin.as_str());
                    err.append(f.as_str());
                    WinAction::Exit { code: 1, out: String::new(), err }
                },
            };
            (WinState { stage: WinStage::Done, bin: s.bin }, action)
        },
    }
}

} // verus!
