//! The decisions of `nbv setup` on Unix, as a state machine: the program
//! reads the environment and the rc file, asks, and writes; this module
//! decides, from what it was told, what to print, what to ask, what to
//! append, and with which exit code to stop.

use vstd::prelude::*;

use crate::setup::{joined_path, last_part, path_already_includes, path_entries, path_line_text, rc_already_references, ShellKind};
use crate::strs::{chars_of, find_sub_from, lower, trim};

verus! {

/// An optional string, by its characters.
pub open spec fn opt_chars(s: Option<&str>) -> Option<Seq<char>> {
    match s {
        Some(x) => Some(x@),
        None => None,
    }
}

/// The block appended to an rc file: a newline first when the file is not
/// empty and does not end in one, then the marker comment and the line.
pub open spec fn rc_block_text(existing: Option<Seq<char>>, line: Seq<char>) -> Seq<char> {
    (if existing matches Some(c) && c.len() > 0 && c.last() != '\n' {
        "\n"@
    } else {
        Seq::<char>::empty()
    }) + "# Added by `nbv setup`\n"@ + line + "\n"@
}

/// The text to append to an rc file holding `existing` (none when it could
/// not be read) so that it ends with `line`.
pub fn rc_block(existing: Option<&str>, line: &str) -> (r: String)
    ensures
        r@ == rc_block_text(opt_chars(existing), line@),
{
    let needs_newline = match existing {
        Some(c) => {
            let v = chars_of(c);
            v.len() > 0 && v[v.len() - 1] != '\n'
        },
        None => false,
    };
    let mut r = if needs_newline {
        String::from_str("\n")
    } else {
        String::new()
    };
    r.append("# Added by `nbv setup`\n");
    r.append(line);
    r.append("\n");
    r
}

/// An rc file with the setup block appended references the directory, so a
/// second `nbv setup` stops there and appends nothing.
pub proof fn lemma_appended_block_is_found(existing: Option<Seq<char>>, k: ShellKind, dir: Seq<char>)
    ensures
        find_sub_from(
            (match existing {
                Some(c) => c,
                None => Seq::<char>::empty(),
            }) + rc_block_text(existing, path_line_text(k, dir)),
            0,
            dir,
        ) is Some,
{
    let c = match existing {
        Some(c) => c,
        None => Seq::<char>::empty(),
    };
    let pre = if existing matches Some(c) && c.len() > 0 && c.last() != '\n' {
        "\n"@
    } else {
        Seq::<char>::empty()
    };
    let line = path_line_text(k, dir);
    let before = c + pre + "# Added by `nbv setup`\n"@;
    assert(c + rc_block_text(existing, line) =~= before + line + "\n"@);
    crate::setup::lemma_written_line_is_found(k, dir, before, "\n"@);
}

/// Whether an answer to the prompt accepts: `y` or `yes`, in any case,
/// surrounding whitespace ignored.
pub open spec fn accepts(answer: Seq<char>) -> bool {
    lower(trim(answer)) == "y"@ || lower(trim(answer)) == "yes"@
}

/// Reads an answer to the `[y/N]` prompt.
pub fn is_yes(answer: &str) -> (r: bool)
    ensures
        r == accepts(answer@),
{
    let v = chars_of(answer);
    let t = crate::strs::trim_string(&v);
    let tv = chars_of(t.as_str());
    let l = crate::strs::lower_vec(&tv);
    let s = crate::strs::string_of(l.as_slice());
    crate::strs::str_is(s.as_str(), "y") || crate::strs::str_is(s.as_str(), "yes")
}

/// Where the setup dialogue stands.
pub enum SetupStage {
    Begin,
    ReadingRc,
    Confirming,
    Writing,
    Done,
}

/// The dialogue's state: its stage, and once known, the binary directory,
/// the shell's name, the rc file, the line for it and the block to append.
pub struct SetupState {
    pub stage: SetupStage,
    pub bin: String,
    pub shell: String,
    pub rc: String,
    pub line: String,
    pub block: String,
}

/// What the program tells the dialogue.
pub enum SetupEvent {
    /// The binary's directory (none when it cannot be found), `$PATH` and
    /// `$SHELL` (empty when unset), and `$HOME` (none when unset).
    Started { bin_dir: Option<String>, path_env: String, shell: String, home: Option<String> },
    /// The rc file's contents; none when it could not be read.
    RcRead { content: Option<String> },
    /// The answer to the prompt: whether it accepted.
    Answered { accepted: bool },
    /// The append's outcome: the error's text when it failed.
    Written { error: Option<String> },
}

/// What the dialogue asks the program to do next. Each action first prints
/// its `out` text to stdout.
pub enum SetupAction {
    /// Read this rc file and report it with `RcRead`.
    ReadRc { path: String },
    /// Print `out`, prompt `Apply? [y/N] `, and report with `Answered`.
    Ask { out: String },
    /// Print `out`, append `block` to `path`, and report with `Written`.
    Append { out: String, path: String, block: String },
    /// Print `out` to stdout and `err` to stderr, and exit with `code`.
    Exit { code: i32, out: String, err: String },
}

impl SetupState {
    /// The dialogue before anything is known.
    pub fn new() -> (s: Self)
        ensures
            s.stage is Begin,
    {
        SetupState {
            stage: SetupStage::Begin,
            bin: String::new(),
            shell: String::new(),
            rc: String::new(),
            line: String::new(),
            block: String::new(),
        }
    }
}

/// Whether an event is the one the stage waits for.
pub open spec fn expects(s: SetupStage, ev: SetupEvent) -> bool {
    match s {
        SetupStage::Begin => ev is Started,
        SetupStage::ReadingRc => ev is RcRead,
        SetupStage::Confirming => ev is Answered,
        SetupStage::Writing => ev is Written,
        SetupStage::Done => false,
    }
}

/// The rc file a `$SHELL` path reads under `home`; none for an unknown shell.
pub open spec fn rc_file(shell: Seq<char>, home: Seq<char>) -> Option<Seq<char>> {
    let n = last_part(shell);
    if n == "zsh"@ {
        Some(joined_path(home, ".zshrc"@))
    } else if n == "bash"@ {
        Some(joined_path(home, ".bashrc"@))
    } else if n == "fish"@ {
        Some(joined_path(home, ".config/fish/config.fish"@))
    } else {
        None
    }
}

/// The line that puts `dir` on `PATH` for a `$SHELL` path.
pub open spec fn line_for(shell: Seq<char>, dir: Seq<char>) -> Seq<char> {
    if last_part(shell) == "fish"@ {
        "fish_add_path "@ + dir
    } else {
        "export PATH=\""@ + dir + ":$PATH\""@
    }
}

pub open spec fn msg_no_bin() -> Seq<char> {
    "nbv setup: could not determine the nbv binary directory\n"@
}

pub open spec fn msg_in_path(bin: Seq<char>) -> Seq<char> {
    "'"@ + bin + "' is already in PATH. Nothing to do.\n"@
}

pub open spec fn msg_no_home() -> Seq<char> {
    "nbv setup: HOME environment variable is not set\n"@
}

pub open spec fn msg_unsupported(shell: Seq<char>, bin: Seq<char>) -> Seq<char> {
    "nbv setup: unsupported shell '"@ + shell + "'. Add this line to your shell config manually:\n    "@
        + path_line_text(ShellKind::Bash, bin) + "\n"@
}

pub open spec fn msg_referenced(rc: Seq<char>, bin: Seq<char>) -> Seq<char> {
    "'"@ + rc + "' already references '"@ + bin + "'.\nIf nbv is still not found, open a new terminal or run:\n    source "@
        + rc + "\n"@
}

/// The plan shown before anything is written.
pub open spec fn msg_plan(bin: Seq<char>, shell: Seq<char>, rc: Seq<char>, line: Seq<char>) -> Seq<char> {
    "nbv binary directory: "@ + bin + "\ndetected shell:       "@ + shell + "\nconfig file:          "@ + rc
        + "\n\nThe following will be appended:\n\n    # Added by `nbv setup`\n    "@ + line + "\n\n"@
}

pub open spec fn msg_aborted() -> Seq<char> {
    "Aborted.\n"@
}

pub open spec fn msg_write_failed(rc: Seq<char>, e: Seq<char>) -> Seq<char> {
    "nbv setup: failed to write '"@ + rc + "': "@ + e + "\n"@
}

pub open spec fn msg_done(rc: Seq<char>) -> Seq<char> {
    "\nDone. Open a new terminal or run:\n    source "@ + rc + "\n"@
}

/// The action stops the dialogue with this code and text.
pub open spec fn exits(a: SetupAction, code: i32, out: Seq<char>, err: Seq<char>) -> bool {
    a matches SetupAction::Exit { code: c, out: o, err: e } && c == code && o@ == out && e@ == err
}

/// The state keeps what the dialogue knows.
pub open spec fn same_facts(a: SetupState, b: SetupState) -> bool {
    a.bin@ == b.bin@ && a.shell@ == b.shell@ && a.rc@ == b.rc@ && a.line@ == b.line@ && a.block@ == b.block@
}

/// What one step of the dialogue does:
/// - on start: no binary directory, exit 1; the directory already on `PATH`,
///   exit 0; no `$HOME`, exit 1; an unknown shell, exit 1 with the line to
///   add by hand; else read the shell's rc file;
/// - on the rc file: if it already references the directory, exit 0; else
///   show the plan, then append the block at once under `--yes`, or ask;
/// - on the answer: append if accepted, else exit 0 with `Aborted.`;
/// - on the append: exit 1 with the error, or 0 with how to load the file.
pub open spec fn stepped(s: SetupState, ev: SetupEvent, yes: bool, ns: SetupState, a: SetupAction) -> bool {
    match ev {
        SetupEvent::Started { bin_dir, path_env, shell, home } => match bin_dir {
            None => ns.stage is Done && exits(a, 1, Seq::empty(), msg_no_bin()),
            Some(b) => if path_entries(path_env@).contains(b@) {
                ns.stage is Done && exits(a, 0, msg_in_path(b@), Seq::empty())
            } else {
                match home {
                    None => ns.stage is Done && exits(a, 1, Seq::empty(), msg_no_home()),
                    Some(h) => match rc_file(shell@, h@) {
                        None => ns.stage is Done && exits(a, 1, Seq::empty(), msg_unsupported(shell@, b@)),
                        Some(rc) => {
                            &&& ns.stage is ReadingRc
                            &&& ns.bin@ == b@
                            &&& ns.shell@ == last_part(shell@)
                            &&& ns.rc@ == rc
                            &&& ns.line@ == line_for(shell@, b@)
                            &&& a matches SetupAction::ReadRc { path } && path@ == rc
                        },
                    },
                }
            },
        },
        SetupEvent::RcRead { content } => {
            let c = match content {
                Some(c) => c@,
                None => Seq::<char>::empty(),
            };
            let oc = match content {
                Some(c) => Some(c@),
                None => None,
            };
            if find_sub_from(c, 0, s.bin@) is Some {
                ns.stage is Done && exits(a, 0, msg_referenced(s.rc@, s.bin@), Seq::empty())
            } else {
                let plan = msg_plan(s.bin@, s.shell@, s.rc@, s.line@);
                &&& ns.bin@ == s.bin@ && ns.shell@ == s.shell@ && ns.rc@ == s.rc@ && ns.line@ == s.line@
                &&& ns.block@ == rc_block_text(oc, s.line@)
                &&& if yes {
                    &&& ns.stage is Writing
                    &&& a matches SetupAction::Append { out, path, block } && out@ == plan && path@ == s.rc@
                        && block@ == ns.block@
                } else {
                    &&& ns.stage is Confirming
                    &&& a matches SetupAction::Ask { out } && out@ == plan
                }
            }
        },
        SetupEvent::Answered { accepted } => if accepted {
            &&& ns.stage is Writing
            &&& same_facts(ns, s)
            &&& a matches SetupAction::Append { out, path, block } && out@ == Seq::<char>::empty() && path@ == s.rc@
                && block@ == s.block@
        } else {
            ns.stage is Done && exits(a, 0, msg_aborted(), Seq::empty())
        },
        SetupEvent::Written { error } => match error {
            Some(e) => ns.stage is Done && exits(a, 1, Seq::empty(), msg_write_failed(s.rc@, e@)),
            None => ns.stage is Done && exits(a, 0, msg_done(s.rc@), Seq::empty()),
        },
    }
}

fn done_with(s: SetupState, code: i32, out: String, err: String) -> (r: (SetupState, SetupAction))
    ensures
        r.0.stage is Done,
        exits(r.1, code, out@, err@),
{
    let SetupState { stage: _, bin, shell, rc, line, block } = s;
    (SetupState { stage: SetupStage::Done, bin, shell, rc, line, block }, SetupAction::Exit { code, out, err })
}

/// One step of the `nbv setup` dialogue: the event the current stage waits
/// for in, the next state and what to do out.
pub fn setup_step(s: SetupState, ev: SetupEvent, yes: bool) -> (r: (SetupState, SetupAction))
    requires
        expects(s.stage, ev),
    ensures
        stepped(s, ev, yes, r.0, r.1),
{
    match ev {
        SetupEvent::Started { bin_dir, path_env, shell, home } => {
            let b = match bin_dir {
                None => {
                    return done_with(s, 1, String::new(), String::from_str("nbv setup: could not determine the nbv binary directory\n"));
                },
                Some(b) => b,
            };
            if path_already_includes(path_env.as_str(), b.as_str()) {
                let mut out = String::from_str("'");
                out.append(b.as_str());
                out.append("' is already in PATH. Nothing to do.\n");
                return done_with(s, 0, out, String::new());
            }
            let h = match home {
                None => {
                    return done_with(s, 1, String::new(), String::from_str("nbv setup: HOME environment variable is not set\n"));
                },
                Some(h) => h,
            };
            let kind = ShellKind::from_shell_path(shell.as_str());
            proof {
                reveal_strlit("zsh");
                reveal_strlit("bash");
                reveal_strlit("fish");
                assert("zsh"@ != "bash"@ && "zsh"@ != "fish"@) by {
                    assert("zsh"@.len() != "bash"@.len());
                    assert("zsh"@.len() != "fish"@.len());
                }
                assert("bash"@ != "fish"@) by {
                    assert("bash"@[0] != "fish"@[0]);
                }
            }
            match kind.rc_path(h.as_str()) {
                None => {
                    let mut err = String::from_str("nbv setup: unsupported shell '");
                    err.append(shell.as_str());
                    err.append("'. Add this line to your shell config manually:\n    ");
                    let l = ShellKind::Bash.path_line(b.as_str());
                    err.append(l.as_str());
                    err.append("\n");
                    done_with(s, 1, String::new(), err)
                },
                Some(rc) => {
                    let line = kind.path_line(b.as_str());
                    let name = String::from_str(kind.name());
                    let ns = SetupState {
                        stage: SetupStage::ReadingRc,
                        bin: b,
                        shell: name,
                        rc: String::from_str(rc.as_str()),
                        line,
                        block: String::new(),
                    };
                    (ns, SetupAction::ReadRc { path: rc })
                },
            }
        },
        SetupEvent::RcRead { content } => {
            proof {
                reveal_strlit("");
                assert(""@ =~= Seq::<char>::empty());
            }
            let referenced = match &content {
                Some(c) => rc_already_references(c.as_str(), s.bin.as_str()),
                None => rc_already_references("", s.bin.as_str()),
            };
            if referenced {
                let mut out = String::from_str("'");
                out.append(s.rc.as_str());
                out.append("' already references '");
                out.append(s.bin.as_str());
                out.append("'.\nIf nbv is still not found, open a new terminal or run:\n    source ");
                out.append(s.rc.as_str());
                out.append("\n");
                return done_with(s, 0, out, String::new());
            }
            let mut plan = String::from_str("nbv binary directory: ");
            plan.append(s.bin.as_str());
            plan.append("\ndetected shell:       ");
            plan.append(s.shell.as_str());
            plan.append("\nconfig file:          ");
            plan.append(s.rc.as_str());
            plan.append("\n\nThe following will be appended:\n\n    # Added by `nbv setup`\n    ");
            plan.append(s.line.as_str());
            plan.append("\n\n");
            let block = match &content {
                Some(c) => rc_block(Some(c.as_str()), s.line.as_str()),
                None => rc_block(None, s.line.as_str()),
            };
            let SetupState { stage: _, bin, shell, rc, line, block: _ } = s;
            if yes {
                let path = String::from_str(rc.as_str());
                let b2 = String::from_str(block.as_str());
                (SetupState { stage: SetupStage::Writing, bin, shell, rc, line, block }, SetupAction::Append { out: plan, path, block: b2 })
            } else {
                (SetupState { stage: SetupStage::Confirming, bin, shell, rc, line, block }, SetupAction::Ask { out: plan })
            }
        },
        SetupEvent::Answered { accepted } => {
            if accepted {
                let path = String::from_str(s.rc.as_str());
                let block = String::from_str(s.block.as_str());
                let SetupState { stage: _, bin, shell, rc, line, block: kept } = s;
                (
                    SetupState { stage: SetupStage::Writing, bin, shell, rc, line, block: kept },
                    SetupAction::Append { out: String::new(), path, block },
                )
            } else {
                done_with(s, 0, String::from_str("Aborted.\n"), String::new())
            }
        },
        SetupEvent::Written { error } => match error {
            Some(e) => {
                let mut err = String::from_str("nbv setup: failed to write '");
                err.append(s.rc.as_str());
                err.append("': ");
                err.append(e.as_str());
                err.append("\n");
                done_with(s, 1, String::new(), err)
            },
            None => {
                let mut out = String::from_str("\nDone. Open a new terminal or run:\n    source ");
                out.append(s.rc.as_str());
                out.append("\n");
                done_with(s, 0, out, String::new())
            },
        },
    }
}

} // verus!
