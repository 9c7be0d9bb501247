//! Color palette: ANSI 16-color SGR codes, for the widest terminal support.

use vstd::prelude::*;

verus! {

pub const RESET: &'static str = "\x1b[0m";

pub const BOLD: &'static str = "\x1b[1m";

pub const DIM: &'static str = "\x1b[2m";

pub const ITALIC: &'static str = "\x1b[3m";

pub const FG_CYAN: &'static str = "\x1b[36m";

pub const FG_GREEN: &'static str = "\x1b[32m";

pub const FG_RED: &'static str = "\x1b[31m";

pub const FG_BLUE: &'static str = "\x1b[34m";

pub const FG_YELLOW: &'static str = "\x1b[33m";

pub const FG_MAGENTA: &'static str = "\x1b[35m";

/// `s` wrapped in bold plus the given foreground, then reset; `s` alone
/// when color is off.
pub open spec fn bold_colored(fg: Seq<char>, s: Seq<char>, color: bool) -> Seq<char> {
    if color {
        BOLD@ + fg + s + RESET@
    } else {
        s
    }
}

fn bold_fg(fg: &str, s: &str, color: bool) -> (r: String)
    ensures
        r@ == bold_colored(fg@, s@, color),
{
    if color {
        let mut r = String::from_str(BOLD);
        r.append(fg);
        r.append(s);
        r.append(RESET);
        r
    } else {
        String::from_str(s)
    }
}

pub fn colorize_code_header(s: &str, color: bool) -> (r: String)
    ensures
        r@ == bold_colored(FG_CYAN@, s@, color),
{
    bold_fg(FG_CYAN, s, color)
}

pub fn colorize_output_header(s: &str, color: bool) -> (r: String)
    ensures
        r@ == bold_colored(FG_GREEN@, s@, color),
{
    bold_fg(FG_GREEN, s, color)
}

pub fn colorize_error_header(s: &str, color: bool) -> (r: String)
    ensures
        r@ == bold_colored(FG_RED@, s@, color),
{
    bold_fg(FG_RED, s, color)
}

pub fn colorize_markdown_header(s: &str, color: bool) -> (r: String)
    ensures
        r@ == bold_colored(FG_BLUE@, s@, color),
{
    bold_fg(FG_BLUE, s, color)
}

/// `s` dimmed, then reset; `s` alone when color is off.
pub open spec fn dimmed(s: Seq<char>, color: bool) -> Seq<char> {
    if color {
        DIM@ + s + RESET@
    } else {
        s
    }
}

pub fn dim(s: &str, color: bool) -> (r: String)
    ensures
        r@ == dimmed(s@, color),
{
    if color {
        let mut r = String::from_str(DIM);
        r.append(s);
        r.append(RESET);
        r
    } else {
        String::from_str(s)
    }
}

/// The SGR codes, spelled out.
pub proof fn lemma_sgr_codes()
    ensures
        RESET@ == seq!['\x1b', '[', '0', 'm'],
        BOLD@ == seq!['\x1b', '[', '1', 'm'],
        DIM@ == seq!['\x1b', '[', '2', 'm'],
        ITALIC@ == seq!['\x1b', '[', '3', 'm'],
        FG_YELLOW@ == seq!['\x1b', '[', '3', '3', 'm'],
        FG_CYAN@ == seq!['\x1b', '[', '3', '6', 'm'],
        FG_GREEN@ == seq!['\x1b', '[', '3', '2', 'm'],
        FG_RED@ == seq!['\x1b', '[', '3', '1', 'm'],
        FG_BLUE@ == seq!['\x1b', '[', '3', '4', 'm'],
{
    reveal_strlit("\x1b[0m");
    reveal_strlit("\x1b[1m");
    reveal_strlit("\x1b[2m");
    reveal_strlit("\x1b[3m");
    reveal_strlit("\x1b[33m");
    reveal_strlit("\x1b[36m");
    reveal_strlit("\x1b[32m");
    reveal_strlit("\x1b[31m");
    reveal_strlit("\x1b[34m");
}

} // verus!
