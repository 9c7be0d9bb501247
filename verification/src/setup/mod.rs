//! `nbv setup` — the decisions behind adding the nbv binary directory to the
//! user's `PATH`: which shell, which rc file, which line, and whether it is
//! needed at all.

pub mod flow;
pub mod windows;

use vstd::prelude::*;

use crate::strs::{chars_of, find_sub, find_sub_from, str_is, sub_string};

verus! {

#[derive(Debug, PartialEq, Eq)]
pub enum ShellKind {
    Zsh,
    Bash,
    Fish,
    Unknown(String),
}

/// The last `/`-separated part of `s` (all of it when there is no `/`).
pub open spec fn last_part(s: Seq<char>) -> Seq<char>
    decreases s.len(),
{
    if s.len() == 0 {
        s
    } else if s.last() == '/' {
        Seq::empty()
    } else {
        last_part(s.drop_last()).push(s.last())
    }
}

/// The shell a `$SHELL` path names, by its file name.
pub open spec fn shell_of(path: Seq<char>) -> (bool, bool, bool, Seq<char>) {
    let n = last_part(path);
    (n == "zsh"@, n == "bash"@, n == "fish"@, n)
}

/// `dir` joined with `name` as `Path::join` does for a relative name.
pub open spec fn joined_path(dir: Seq<char>, name: Seq<char>) -> Seq<char> {
    if dir.len() == 0 {
        name
    } else if dir.last() == '/' {
        dir + name
    } else {
        dir + seq!['/'] + name
    }
}

/// The last `/`-separated part of a path: its file name.
pub fn file_name(s: &str) -> (r: String)
    ensures
        r@ == last_part(s@),
{
    let v = chars_of(s);
    let mut i = v.len();
    proof {
        assert(v@.subrange(0, v@.len() as int) =~= v@);
        assert(v@.subrange(v@.len() as int, v@.len() as int) =~= Seq::<char>::empty());
    }
    while i > 0 && v[i - 1] != '/'
        invariant
            i <= v@.len(),
            last_part(v@) == last_part(v@.subrange(0, i as int)) + v@.subrange(i as int, v@.len() as int),
        decreases i,
    {
        proof {
            let p = v@.subrange(0, i as int);
            assert(p.drop_last() =~= v@.subrange(0, i - 1));
            assert(last_part(p) == last_part(p.drop_last()).push(p.last()));
            assert(v@.subrange(i - 1, v@.len() as int) =~= seq![v@[i - 1]] + v@.subrange(i as int, v@.len() as int));
        }
        i -= 1;
    }
    proof {
        assert(last_part(v@.subrange(0, i as int)) =~= Seq::<char>::empty());
    }
    sub_string(&v, i, v.len())
}

fn joined_path_exec(dir: &str, name: &str) -> (r: String)
    ensures
        r@ == joined_path(dir@, name@),
{
    let v = chars_of(dir);
    let mut r = String::from_str(dir);
    if v.len() > 0 && v[v.len() - 1] != '/' {
        r.append("/");
        proof {
            reveal_strlit("/");
        }
    }
    r.append(name);
    r
}

impl ShellKind {
    /// The shell a `$SHELL` path names, by its file name.
    pub fn from_shell_path(shell: &str) -> (k: Self)
        ensures
            k is Zsh <==> last_part(shell@) == "zsh"@,
            k is Bash <==> last_part(shell@) == "bash"@,
            k is Fish <==> last_part(shell@) == "fish"@,
            k matches ShellKind::Unknown(n) ==> n@ == last_part(shell@),
    {
        let name = file_name(shell);
        proof {
            reveal_strlit("zsh");
            reveal_strlit("bash");
            reveal_strlit("fish");
            assert("zsh"@ != "bash"@ && "zsh"@ != "fish"@) by {
                assert("zsh"@.len() != "bash"@.len());
                assert("zsh"@.len() != "fish"@.len());
            }
            assert("bash"@ != "fish"@) by {
                assert("bash"@[0] != "fish"@[0]);
            }
        }
        if str_is(name.as_str(), "zsh") {
            ShellKind::Zsh
        } else if str_is(name.as_str(), "bash") {
            ShellKind::Bash
        } else if str_is(name.as_str(), "fish") {
            ShellKind::Fish
        } else {
            ShellKind::Unknown(name)
        }
    }

    pub fn name(&self) -> (r: &str)
        ensures
            r@ == (match self {
                ShellKind::Zsh => "zsh"@,
                ShellKind::Bash => "bash"@,
                ShellKind::Fish => "fish"@,
                ShellKind::Unknown(s) => s@,
            }),
    {
        match self {
            ShellKind::Zsh => "zsh",
            ShellKind::Bash => "bash",
            ShellKind::Fish => "fish",
            ShellKind::Unknown(s) => s.as_str(),
        }
    }

    /// The rc file the shell reads, under `home`; none for an unknown shell.
    pub fn rc_path(&self, home: &str) -> (r: Option<String>)
        ensures
            match self {
                ShellKind::Zsh => r matches Some(p) && p@ == joined_path(home@, ".zshrc"@),
                ShellKind::Bash => r matches Some(p) && p@ == joined_path(home@, ".bashrc"@),
                ShellKind::Fish => r matches Some(p) && p@ == joined_path(home@, ".config/fish/config.fish"@),
                ShellKind::Unknown(_) => r is None,
            },
    {
        match self {
            ShellKind::Zsh => Some(joined_path_exec(home, ".zshrc")),
            ShellKind::Bash => Some(joined_path_exec(home, ".bashrc")),
            ShellKind::Fish => Some(joined_path_exec(home, ".config/fish/config.fish")),
            ShellKind::Unknown(_) => None,
        }
    }

    /// The line that puts `dir` on the shell's `PATH`.
    pub fn path_line(&self, dir: &str) -> (r: String)
        ensures
            r@ == path_line_text(*self, dir@),
    {
        match self {
            ShellKind::Fish => {
                let mut r = String::from_str("fish_add_path ");
                r.append(dir);
                r
            },
            _ => {
                let mut r = String::from_str("export PATH=\"");
                r.append(dir);
                r.append(":$PATH\"");
                r
            },
        }
    }
}

/// The `sep`-separated entries of `s`, as `str::split(sep)` yields them.
pub open spec fn path_entries_by(s: Seq<char>, sep: char) -> Seq<Seq<char>>
    decreases s.len(),
{
    if s.len() == 0 {
        seq![Seq::empty()]
    } else {
        let rest = path_entries_by(s.drop_last(), sep);
        if s.last() == sep {
            rest.push(Seq::empty())
        } else {
            rest.update(rest.len() - 1, rest.last().push(s.last()))
        }
    }
}

/// The `:`-separated entries of `s`, as `str::split(':')` yields them.
pub open spec fn path_entries(s: Seq<char>) -> Seq<Seq<char>> {
    path_entries_by(s, ':')
}

pub proof fn lemma_path_entries_nonempty(s: Seq<char>)
    ensures
        path_entries(s).len() >= 1,
    decreases s.len(),
{
    if s.len() > 0 {
        lemma_path_entries_nonempty(s.drop_last());
    }
}

/// True if `dir` is exactly one of the `:`-separated entries of `path_env`.
pub fn path_already_includes(path_env: &str, dir: &str) -> (r: bool)
    ensures
        r == path_entries(path_env@).contains(dir@),
{
    path_list_includes(path_env, dir, ':')
}

/// True if `dir` is exactly one of the `sep`-separated entries of `path_env`.
pub fn path_list_includes(path_env: &str, dir: &str, sep: char) -> (r: bool)
    ensures
        r == path_entries_by(path_env@, sep).contains(dir@),
{
    let v = chars_of(path_env);
    let d = chars_of(dir);
    let ghost mut entries: Seq<Seq<char>> = seq![Seq::empty()];
    let mut found = false;
    let mut cur_start: usize = 0;
    let mut i: usize = 0;
    while i < v.len()
        invariant
            i <= v@.len(),
            cur_start <= i,
            v@ == path_env@,
            d@ == dir@,
            entries == path_entries_by(v@.subrange(0, i as int), sep),
            entries.len() >= 1,
            entries.last() == v@.subrange(cur_start as int, i as int),
            found == entries.drop_last().contains(d@),
        decreases v@.len() - i,
    {
        proof {
            let p = v@.subrange(0, i + 1);
            assert(p.drop_last() =~= v@.subrange(0, i as int));
            assert(p.last() == v@[i as int]);
        }
        if v[i] == sep {
            let seg = sub_vec_eq(&v, cur_start, i, &d);
            proof {
                let old_e = entries;
                entries = entries.push(Seq::empty());
                assert(entries.drop_last() =~= old_e);
                assert(old_e =~= old_e.drop_last().push(old_e.last()));
                if seg {
                    assert(entries.drop_last().contains(d@)) by {
                        assert(entries.drop_last()[old_e.len() - 1] == d@);
                    }
                } else {
                    if entries.drop_last().contains(d@) {
                        let j = choose|j: int| 0 <= j < entries.drop_last().len() && entries.drop_last()[j] == d@;
                        if j < old_e.len() - 1 {
                            assert(old_e.drop_last()[j] == d@);
                        }
                    }
                }
            }
            found = found || seg;
            cur_start = i + 1;
            proof {
                assert(v@.subrange(cur_start as int, (i + 1) as int) =~= Seq::<char>::empty());
            }
        } else {
            proof {
                let old_e = entries;
                entries = entries.update(entries.len() - 1, entries.last().push(v@[i as int]));
                assert(entries.drop_last() =~= old_e.drop_last());
                assert(entries.last() =~= v@.subrange(cur_start as int, (i + 1) as int));
            }
        }
        i += 1;
    }
    let last = sub_vec_eq(&v, cur_start, v.len(), &d);
    proof {
        assert(v@.subrange(0, i as int) =~= v@);
        assert(entries =~= entries.drop_last().push(entries.last()));
        if found || last {
            if last {
                assert(entries[entries.len() - 1] == d@);
            } else {
                let j = choose|j: int| 0 <= j < entries.drop_last().len() && entries.drop_last()[j] == d@;
                assert(entries[j] == d@);
            }
        } else {
            if entries.contains(d@) {
                let j = choose|j: int| 0 <= j < entries.len() && entries[j] == d@;
                if j < entries.len() - 1 {
                    assert(entries.drop_last()[j] == d@);
                }
            }
        }
    }
    found || last
}

fn sub_vec_eq(v: &Vec<char>, from: usize, to: usize, d: &Vec<char>) -> (r: bool)
    requires
        from <= to <= v@.len(),
    ensures
        r == (v@.subrange(from as int, to as int) == d@),
{
    if to - from != d.len() {
        return false;
    }
    let mut k: usize = 0;
    while k < d.len()
        invariant
            k <= d@.len(),
            from <= to <= v@.len(),
            to - from == d@.len(),
            forall|j: int| 0 <= j < k ==> v@[from + j] == d@[j],
        decreases d@.len() - k,
    {
        if v[from + k] != d[k] {
            assert(v@.subrange(from as int, to as int)[k as int] != d@[k as int]);
            return false;
        }
        k += 1;
    }
    assert(v@.subrange(from as int, to as int) =~= d@);
    true
}

/// Whether the rc file already mentions `dir` anywhere.
pub fn rc_already_references(rc_content: &str, dir: &str) -> (r: bool)
    ensures
        r == find_sub_from(rc_content@, 0, dir@) is Some,
{
    let v = chars_of(rc_content);
    let d = chars_of(dir);
    find_sub(&v, 0, &d).is_some()
}


/// The line `nbv setup` writes for a shell.
pub open spec fn path_line_text(k: ShellKind, dir: Seq<char>) -> Seq<char> {
    match k {
        ShellKind::Fish => "fish_add_path "@ + dir,
        _ => "export PATH=\""@ + dir + ":$PATH\""@,
    }
}

proof fn lemma_found_at_or_before(s: Seq<char>, i: int, k: int, p: Seq<char>)
    requires
        0 <= i <= k <= s.len(),
        crate::strs::starts_with_at(s, k, p),
    ensures
        find_sub_from(s, i, p) is Some,
    decreases k - i,
{
    if !crate::strs::starts_with_at(s, i, p) {
        lemma_found_at_or_before(s, i + 1, k, p);
    }
}

/// An rc file that holds the line setup writes for a directory references
/// that directory, so running setup again finds it and changes nothing.
pub proof fn lemma_written_line_is_found(k: ShellKind, dir: Seq<char>, before: Seq<char>, after: Seq<char>)
    ensures
        find_sub_from(before + path_line_text(k, dir) + after, 0, dir) is Some,
{
    let line = path_line_text(k, dir);
    let s = before + line + after;
    let pre = match k {
        ShellKind::Fish => "fish_add_path "@,
        _ => "export PATH=\""@,
    };
    let at: int = (before.len() + pre.len()) as int;
    assert(s.subrange(at, at + dir.len() as int) =~= dir);
    lemma_found_at_or_before(s, 0, at, dir);
}

} // verus!
