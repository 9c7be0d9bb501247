//! The notebook as the renderers read it. Decoding JSON into these types is
//! the program's job; the rules that decide a field's value from the JSON
//! (`value_to_string`, `MimeBundle::from_entries`) live here.

use vstd::prelude::*;

use crate::strs::str_is;

verus! {

pub struct Notebook {
    pub cells: Vec<Cell>,
    pub metadata: NotebookMetadata,
}

pub struct NotebookMetadata {
    pub kernelspec: Option<KernelSpec>,
    pub language_info: Option<LanguageInfo>,
}

impl Default for NotebookMetadata {
    fn default() -> (m: Self)
        ensures
            m.kernelspec is None,
            m.language_info is None,
    {
        NotebookMetadata { kernelspec: None, language_info: None }
    }
}

pub struct KernelSpec {
    pub name: String,
    pub language: Option<String>,
    pub display_name: Option<String>,
}

pub struct LanguageInfo {
    pub name: String,
}

pub enum Cell {
    Code { source: String, outputs: Vec<Output>, execution_count: Option<u64> },
    Markdown { source: String },
    Raw { source: String },
    Unknown,
}

pub enum Output {
    Stream { name: StreamName, text: String },
    ExecuteResult { data: MimeBundle, execution_count: Option<u64> },
    DisplayData { data: MimeBundle },
    Error { ename: String, evalue: String, traceback: Vec<String> },
    Unknown,
}

#[derive(Debug, Clone, Copy, PartialEq, Eq, Structural)]
pub enum StreamName {
    Stdout,
    Stderr,
}

/// The stream's name as the notebook spells it.
pub open spec fn stream_label(n: StreamName) -> Seq<char> {
    match n {
        StreamName::Stdout => "stdout"@,
        StreamName::Stderr => "stderr"@,
    }
}

impl StreamName {
    pub fn display_name(&self) -> (r: &'static str)
        ensures
            r@ == stream_label(*self),
    {
        match self {
            StreamName::Stdout => "stdout",
            StreamName::Stderr => "stderr",
        }
    }
}

/// An output's `data`: the three MIME types the renderers understand, and
/// the keys of every other one.
pub struct MimeBundle {
    pub text_plain: Option<String>,
    pub text_html: Option<String>,
    pub image_png: Option<String>,
    pub other: Vec<String>,
}

impl Default for MimeBundle {
    fn default() -> (b: Self)
        ensures
            b.text_plain is None,
            b.text_html is None,
            b.image_png is None,
            b.other@.len() == 0,
    {
        MimeBundle { text_plain: None, text_html: None, image_png: None, other: Vec::new() }
    }
}

/// A JSON value as far as a text field reads it: a string, an array (whose
/// string items are kept and the rest marked), or anything else.
pub enum JsonText {
    Str(String),
    Array(Vec<Option<String>>),
    Other,
}

/// The string items of an array, joined.
pub open spec fn joined_items(items: Seq<Option<String>>) -> Seq<char>
    decreases items.len(),
{
    if items.len() == 0 {
        Seq::empty()
    } else {
        joined_items(items.drop_last()) + match items.last() {
            Some(s) => s@,
            None => Seq::empty(),
        }
    }
}

/// A text field's value: a string as it is, an array of strings joined
/// (non-string items dropped), nothing for any other JSON value.
pub open spec fn text_value(v: JsonText) -> Option<Seq<char>> {
    match v {
        JsonText::Str(s) => Some(s@),
        JsonText::Array(items) => Some(joined_items(items@)),
        JsonText::Other => None,
    }
}

pub open spec fn opt_text(s: Option<String>) -> Option<Seq<char>> {
    match s {
        Some(x) => Some(x@),
        None => None,
    }
}

/// Reads a text field (`source`, `text/plain`, ...): ipynb allows a string
/// or an array of strings.
pub fn value_to_string(v: JsonText) -> (r: Option<String>)
    ensures
        opt_text(r) == text_value(v),
{
    match v {
        JsonText::Str(s) => Some(s),
        JsonText::Array(arr) => {
            let mut s = String::new();
            let mut i: usize = 0;
            while i < arr.len()
                invariant
                    i <= arr@.len(),
                    s@ == joined_items(arr@.subrange(0, i as int)),
                decreases arr@.len() - i,
            {
                assert(arr@.subrange(0, i as int) =~= arr@.subrange(0, (i + 1) as int).drop_last());
                match &arr[i] {
                    Some(x) => s.append(x.as_str()),
                    None => {},
                }
                i += 1;
            }
            assert(arr@.subrange(0, arr@.len() as int) =~= arr@);
            Some(s)
        },
        JsonText::Other => None,
    }
}

/// The last entry under `key` among `entries[from..]`.
pub open spec fn found_from(entries: Seq<(String, JsonText)>, from: int, key: Seq<char>) -> Option<JsonText>
    decreases entries.len() - from,
{
    if from < 0 || from >= entries.len() {
        None
    } else {
        match found_from(entries, from + 1, key) {
            Some(v) => Some(v),
            None => if entries[from].0@ == key {
                Some(entries[from].1)
            } else {
                None
            },
        }
    }
}

/// The entry under `key` (the last one, as a JSON object decoder keeps).
pub open spec fn entry_for(entries: Seq<(String, JsonText)>, key: Seq<char>) -> Option<JsonText> {
    found_from(entries, 0, key)
}

/// A text entry's value, if the entry is there and reads as text.
pub open spec fn text_entry(entries: Seq<(String, JsonText)>, key: Seq<char>) -> Option<Seq<char>> {
    match entry_for(entries, key) {
        Some(v) => text_value(v),
        None => None,
    }
}

/// `image/png` must be a plain string.
pub open spec fn png_entry(entries: Seq<(String, JsonText)>) -> Option<Seq<char>> {
    match entry_for(entries, "image/png"@) {
        Some(JsonText::Str(s)) => Some(s@),
        _ => None,
    }
}

pub open spec fn is_known_mime(k: Seq<char>) -> bool {
    k == "text/plain"@ || k == "text/html"@ || k == "image/png"@
}

/// The keys of the entries in `entries[from..]` other than the three known
/// MIME types, last first.
pub open spec fn others_from(entries: Seq<(String, JsonText)>, from: int) -> Seq<Seq<char>>
    decreases entries.len() - from,
{
    if from < 0 || from >= entries.len() {
        Seq::empty()
    } else if is_known_mime(entries[from].0@) {
        others_from(entries, from + 1)
    } else {
        others_from(entries, from + 1).push(entries[from].0@)
    }
}

pub open spec fn keys_of(v: Seq<String>) -> Seq<Seq<char>> {
    v.map_values(|k: String| k@)
}

fn take_text(slot: &mut Option<String>, seen: &mut bool, v: JsonText)
    ensures
        *final(seen),
        *old(seen) ==> *final(slot) == *old(slot),
        !*old(seen) ==> opt_text(*final(slot)) == text_value(v),
{
    if !*seen {
        *slot = value_to_string(v);
        *seen = true;
    }
}

impl MimeBundle {
    /// Builds a bundle from a JSON object's entries: `text/plain` and
    /// `text/html` read as text, `image/png` only as a string; the keys of
    /// every other entry are kept. Where a key repeats, its last entry
    /// counts.
    pub fn from_entries(entries: Vec<(String, JsonText)>) -> (b: MimeBundle)
        ensures
            opt_text(b.text_plain) == text_entry(entries@, "text/plain"@),
            opt_text(b.text_html) == text_entry(entries@, "text/html"@),
            opt_text(b.image_png) == png_entry(entries@),
            keys_of(b.other@) == others_from(entries@, 0),
    {
        let ghost all = entries@;
        let mut plain: Option<String> = None;
        let mut html: Option<String> = None;
        let mut png: Option<String> = None;
        let mut plain_seen = false;
        let mut html_seen = false;
        let mut png_seen = false;
        let mut other: Vec<String> = Vec::new();
        let mut rest = entries;
        while rest.len() > 0
            invariant
                rest@.len() <= all.len(),
                rest@ == all.subrange(0, rest@.len() as int),
                plain_seen == found_from(all, rest@.len() as int, "text/plain"@) is Some,
                plain_seen ==> opt_text(plain) == text_entry_from(all, rest@.len() as int, "text/plain"@),
                !plain_seen ==> plain is None,
                html_seen == found_from(all, rest@.len() as int, "text/html"@) is Some,
                html_seen ==> opt_text(html) == text_entry_from(all, rest@.len() as int, "text/html"@),
                !html_seen ==> html is None,
                png_seen == found_from(all, rest@.len() as int, "image/png"@) is Some,
                png_seen ==> opt_text(png) == png_from(all, rest@.len() as int),
                !png_seen ==> png is None,
                keys_of(other@) == others_from(all, rest@.len() as int),
            decreases rest@.len(),
        {
            let ghost r = rest@.len() as int;
            proof {
                reveal_strlit("text/plain");
                reveal_strlit("text/html");
                reveal_strlit("image/png");
                assert("text/plain"@ != "text/html"@ && "text/plain"@ != "image/png"@ && "text/html"@ != "image/png"@) by {
                    assert("text/plain"@[5] != "text/html"@[5]);
                    assert("text/plain"@.len() != "image/png"@.len());
                    assert("text/html"@[0] != "image/png"@[0]);
                }
            }
            let (k, v) = rest.pop().unwrap();
            assert(all[r - 1] == (k, v));
            assert(rest@ =~= all.subrange(0, r - 1));
            if str_is(k.as_str(), "text/plain") {
                take_text(&mut plain, &mut plain_seen, v);
            } else if str_is(k.as_str(), "text/html") {
                take_text(&mut html, &mut html_seen, v);
            } else if str_is(k.as_str(), "image/png") {
                if !png_seen {
                    png = match v {
                        JsonText::Str(s) => Some(s),
                        _ => None,
                    };
                    png_seen = true;
                }
            } else {
                other.push(k);
                proof {
                    assert(keys_of(other@) =~= others_from(all, r).push(all[r - 1].0@));
                }
            }
        }
        MimeBundle { text_plain: plain, text_html: html, image_png: png, other }
    }
}

/// `text_entry` over `entries[from..]`.
pub open spec fn text_entry_from(entries: Seq<(String, JsonText)>, from: int, key: Seq<char>) -> Option<Seq<char>> {
    match found_from(entries, from, key) {
        Some(v) => text_value(v),
        None => None,
    }
}

/// `png_entry` over `entries[from..]`.
pub open spec fn png_from(entries: Seq<(String, JsonText)>, from: int) -> Option<Seq<char>> {
    match found_from(entries, from, "image/png"@) {
        Some(JsonText::Str(s)) => Some(s@),
        _ => None,
    }
}

} // verus!
