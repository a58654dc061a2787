//! Helpers for adapters that spawn external processes.

use vstd::prelude::*;

use crate::text::{chars_of, concat2};

verus! {

use crate::text::texts_view;

/// A character that ends a directory's name in a Windows path.
pub open spec fn splits_directories(c: char) -> bool {
    c == '/' || c == '\\' || c == ':'
}

/// The last part of the text carries an extension: it holds a dot that is not
/// its first character.
pub open spec fn has_extension(s: Seq<char>) -> bool {
    exists|i: int|
        0 < i < s.len() && #[trigger] s[i] == '.' && !splits_directories(s[i - 1]) && (forall|j: int|
            i < j < s.len() ==> !splits_directories(#[trigger] s[j]))
}

/// The programs that a command may stand for.
pub open spec fn candidates(command: Seq<char>, windows: bool) -> Seq<Seq<char>> {
    if windows && !has_extension(command) {
        seq![command, command + ".cmd"@, command + ".exe"@, command + ".bat"@]
    } else {
        seq![command]
    }
}

fn carries_extension(command: &str) -> (r: bool)
    ensures
        r == has_extension(command@),
{
    let chars = chars_of(command);
    let mut i: usize = chars.len();
    while i > 1
        invariant
            i <= chars@.len(),
            chars@ == command@,
            forall|j: int| i <= j < chars@.len() ==> !splits_directories(#[trigger] chars@[j]),
            forall|j: int|
                0 < j && i <= j < chars@.len() && #[trigger] chars@[j] == '.' ==> splits_directories(
                    chars@[j - 1],
                ),
        decreases i,
    {
        let c = chars[i - 1];
        let before = chars[i - 2];
        if c == '/' || c == '\\' || c == ':' {
            assert(splits_directories(chars@[i - 1]));
            return false;
        }
        if c == '.' && before != '/' && before != '\\' && before != ':' {
            assert(command@[i - 1] == '.' && !splits_directories(command@[i - 2]));
            return true;
        }
        i = i - 1;
    }
    false
}

/// Returns the candidate program names to try when spawning `command`.
///
/// On Windows, commands installed by package managers are frequently launcher
/// shims (`npx.cmd`, `node.exe`, ...) that a bare name does not resolve to.
/// The returned list starts with the literal command and, on Windows, appends
/// `.cmd`, `.exe`, and `.bat` variants when the name does not already carry
/// an extension. On other platforms the list is just the literal command.
pub fn command_candidates(command: &str, windows: bool) -> (r: Vec<String>)
    ensures
        texts_view(r@) == candidates(command@, windows),
{
    let mut out: Vec<String> = Vec::new();
    out.push(command.to_owned());
    if windows && !carries_extension(command) {
        out.push(concat2(command, ".cmd"));
        out.push(concat2(command, ".exe"));
        out.push(concat2(command, ".bat"));
    }
    assert(texts_view(out@) =~= candidates(command@, windows));
    out
}

} // verus!
