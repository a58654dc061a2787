//! Production-line ceiling per Rust source file.
//!
//! Test code does not count: `#[cfg(test)]`-gated items (both `mod tests {}`
//! blocks and `mod tests;` declarations), files named `tests.rs`, and
//! anything under a `tests/` directory are left out. Brace matching is
//! string- and comment-aware so `{`/`}` inside literals cannot skew the
//! count.

use vstd::prelude::*;

use crate::scan::{ends_with_text, split_lines, trim_end_text, trim_text};
use crate::text::{chars_of, decimal_text, same_text};

verus! {

use crate::scan::{has_suffix, lines_of, trimmed, trimmed_end};
use crate::text::{decimal, texts_view};

/// How many production lines a file may have.
pub const MAX_RUST_FILE_LINES: usize = 500;

// ---------------------------------------------------------------------------
// Braces
// ---------------------------------------------------------------------------

/// What is open at a place inside a line.
#[derive(Clone, Copy, Debug, PartialEq, Eq, Structural)]
pub enum Literal {
    /// Nothing: code.
    Code,
    /// A string literal.
    Text,
    /// A character literal.
    Letter,
    /// A raw string literal with this many hashes.
    Raw(usize),
}

/// What is carried from one line to the next.
#[derive(Clone, Copy, Debug, PartialEq, Eq, Structural)]
pub struct Braces {
    /// Braces opened and not closed.
    pub depth: i32,
    /// A brace was opened.
    pub opened: bool,
    /// A block comment is open.
    pub comment: bool,
    /// The literal that is open.
    pub literal: Literal,
}

/// Nothing seen yet.
pub open spec fn no_braces() -> Braces {
    Braces { depth: 0, opened: false, comment: false, literal: Literal::Code }
}

/// The character stands at the place.
pub open spec fn stands(l: Seq<char>, i: int, c: char) -> bool {
    0 <= i < l.len() && l[i] == c
}

/// How many hashes stand in a row from the place on.
pub open spec fn hashes(l: Seq<char>, i: int) -> nat
    decreases l.len() - i,
{
    if stands(l, i, '#') {
        1 + hashes(l, i + 1)
    } else {
        0
    }
}

/// A quote stands among the next four characters: a character literal, not
/// a lifetime.
pub open spec fn quote_near(l: Seq<char>, i: int) -> bool {
    exists|j: int| i <= j < i + 4 && #[trigger] stands(l, j, '\'')
}

/// The place `n` further on, at most the end of the line.
pub open spec fn ahead(l: Seq<char>, i: int, n: int) -> int {
    if i + n < l.len() {
        i + n
    } else {
        l.len() as int
    }
}

/// What reading one token of code does.
pub open spec fn code_step(l: Seq<char>, i: int, s: Braces) -> (int, Literal, Braces) {
    let c = l[i];
    if c == '/' && stands(l, i + 1, '/') {
        (l.len() as int, Literal::Code, s)
    } else if c == '/' && stands(l, i + 1, '*') {
        (ahead(l, i, 2), Literal::Code, Braces { comment: true, ..s })
    } else if c == 'r' && stands(l, i + 1 + hashes(l, i + 1), '"') {
        (
            ahead(l, i, 2 + hashes(l, i + 1) as int),
            Literal::Raw(hashes(l, i + 1) as usize),
            s,
        )
    } else if c == '"' {
        (i + 1, Literal::Text, s)
    } else if c == '\'' && quote_near(l, i + 1) {
        (i + 1, Literal::Letter, s)
    } else if c == '{' {
        (
            i + 1,
            Literal::Code,
            Braces {
                depth: if s.depth < i32::MAX {
                    (s.depth + 1) as i32
                } else {
                    s.depth
                },
                opened: true,
                ..s
            },
        )
    } else if c == '}' && s.opened {
        (
            i + 1,
            Literal::Code,
            Braces {
                depth: if s.depth > i32::MIN {
                    (s.depth - 1) as i32
                } else {
                    s.depth
                },
                ..s
            },
        )
    } else {
        (i + 1, Literal::Code, s)
    }
}

/// What reading one token does: where it ends, and what is open there.
pub open spec fn step(l: Seq<char>, i: int, m: Literal, s: Braces) -> (int, Literal, Braces) {
    if s.comment {
        if l[i] == '*' && stands(l, i + 1, '/') {
            (ahead(l, i, 2), m, Braces { comment: false, ..s })
        } else {
            (i + 1, m, s)
        }
    } else {
        match m {
            Literal::Raw(n) => if l[i] == '"' && hashes(l, i + 1) >= n {
                (ahead(l, i, 1 + n), Literal::Code, s)
            } else {
                (i + 1, m, s)
            },
            Literal::Text => if l[i] == '\\' {
                (ahead(l, i, 2), m, s)
            } else if l[i] == '"' {
                (i + 1, Literal::Code, s)
            } else {
                (i + 1, m, s)
            },
            Literal::Letter => if l[i] == '\\' {
                (ahead(l, i, 2), m, s)
            } else if l[i] == '\'' {
                (i + 1, Literal::Code, s)
            } else {
                (i + 1, m, s)
            },
            Literal::Code => code_step(l, i, s),
        }
    }
}

/// What stays open behind the end of a line: strings may go on, a character
/// literal does not.
pub open spec fn carried(m: Literal, s: Braces) -> Braces {
    Braces {
        literal: match m {
            Literal::Letter => Literal::Code,
            other => other,
        },
        ..s
    }
}

/// What is open at the end of the line, when read from a place on.
pub open spec fn scanned(l: Seq<char>, i: int, m: Literal, s: Braces) -> Braces
    decreases l.len() - i,
{
    if 0 <= i < l.len() {
        let next = step(l, i, m, s);
        if i < next.0 {
            scanned(l, next.0, next.1, next.2)
        } else {
            carried(m, s)
        }
    } else {
        carried(m, s)
    }
}

fn found(chars: &Vec<char>, i: usize, c: char) -> (r: bool)
    ensures
        r == stands(chars@, i as int, c),
{
    i < chars.len() && chars[i] == c
}

fn count_hashes(chars: &Vec<char>, from: usize) -> (r: usize)
    requires
        from <= chars@.len(),
    ensures
        r == hashes(chars@, from as int),
        from + r <= chars@.len(),
{
    let mut i: usize = from;
    while i < chars.len() && chars[i] == '#'
        invariant
            from <= i <= chars@.len(),
            hashes(chars@, from as int) == (i - from) + hashes(chars@, i as int),
        decreases chars.len() - i,
    {
        i = i + 1;
    }
    i - from
}

fn has_quote_near(chars: &Vec<char>, from: usize) -> (r: bool)
    requires
        from <= chars@.len(),
    ensures
        r == quote_near(chars@, from as int),
{
    let mut i: usize = from;
    while i < chars.len() && i - from < 4
        invariant
            from <= i <= chars@.len(),
            i - from <= 4,
            forall|j: int| from <= j < i ==> !#[trigger] stands(chars@, j, '\''),
        decreases chars.len() - i,
    {
        if chars[i] == '\'' {
            assert(stands(chars@, i as int, '\''));
            return true;
        }
        i = i + 1;
    }
    assert forall|j: int| from <= j < from + 4 implies !#[trigger] stands(chars@, j, '\'') by {}
    false
}

fn further(chars: &Vec<char>, i: usize, n: usize) -> (r: usize)
    requires
        i <= chars@.len(),
    ensures
        r == ahead(chars@, i as int, n as int),
{
    if n < chars.len() - i {
        i + n
    } else {
        chars.len()
    }
}

fn read_code(chars: &Vec<char>, i: usize, s: Braces) -> (r: (usize, Literal, Braces))
    requires
        i < chars@.len(),
        !s.comment,
    ensures
        (r.0 as int, r.1, r.2) == code_step(chars@, i as int, s),
        i < r.0 <= chars@.len(),
{
    let end: usize = chars.len();
    let c = chars[i];
    if c == '/' && found(chars, i + 1, '/') {
        return (end, Literal::Code, s);
    }
    if c == '/' && found(chars, i + 1, '*') {
        return (further(chars, i, 2), Literal::Code, Braces { comment: true, ..s });
    }
    if c == 'r' {
        let n = count_hashes(chars, i + 1);
        if n < end - i - 1 && chars[i + 1 + n] == '"' {
            let next: usize = further(chars, i + 1 + n, 1);
            return (next, Literal::Raw(n), s);
        }
    }
    if c == '"' {
        return (i + 1, Literal::Text, s);
    }
    if c == '\'' && has_quote_near(chars, i + 1) {
        return (i + 1, Literal::Letter, s);
    }
    if c == '{' {
        let depth: i32 = if s.depth < i32::MAX {
            s.depth + 1
        } else {
            s.depth
        };
        return (i + 1, Literal::Code, Braces { depth, opened: true, ..s });
    }
    if c == '}' && s.opened {
        let depth: i32 = if s.depth > i32::MIN {
            s.depth - 1
        } else {
            s.depth
        };
        return (i + 1, Literal::Code, Braces { depth, ..s });
    }
    (i + 1, Literal::Code, s)
}

fn read_token(chars: &Vec<char>, i: usize, m: Literal, s: Braces) -> (r: (usize, Literal, Braces))
    requires
        i < chars@.len(),
    ensures
        (r.0 as int, r.1, r.2) == step(chars@, i as int, m, s),
        i < r.0 <= chars@.len(),
{
    let end: usize = chars.len();
    let c = chars[i];
    if s.comment {
        if c == '*' && i + 1 < end && chars[i + 1] == '/' {
            return (further(chars, i, 2), m, Braces { comment: false, ..s });
        }
        return (i + 1, m, s);
    }
    match m {
        Literal::Raw(n) => {
            if c == '"' {
                let run = count_hashes(chars, i + 1);
                if run >= n {
                    return (further(chars, i + 1, n), Literal::Code, s);
                }
            }
            (i + 1, m, s)
        },
        Literal::Text => if c == '\\' {
            (further(chars, i, 2), m, s)
        } else if c == '"' {
            (i + 1, Literal::Code, s)
        } else {
            (i + 1, m, s)
        },
        Literal::Letter => if c == '\\' {
            (further(chars, i, 2), m, s)
        } else if c == '\'' {
            (i + 1, Literal::Code, s)
        } else {
            (i + 1, m, s)
        },
        Literal::Code => read_code(chars, i, s),
    }
}

/// What is open at the end of the line.
pub fn scan_line(line: &str, s: Braces) -> (r: Braces)
    ensures
        r == scanned(line@, 0, s.literal, s),
{
    let chars = chars_of(line);
    let mut i: usize = 0;
    let mut m = s.literal;
    let mut now = s;
    while i < chars.len()
        invariant
            i <= chars@.len(),
            chars@ == line@,
            scanned(line@, 0, s.literal, s) == scanned(line@, i as int, m, now),
        decreases chars.len() - i,
    {
        let (next, literal, braces) = read_token(&chars, i, m, now);
        i = next;
        m = literal;
        now = braces;
    }
    let literal = match m {
        Literal::Letter => Literal::Code,
        other => other,
    };
    Braces { literal, ..now }
}

// ---------------------------------------------------------------------------
// Lines
// ---------------------------------------------------------------------------

/// Where the braced item ends that is read from line `k` on.
pub open spec fn braced_end(lines: Seq<Seq<char>>, k: int, s: Braces) -> int
    decreases lines.len() - k,
{
    if 0 <= k < lines.len() {
        let next = scanned(lines[k], 0, s.literal, s);
        if next.opened && next.depth <= 0 {
            k + 1
        } else {
            braced_end(lines, k + 1, next)
        }
    } else {
        lines.len() as int
    }
}

/// Where the test item ends whose attribute stands at line `start`: after a
/// declaration that ends in a semicolon, or after a braced item.
pub open spec fn item_end(lines: Seq<Seq<char>>, start: int) -> int {
    if start + 1 >= lines.len() {
        start + 1
    } else if has_suffix(trimmed_end(lines[start + 1]), seq![';']) {
        start + 2
    } else {
        braced_end(lines, start + 1, no_braces())
    }
}

/// The line is the attribute of a test item.
pub open spec fn opens_test(line: Seq<char>) -> bool {
    trimmed(line) == "#[cfg(test)]"@
}

proof fn lemma_braced_end(lines: Seq<Seq<char>>, k: int, s: Braces)
    requires
        0 <= k < lines.len(),
    ensures
        k < braced_end(lines, k, s) <= lines.len(),
    decreases lines.len() - k,
{
    let next = scanned(lines[k], 0, s.literal, s);
    if !(next.opened && next.depth <= 0) && k + 1 < lines.len() {
        lemma_braced_end(lines, k + 1, next);
    } else {
        assert(braced_end(lines, lines.len() as int, next) == lines.len());
    }
}

/// A test item ends behind its attribute.
pub proof fn items_end_ahead(lines: Seq<Seq<char>>, start: int)
    requires
        0 <= start < lines.len(),
    ensures
        start < item_end(lines, start) <= lines.len(),
{
    if start + 1 < lines.len() && !has_suffix(trimmed_end(lines[start + 1]), seq![';']) {
        lemma_braced_end(lines, start + 1, no_braces());
    }
}

/// How many lines from `k` on belong to no test item.
pub open spec fn production_lines(lines: Seq<Seq<char>>, k: int) -> nat
    decreases lines.len() - k,
{
    if 0 <= k < lines.len() {
        if opens_test(lines[k]) {
            let end = item_end(lines, k);
            if k < end <= lines.len() {
                production_lines(lines, end)
            } else {
                0
            }
        } else {
            1 + production_lines(lines, k + 1)
        }
    } else {
        0
    }
}

/// There are no more production lines than lines.
pub proof fn counts_are_bounded(lines: Seq<Seq<char>>, k: int)
    requires
        0 <= k <= lines.len(),
    ensures
        production_lines(lines, k) <= lines.len() - k,
    decreases lines.len() - k,
{
    if k < lines.len() {
        if opens_test(lines[k]) {
            items_end_ahead(lines, k);
            counts_are_bounded(lines, item_end(lines, k));
        } else {
            counts_are_bounded(lines, k + 1);
        }
    }
}

/// Without test items every line counts.
pub proof fn plain_files_count_in_full(lines: Seq<Seq<char>>, k: int)
    requires
        0 <= k <= lines.len(),
        forall|i: int| k <= i < lines.len() ==> !#[trigger] opens_test(lines[i]),
    ensures
        production_lines(lines, k) == lines.len() - k,
    decreases lines.len() - k,
{
    if k < lines.len() {
        assert(!opens_test(lines[k]));
        plain_files_count_in_full(lines, k + 1);
    }
}

fn skip_braced_item(lines: &Vec<String>, start: usize) -> (r: usize)
    requires
        start < lines@.len(),
    ensures
        r == braced_end(texts_view(lines@), start as int, no_braces()),
{
    let ghost ls = texts_view(lines@);
    let mut k: usize = start;
    let mut s = Braces { depth: 0, opened: false, comment: false, literal: Literal::Code };
    while k < lines.len()
        invariant
            k <= lines@.len(),
            ls == texts_view(lines@),
            braced_end(ls, start as int, no_braces()) == braced_end(ls, k as int, s),
        decreases lines.len() - k,
    {
        assert(ls[k as int] == lines@[k as int]@);
        s = scan_line(lines[k].as_str(), s);
        if s.opened && s.depth <= 0 {
            return k + 1;
        }
        k = k + 1;
    }
    lines.len()
}

fn skip_cfg_test_item(lines: &Vec<String>, start: usize) -> (r: usize)
    requires
        start < lines@.len(),
    ensures
        r == item_end(texts_view(lines@), start as int),
{
    let ghost ls = texts_view(lines@);
    let count: usize = lines.len();
    if start + 1 >= count {
        return start + 1;
    }
    assert(ls[start + 1] == lines@[start + 1]@);
    let first = trim_end_text(lines[start + 1].as_str());
    proof {
        reveal_strlit(";");
        assert(";"@ =~= seq![';']);
    }
    if ends_with_text(first.as_str(), ";") {
        return start + 2;
    }
    skip_braced_item(lines, start + 1)
}

/// How many lines of a file belong to no test item.
pub fn production_line_count(content: &str) -> (r: usize)
    ensures
        r == production_lines(lines_of(content@), 0),
        r <= lines_of(content@).len(),
{
    let lines = split_lines(content);
    let ghost ls = lines_of(content@);
    let mut count: usize = 0;
    let mut k: usize = 0;
    while k < lines.len()
        invariant
            k <= lines@.len(),
            ls == texts_view(lines@),
            count <= k,
            production_lines(ls, 0) == count + production_lines(ls, k as int),
        decreases lines.len() - k,
    {
        assert(ls[k as int] == lines@[k as int]@);
        proof {
            items_end_ahead(ls, k as int);
        }
        if same_text(trim_text(lines[k].as_str()).as_str(), "#[cfg(test)]") {
            k = skip_cfg_test_item(&lines, k);
        } else {
            count = count + 1;
            k = k + 1;
        }
    }
    count
}

// ---------------------------------------------------------------------------
// Files
// ---------------------------------------------------------------------------

/// Directories that are not entered.
pub open spec fn is_skipped(name: Seq<char>) -> bool {
    ||| name == ".git"@
    ||| name == ".codegraph"@
    ||| name == "target"@
    ||| name == "node_modules"@
    ||| name == "dist"@
    ||| name == "dist-test"@
    ||| name == "tests"@
}

/// Whether a directory is not entered.
pub fn is_skipped_dir(name: &str) -> (r: bool)
    ensures
        r == is_skipped(name@),
{
    same_text(name, ".git") || same_text(name, ".codegraph") || same_text(name, "target")
        || same_text(name, "node_modules") || same_text(name, "dist") || same_text(
        name,
        "dist-test",
    ) || same_text(name, "tests")
}

/// The file name has the extension, behind a name of its own.
pub open spec fn has_extension(name: Seq<char>, dotted: Seq<char>) -> bool {
    has_suffix(name, dotted) && name.len() > dotted.len()
}

/// Whether the file name ends in the extension (given with its dot), behind
/// a name of its own.
pub fn ends_in(name: &str, dotted: &str) -> (r: bool)
    ensures
        r == has_extension(name@, dotted@),
{
    ends_with_text(name, dotted) && chars_of(name).len() > chars_of(dotted).len()
}

/// Whether the lines of a file are counted.
pub fn is_counted_file(name: &str) -> (r: bool)
    ensures
        r == (has_extension(name@, ".rs"@) && name@ != "tests.rs"@),
{
    ends_in(name, ".rs") && !same_text(name, "tests.rs")
}

/// The complaint about a file that is too long.
pub open spec fn too_long(path: Seq<char>, lines: nat) -> Option<Seq<char>> {
    if lines > MAX_RUST_FILE_LINES {
        Some(
            path + " has "@ + decimal(lines) + " production lines; max is "@ + decimal(
                MAX_RUST_FILE_LINES as nat,
            ),
        )
    } else {
        None
    }
}

/// The complaint about a file that is too long.
pub fn check_file(path: &str, content: &str) -> (r: Option<String>)
    ensures
        crate::ordered::opt_view(r) == too_long(
            path@,
            production_lines(lines_of(content@), 0),
        ),
{
    let lines = production_line_count(content);
    if lines > MAX_RUST_FILE_LINES {
        let mut out = path.to_owned();
        out.push_str(" has ");
        out.push_str(decimal_text(lines as u64).as_str());
        out.push_str(" production lines; max is ");
        out.push_str(decimal_text(MAX_RUST_FILE_LINES as u64).as_str());
        Some(out)
    } else {
        None
    }
}

} // verus!
