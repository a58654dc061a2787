//! Quality gates of a source tree: line ceiling, example and schema
//! validation, and release consistency.

use vstd::prelude::*;

use crate::scan::parse_up_to;
use crate::text::{chars_of, join_texts};

pub mod examples;
pub mod loc;
pub mod release;

verus! {

use crate::scan::parsed_number;
use crate::text::{join_with, texts_view};

/// Line coverage that is asked for when none is configured, in percent.
pub const DEFAULT_MIN_LINE_COVERAGE: u8 = 95;

/// A gate passes when there are no errors, and otherwise reports them all,
/// one per line.
pub open spec fn judged(r: Result<(), String>, errors: Seq<Seq<char>>) -> bool {
    match r {
        Ok(()) => errors.len() == 0,
        Err(e) => errors.len() > 0 && e@ == join_with(errors, "\n"@),
    }
}

/// The verdict of a gate.
pub fn verdict(errors: &Vec<String>) -> (r: Result<(), String>)
    ensures
        judged(r, texts_view(errors@)),
{
    if errors.len() == 0 {
        Ok(())
    } else {
        Err(join_texts(errors, "\n"))
    }
}

/// The line coverage that is asked for, given what is configured.
pub fn min_line_coverage(configured: Option<&str>) -> (r: Result<u8, String>)
    ensures
        match configured {
            None => r == Ok::<u8, String>(DEFAULT_MIN_LINE_COVERAGE),
            Some(text) => match (r, parsed_number(text@, 100)) {
                (Ok(n), Some(m)) => n == m,
                (Err(e), None) => e@ == "TOOL_COMPILER_COVERAGE_MIN must be 0..=100"@,
                _ => false,
            },
        },
{
    match configured {
        None => Ok(DEFAULT_MIN_LINE_COVERAGE),
        Some(text) => match parse_up_to(text, 100) {
            Some(n) => Ok(n as u8),
            None => Err("TOOL_COMPILER_COVERAGE_MIN must be 0..=100".to_owned()),
        },
    }
}

/// The path with slashes.
pub open spec fn slashed(path: Seq<char>) -> Seq<char> {
    Seq::new(
        path.len(),
        |i: int|
            if path[i] == '\\' {
                '/'
            } else {
                path[i]
            },
    )
}

/// The path with slashes.
pub fn display(path: &str) -> (r: String)
    ensures
        r@ == slashed(path@),
{
    let chars = chars_of(path);
    let mut out = String::new();
    let mut i: usize = 0;
    while i < chars.len()
        invariant
            i <= chars@.len(),
            chars@ == path@,
            out@ == slashed(path@).take(i as int),
        decreases chars.len() - i,
    {
        let c = if chars[i] == '\\' {
            '/'
        } else {
            chars[i]
        };
        out.push(c);
        assert(slashed(path@).take(i + 1) =~= slashed(path@).take(i as int).push(c));
        i = i + 1;
    }
    assert(slashed(path@).take(path@.len() as int) =~= slashed(path@));
    out
}

} // verus!
