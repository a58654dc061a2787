//! Release consistency: version numbers and changelog coverage.

use vstd::prelude::*;

use crate::json::Value;
use crate::quality::verdict;
use crate::scan::{contains_text, split_lines, starts_with_text, trim_text};
use crate::text::{chars_of, concat2, same_text, text_of, wrapped};

verus! {

use crate::fields::text_field;
use crate::quality::judged;
use crate::scan::{has_part, has_prefix, lines_of, trimmed};
use crate::text::texts_view;

/// What a version line starts with.
pub const VERSION_KEY: &'static str = "version = \"";

/// The version that a line of a manifest gives.
pub open spec fn version_in(line: Seq<char>) -> Option<Seq<char>> {
    let t = trimmed(line);
    let p = VERSION_KEY@.len();
    if has_prefix(t, VERSION_KEY@) && t.len() > p && t.last() == '"' {
        Some(t.subrange(p as int, t.len() - 1))
    } else {
        None
    }
}

/// The first version that the lines give, from `k` on.
pub open spec fn first_version(lines: Seq<Seq<char>>, k: int) -> Option<Seq<char>>
    decreases lines.len() - k,
{
    if 0 <= k < lines.len() {
        match version_in(lines[k]) {
            Some(v) => Some(v),
            None => first_version(lines, k + 1),
        }
    } else {
        None
    }
}

fn find_version(line: &str) -> (r: Option<String>)
    ensures
        crate::ordered::opt_view(r) == version_in(line@),
{
    let t = trim_text(line);
    if starts_with_text(t.as_str(), VERSION_KEY) {
        let chars = chars_of(t.as_str());
        let key = chars_of(VERSION_KEY);
        if chars.len() > key.len() && chars[chars.len() - 1] == '"' {
            return Some(text_of(&chars, key.len(), chars.len() - 1));
        }
    }
    None
}

/// The version that the workspace manifest gives.
pub fn workspace_version(manifest: &str) -> (r: Result<String, String>)
    ensures
        match (r, first_version(lines_of(manifest@), 0)) {
            (Ok(v), Some(m)) => v@ == m,
            (Err(e), None) => e@ == "workspace Cargo.toml has no version"@,
            _ => false,
        },
{
    let lines = split_lines(manifest);
    let ghost ls = lines_of(manifest@);
    let mut k: usize = 0;
    while k < lines.len()
        invariant
            k <= lines@.len(),
            ls == texts_view(lines@),
            ls == lines_of(manifest@),
            first_version(ls, 0) == first_version(ls, k as int),
        decreases lines.len() - k,
    {
        assert(ls[k as int] == lines@[k as int]@);
        if let Some(v) = find_version(lines[k].as_str()) {
            return Ok(v);
        }
        k = k + 1;
    }
    Err("workspace Cargo.toml has no version".to_owned())
}

/// The version that the package description of the SDK gives.
pub fn sdk_version(package: &Value) -> (r: Result<String, String>)
    ensures
        match (r, text_field(package@, "version"@)) {
            (Ok(v), Some(m)) => v@ == m,
            (Err(e), None) => e@ == "sdk/node/package.json has no version"@,
            _ => false,
        },
{
    match package.text_at("version") {
        Some(v) => Ok(v.to_owned()),
        None => Err("sdk/node/package.json has no version".to_owned()),
    }
}

/// What is wrong with a release.
pub open spec fn release_errors(
    workspace: Seq<char>,
    sdk: Seq<char>,
    changelog: Seq<char>,
) -> Seq<Seq<char>> {
    let heading = "## "@ + workspace;
    (if workspace != sdk {
        seq![
            "version drift: Cargo workspace is "@ + workspace + ", sdk/node package.json is "@
                + sdk,
        ]
    } else {
        Seq::empty()
    }) + (if !has_part(changelog, heading) {
        seq!["CHANGELOG.md has no '"@ + heading + "' section for the current version"@]
    } else {
        Seq::empty()
    })
}

/// Whether the versions agree and the changelog has a section for them.
pub fn release_check(workspace: &str, sdk: &str, changelog: &str) -> (r: Result<(), String>)
    ensures
        judged(r, release_errors(workspace@, sdk@, changelog@)),
{
    let mut errors: Vec<String> = Vec::new();
    let ghost none: Seq<Seq<char>> = Seq::empty();
    assert(texts_view(errors@) =~= none);
    if !same_text(workspace, sdk) {
        let mut text = wrapped(
            "version drift: Cargo workspace is ",
            workspace,
            ", sdk/node package.json is ",
        );
        text.push_str(sdk);
        let ghost t = text@;
        errors.push(text);
        assert(texts_view(errors@) =~= seq![t]);
    }
    let ghost first = texts_view(errors@);
    let heading = concat2("## ", workspace);
    if !contains_text(changelog, heading.as_str()) {
        let text = wrapped(
            "CHANGELOG.md has no '",
            heading.as_str(),
            "' section for the current version",
        );
        let ghost t = text@;
        errors.push(text);
        assert(texts_view(errors@) =~= first + seq![t]);
    } else {
        assert(first =~= first + none);
    }
    verdict(&errors)
}

/// A release passes exactly when the versions agree and the changelog has
/// the heading of that version.
pub proof fn release_passes_when_consistent(
    workspace: Seq<char>,
    sdk: Seq<char>,
    changelog: Seq<char>,
)
    ensures
        release_errors(workspace, sdk, changelog).len() == 0 <==> (workspace == sdk && has_part(
            changelog,
            "## "@ + workspace,
        )),
{
}

} // verus!
