//! Filesystem adapter, contained to a root directory.
//!
//! Tools: `read_file`, `write_file`, `write_files` (transactional multi-file
//! write with rollback), and `list_dir` (typed entries, optional recursion
//! and glob filtering). Every path is validated syntactically (no absolute
//! paths, no `..`) **and** canonically: the deepest existing ancestor of the
//! target is canonicalized and must stay inside the canonicalized root, so
//! symlinks cannot escape the sandbox.

use vstd::prelude::*;

use crate::adapters::api::ToolExecutionError;
use crate::adapters::bytes::{find_cut, from_utf8_lossy};
use crate::adapters::paths::{join_path, leaves_base, lies_inside};
use crate::effects::{set_of, Effects, EffectsV};
use crate::json::{Json, NumberV, Value};
use crate::plan::{ToolSpec, ToolSpecV};
use crate::text::{concat2, same_text, wrapped};

verus! {

use crate::adapters::api::coded;
use crate::adapters::bytes::{cut_position, lossy_text};
use crate::adapters::paths::{escapes, is_inside, joined};
use crate::effects::{no_effects, slice_set};
use crate::fields::{number_field, object, text_field, with};
use crate::ordered::views;

/// Conventional adapter name for filesystem executors.
pub const ADAPTER: &'static str = "fs";

/// Default cap on bytes returned by `read_file`.
pub const DEFAULT_MAX_READ_BYTES: usize = 2097152;

/// Default cap on entries returned by `list_dir`.
pub const DEFAULT_MAX_ENTRIES: usize = 10000;

// ---------------------------------------------------------------------------
// Errors
// ---------------------------------------------------------------------------

/// Filesystem adapter errors.
#[derive(Debug, PartialEq, Eq)]
pub enum FsError {
    /// A required string field is missing from the input.
    MissingField(String),
    /// The path leaves the sandbox root (absolute, `..`, or via symlink).
    EscapesRoot(String),
    /// The glob pattern is invalid.
    InvalidGlob(String),
    /// The tool name is not one of the filesystem tools.
    UnknownTool(String),
    /// A transactional write failed and previous files were restored.
    Rollback {
        /// File where the failure happened.
        path: String,
        /// Underlying I/O failure.
        source: String,
    },
    /// Underlying I/O error.
    Io(String),
}

/// A filesystem error as a mathematical value.
pub enum FsErrorV {
    MissingField(Seq<char>),
    EscapesRoot(Seq<char>),
    InvalidGlob(Seq<char>),
    UnknownTool(Seq<char>),
    Rollback { path: Seq<char>, source: Seq<char> },
    Io(Seq<char>),
}

impl View for FsError {
    type V = FsErrorV;

    open spec fn view(&self) -> FsErrorV {
        match self {
            FsError::MissingField(s) => FsErrorV::MissingField(s@),
            FsError::EscapesRoot(s) => FsErrorV::EscapesRoot(s@),
            FsError::InvalidGlob(s) => FsErrorV::InvalidGlob(s@),
            FsError::UnknownTool(s) => FsErrorV::UnknownTool(s@),
            FsError::Rollback { path, source } => FsErrorV::Rollback {
                path: path@,
                source: source@,
            },
            FsError::Io(s) => FsErrorV::Io(s@),
        }
    }
}

/// The text of an error.
pub open spec fn fs_error_text(e: FsErrorV) -> Seq<char> {
    match e {
        FsErrorV::MissingField(s) => "missing string field '"@ + s + "'"@,
        FsErrorV::EscapesRoot(s) => "path escapes filesystem root: "@ + s,
        FsErrorV::InvalidGlob(s) => "invalid glob pattern: "@ + s,
        FsErrorV::UnknownTool(s) => "unknown fs tool '"@ + s + "'"@,
        FsErrorV::Rollback { path, source } => "write_files failed on '"@ + path
            + "' and was rolled back: "@ + source,
        FsErrorV::Io(s) => s,
    }
}

/// The code of an error.
pub open spec fn fs_error_code(e: FsErrorV) -> Seq<char> {
    match e {
        FsErrorV::MissingField(_) => "invalid_input"@,
        FsErrorV::InvalidGlob(_) => "invalid_input"@,
        FsErrorV::EscapesRoot(_) => "escapes_root"@,
        FsErrorV::UnknownTool(_) => "unknown_tool"@,
        FsErrorV::Rollback { .. } => "write_rollback"@,
        FsErrorV::Io(_) => "io"@,
    }
}

impl FsError {
    /// The text of the error.
    pub fn message(&self) -> (r: String)
        ensures
            r@ == fs_error_text(self@),
    {
        match self {
            FsError::MissingField(s) => wrapped("missing string field '", s.as_str(), "'"),
            FsError::EscapesRoot(s) => concat2("path escapes filesystem root: ", s.as_str()),
            FsError::InvalidGlob(s) => concat2("invalid glob pattern: ", s.as_str()),
            FsError::UnknownTool(s) => wrapped("unknown fs tool '", s.as_str(), "'"),
            FsError::Rollback { path, source } => {
                let mut out = wrapped(
                    "write_files failed on '",
                    path.as_str(),
                    "' and was rolled back: ",
                );
                out.push_str(source.as_str());
                out
            },
            FsError::Io(s) => s.clone(),
        }
    }

    /// The error as a tool reports it.
    pub fn tool_error(&self) -> (r: ToolExecutionError)
        ensures
            r@ == coded(fs_error_text(self@), fs_error_code(self@)),
    {
        let code = match self {
            FsError::MissingField(_) => "invalid_input",
            FsError::InvalidGlob(_) => "invalid_input",
            FsError::EscapesRoot(_) => "escapes_root",
            FsError::UnknownTool(_) => "unknown_tool",
            FsError::Rollback { .. } => "write_rollback",
            FsError::Io(_) => "io",
        };
        ToolExecutionError::coded(self.message().as_str(), code)
    }
}

/// The filesystem tools.
#[derive(Clone, Copy, Debug, PartialEq, Eq, Structural)]
pub enum FsTool {
    ReadFile,
    WriteFile,
    WriteFiles,
    ListDir,
}

/// The tool with the name.
pub open spec fn fs_tool(name: Seq<char>) -> Option<FsTool> {
    if name == "read_file"@ {
        Some(FsTool::ReadFile)
    } else if name == "write_file"@ {
        Some(FsTool::WriteFile)
    } else if name == "write_files"@ {
        Some(FsTool::WriteFiles)
    } else if name == "list_dir"@ {
        Some(FsTool::ListDir)
    } else {
        None
    }
}

/// The tool with the name, or the error of an unknown one.
pub fn find_tool(name: &str) -> (r: Result<FsTool, FsError>)
    ensures
        match (r, fs_tool(name@)) {
            (Ok(t), Some(m)) => t == m,
            (Err(e), None) => e@ == FsErrorV::UnknownTool(name@),
            _ => false,
        },
{
    if same_text(name, "read_file") {
        Ok(FsTool::ReadFile)
    } else if same_text(name, "write_file") {
        Ok(FsTool::WriteFile)
    } else if same_text(name, "write_files") {
        Ok(FsTool::WriteFiles)
    } else if same_text(name, "list_dir") {
        Ok(FsTool::ListDir)
    } else {
        Err(FsError::UnknownTool(name.to_owned()))
    }
}

/// The text under the key, or the error of a missing one.
pub fn required_str<'a>(input: &'a Value, key: &str) -> (r: Result<&'a str, FsError>)
    ensures
        match (r, text_field(input@, key@)) {
            (Ok(t), Some(m)) => t@ == m,
            (Err(e), None) => e@ == FsErrorV::MissingField(key@),
            _ => false,
        },
{
    match input.text_at(key) {
        Some(t) => Ok(t),
        None => Err(FsError::MissingField(key.to_owned())),
    }
}

// ---------------------------------------------------------------------------
// Containment
// ---------------------------------------------------------------------------

/// Filesystem executor rooted at a directory.
#[derive(Debug)]
pub struct FsExecutor {
    pub root: String,
    pub max_read_bytes: usize,
    pub max_entries: usize,
}

/// The larger of the number and one.
pub open spec fn at_least_one(n: usize) -> usize {
    if n < 1 {
        1
    } else {
        n
    }
}

/// How many bytes a read returns at most.
pub open spec fn read_limit(input: Json, fallback: usize) -> usize {
    match number_field(input, "max_bytes"@) {
        Some(n) => if n <= usize::MAX {
            at_least_one(n as usize)
        } else {
            at_least_one(fallback)
        },
        None => at_least_one(fallback),
    }
}

impl FsExecutor {
    /// Creates an executor contained to `root`.
    pub fn new(root: &str) -> (r: Self)
        ensures
            r.root@ == root@,
            r.max_read_bytes == DEFAULT_MAX_READ_BYTES,
            r.max_entries == DEFAULT_MAX_ENTRIES,
    {
        FsExecutor {
            root: root.to_owned(),
            max_read_bytes: DEFAULT_MAX_READ_BYTES,
            max_entries: DEFAULT_MAX_ENTRIES,
        }
    }

    /// Overrides the default `read_file` byte cap.
    pub fn with_max_read_bytes(self, max_bytes: usize) -> (r: Self)
        ensures
            r == (FsExecutor { max_read_bytes: at_least_one(max_bytes), ..self }),
    {
        FsExecutor {
            root: self.root,
            max_read_bytes: if max_bytes < 1 {
                1
            } else {
                max_bytes
            },
            max_entries: self.max_entries,
        }
    }

    /// Overrides the default `list_dir` entry cap.
    pub fn with_max_entries(self, max_entries: usize) -> (r: Self)
        ensures
            r == (FsExecutor { max_entries: at_least_one(max_entries), ..self }),
    {
        FsExecutor {
            root: self.root,
            max_read_bytes: self.max_read_bytes,
            max_entries: if max_entries < 1 {
                1
            } else {
                max_entries
            },
        }
    }

    /// How many bytes a read returns at most.
    pub fn max_read_bytes(&self, input: &Value) -> (r: usize)
        ensures
            r == read_limit(input@, self.max_read_bytes),
            r >= 1,
    {
        let mut limit: usize = self.max_read_bytes;
        if let Some(n) = input.number_at("max_bytes") {
            if n <= usize::MAX as u64 {
                limit = n as usize;
            }
        }
        if limit < 1 {
            1
        } else {
            limit
        }
    }

    /// Resolves a relative path inside the root, rejecting absolute paths
    /// and parent traversal.
    pub fn resolve(&self, raw: &str, windows: bool) -> (r: Result<String, FsError>)
        ensures
            match r {
                Ok(p) => !escapes(raw@, windows) && p@ == joined(self.root@, raw@, windows),
                Err(e) => escapes(raw@, windows) && e@ == FsErrorV::EscapesRoot(raw@),
            },
    {
        if leaves_base(raw, windows) {
            return Err(FsError::EscapesRoot(raw.to_owned()));
        }
        Ok(join_path(self.root.as_str(), raw, windows))
    }
}

/// Judges whether a resolved path stays inside the root. `root` is the
/// canonical root, if it exists; `probe` the canonical form of the deepest
/// existing ancestor of the path, if there is one. Where the root does not
/// exist yet, nothing inside it can escape.
pub fn check_containment(
    raw: &str,
    root: Option<&str>,
    probe: Option<&str>,
    windows: bool,
) -> (r: Result<(), FsError>)
    ensures
        match (root, probe) {
            (Some(dir), Some(path)) => match r {
                Ok(_) => is_inside(path@, dir@, windows),
                Err(e) => !is_inside(path@, dir@, windows) && e@ == FsErrorV::EscapesRoot(raw@),
            },
            _ => r is Ok,
        },
{
    if let Some(dir) = root {
        if let Some(path) = probe {
            if !lies_inside(path, dir, windows) {
                return Err(FsError::EscapesRoot(raw.to_owned()));
            }
        }
    }
    Ok(())
}

// ---------------------------------------------------------------------------
// Reading and writing
// ---------------------------------------------------------------------------

/// What a read of the bytes returns.
pub open spec fn read_result(bytes: Seq<u8>, max: usize) -> Json {
    if bytes.len() <= max {
        with(object(), "content"@, Json::Text(lossy_text(bytes)))
    } else {
        with(
            with(
                with(
                    object(),
                    "content"@,
                    Json::Text(lossy_text(bytes.take(cut_position(bytes, max as int)))),
                ),
                "truncated"@,
                Json::Bool(true),
            ),
            "bytes"@,
            Json::Number(NumberV::PosInt(bytes.len() as u64)),
        )
    }
}

/// What a read of the bytes returns: at most `max` of them, cut where no
/// code point is split.
pub fn read_output(bytes: &Vec<u8>, max: usize) -> (r: Value)
    ensures
        r@ == read_result(bytes@, max),
{
    if bytes.len() <= max {
        let content = from_utf8_lossy(bytes, bytes.len());
        assert(bytes@.take(bytes@.len() as int) =~= bytes@);
        return Value::empty_object().with("content", Value::String(content));
    }
    let total: usize = bytes.len();
    let cut = find_cut(bytes, max);
    let content = from_utf8_lossy(bytes, cut);
    Value::empty_object().with("content", Value::String(content)).with(
        "truncated",
        Value::Bool(true),
    ).with("bytes", Value::number(total as u64))
}

/// What a write of one file returns.
pub fn write_output(path: &str) -> (r: Value)
    ensures
        r@ == with(
            with(object(), "path"@, Json::Text(path@)),
            "written"@,
            Json::Bool(true),
        ),
{
    Value::empty_object().with("path", Value::text(path)).with("written", Value::Bool(true))
}

/// What a write of several files returns.
pub fn write_all_output(count: usize) -> (r: Value)
    ensures
        r@ == with(object(), "written"@, Json::Number(NumberV::PosInt(count as u64))),
{
    Value::empty_object().with("written", Value::number(count as u64))
}

/// One file of a transactional write.
#[derive(Debug, PartialEq, Eq)]
pub struct StagedFile {
    /// The path as it was given.
    pub raw: String,
    /// The resolved path.
    pub path: String,
    pub content: String,
}

/// Stages one file of a transactional write.
pub fn stage_file(executor: &FsExecutor, file: &Value, windows: bool) -> (r: Result<
    StagedFile,
    FsError,
>)
    ensures
        match (text_field(file@, "path"@), text_field(file@, "content"@)) {
            (None, _) => r is Err && r->Err_0@ == FsErrorV::MissingField("path"@),
            (Some(_), None) => r is Err && r->Err_0@ == FsErrorV::MissingField("content"@),
            (Some(path), Some(content)) => if escapes(path, windows) {
                r is Err && r->Err_0@ == FsErrorV::EscapesRoot(path)
            } else {
                &&& r is Ok
                &&& r->Ok_0.raw@ == path
                &&& r->Ok_0.path@ == joined(executor.root@, path, windows)
                &&& r->Ok_0.content@ == content
            },
        },
{
    let raw = match required_str(file, "path") {
        Ok(raw) => raw,
        Err(e) => {
            return Err(e);
        },
    };
    let content = match required_str(file, "content") {
        Ok(content) => content,
        Err(e) => {
            return Err(e);
        },
    };
    match executor.resolve(raw, windows) {
        Ok(path) => Ok(StagedFile { raw: raw.to_owned(), path, content: content.to_owned() }),
        Err(e) => Err(e),
    }
}

/// A file to put back: its content before the write, or nothing when it did
/// not exist.
#[derive(Debug, PartialEq, Eq)]
pub struct Backup {
    pub path: String,
    pub content: Option<Vec<u8>>,
}

/// A file to put back, as a mathematical value.
pub struct BackupV {
    pub path: Seq<char>,
    pub content: Option<Seq<u8>>,
}

impl View for Backup {
    type V = BackupV;

    open spec fn view(&self) -> BackupV {
        BackupV {
            path: self.path@,
            content: match self.content {
                Some(bytes) => Some(bytes@),
                None => None,
            },
        }
    }
}

/// The steps that undo a transactional write: the last file first.
pub fn rollback(backups: Vec<Backup>) -> (r: Vec<Backup>)
    ensures
        views(r@) == views(backups@).reverse(),
{
    let ghost all = views(backups@);
    let mut rest = backups;
    let mut out: Vec<Backup> = Vec::new();
    assert(all.take(all.len() as int) =~= all);
    while rest.len() > 0
        invariant
            rest@.len() <= all.len(),
            views(rest@) == all.take(rest@.len() as int),
            out@.len() == all.len() - rest@.len(),
            forall|i: int| 0 <= i < out@.len() ==> (#[trigger] out@[i])@ == all[all.len() - 1 - i],
        decreases rest.len(),
    {
        let ghost n = rest@.len();
        let ghost before = rest@;
        match rest.pop() {
            Some(b) => {
                assert(b@ == views(before)[n - 1]);
                out.push(b);
            },
            None => {},
        }
        assert(views(rest@) =~= all.take(n - 1)) by {
            assert forall|i: int| 0 <= i < n - 1 implies views(rest@)[i] == all[i] by {
                assert(views(before)[i] == all[i]);
            }
        }
    }
    assert(views(out@) =~= all.reverse());
    out
}

/// A file system: the content of each file.
pub open spec fn written_file(
    disk: Map<Seq<char>, Seq<u8>>,
    path: Seq<char>,
    content: Option<Seq<u8>>,
) -> Map<Seq<char>, Seq<u8>> {
    match content {
        Some(bytes) => disk.insert(path, bytes),
        None => disk.remove(path),
    }
}

/// The file system after the first `k` files were written.
pub open spec fn after_writes(
    disk: Map<Seq<char>, Seq<u8>>,
    files: Seq<(Seq<char>, Seq<u8>)>,
    k: int,
) -> Map<Seq<char>, Seq<u8>>
    decreases k,
{
    if k <= 0 {
        disk
    } else {
        after_writes(disk, files, k - 1).insert(files[k - 1].0, files[k - 1].1)
    }
}

/// What is kept of each of the first `k` files before it is written.
pub open spec fn backups_of(
    disk: Map<Seq<char>, Seq<u8>>,
    files: Seq<(Seq<char>, Seq<u8>)>,
    k: int,
) -> Seq<BackupV>
    decreases k,
{
    if k <= 0 {
        Seq::empty()
    } else {
        let now = after_writes(disk, files, k - 1);
        let path = files[k - 1].0;
        backups_of(disk, files, k - 1).push(
            BackupV {
                path,
                content: if now.dom().contains(path) {
                    Some(now[path])
                } else {
                    None
                },
            },
        )
    }
}

/// The file system after the first `k` steps.
pub open spec fn after_steps(disk: Map<Seq<char>, Seq<u8>>, steps: Seq<BackupV>, k: int) -> Map<
    Seq<char>,
    Seq<u8>,
>
    decreases k,
{
    if k <= 0 {
        disk
    } else {
        let before = after_steps(disk, steps, k - 1);
        written_file(before, steps[k - 1].path, steps[k - 1].content)
    }
}

proof fn lemma_steps_from(disk: Map<Seq<char>, Seq<u8>>, steps: Seq<BackupV>, k: int)
    requires
        0 <= k < steps.len(),
    ensures
        after_steps(disk, steps, k + 1) == after_steps(
            written_file(disk, steps[0].path, steps[0].content),
            steps.drop_first(),
            k,
        ),
    decreases k,
{
    if k > 0 {
        lemma_steps_from(disk, steps, k - 1);
        assert(steps.drop_first()[k - 1] == steps[k]);
    } else {
        assert(after_steps(disk, steps, 0) == disk);
    }
}

/// Undoing the writes made so far restores the file system as it was.
pub proof fn rollback_restores(
    disk: Map<Seq<char>, Seq<u8>>,
    files: Seq<(Seq<char>, Seq<u8>)>,
    k: int,
)
    requires
        0 <= k <= files.len(),
    ensures
        after_steps(
            after_writes(disk, files, k),
            backups_of(disk, files, k).reverse(),
            k,
        ) == disk,
        backups_of(disk, files, k).len() == k,
    decreases k,
{
    if k > 0 {
        rollback_restores(disk, files, k - 1);
        let all = backups_of(disk, files, k);
        let steps = all.reverse();
        let end = after_writes(disk, files, k);
        let before = after_writes(disk, files, k - 1);
        lemma_steps_from(end, steps, k - 1);
        assert(steps[0] == all[k - 1]);
        assert(steps.drop_first() =~= backups_of(disk, files, k - 1).reverse());
        assert(written_file(end, steps[0].path, steps[0].content) =~= before);
    }
}

// ---------------------------------------------------------------------------
// Tool declarations
// ---------------------------------------------------------------------------

/// A tool of the adapter with the effects.
pub open spec fn declared(adapter: Seq<char>, e: EffectsV) -> ToolSpecV {
    ToolSpecV { adapter, effects: Some(e), limits: None, cost: None, version: None }
}

/// ToolSpec for `read_file`: batchable, cacheable, read-only. Resources may
/// use templates such as `file:{path}` for per-node granularity.
pub fn read_file_tool(resources: &[&str]) -> (r: ToolSpec)
    ensures
        r@ == declared(
            ADAPTER@,
            EffectsV {
                reads: slice_set(resources@),
                idempotent: true,
                cacheable: true,
                batchable: true,
                ..no_effects()
            },
        ),
{
    let mut effects = Effects::read_only(resources);
    effects.batchable = true;
    ToolSpec::new(ADAPTER).with_effects(effects)
}

/// ToolSpec for `write_file`: idempotent full-content overwrite.
pub fn write_file_tool(resources: &[&str]) -> (r: ToolSpec)
    ensures
        r@ == declared(
            ADAPTER@,
            EffectsV { writes: slice_set(resources@), idempotent: true, ..no_effects() },
        ),
{
    let mut effects = Effects::default();
    effects.writes = set_of(resources);
    effects.idempotent = true;
    ToolSpec::new(ADAPTER).with_effects(effects)
}

/// ToolSpec for `write_files`: transactional multi-file write.
pub fn write_files_tool(resources: &[&str]) -> (r: ToolSpec)
    ensures
        r@ == declared(
            ADAPTER@,
            EffectsV { writes: slice_set(resources@), idempotent: true, ..no_effects() },
        ),
{
    write_file_tool(resources)
}

/// ToolSpec for `list_dir`: read-only directory listing.
pub fn list_dir_tool(resources: &[&str]) -> (r: ToolSpec)
    ensures
        r@ == declared(
            ADAPTER@,
            EffectsV {
                reads: slice_set(resources@),
                idempotent: true,
                cacheable: true,
                ..no_effects()
            },
        ),
{
    ToolSpec::new(ADAPTER).with_effects(Effects::read_only(resources))
}

} // verus!
