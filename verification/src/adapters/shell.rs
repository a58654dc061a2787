//! Process adapter: direct program execution, no shell interpolation.
//!
//! The `run` tool spawns `program` with `args`, optional `stdin`, an
//! optional per-call `cwd` and `timeout_ms`, and returns status, stdout, and
//! stderr (both capped).
//!
//! Environment hygiene: by default the child inherits the parent
//! environment. Use [`ShellExecutor::with_env_clear`] to start from an empty
//! environment and [`ShellExecutor::with_inherited_var`] to allowlist
//! specific parent variables (`PATH` is almost always needed): that is the
//! configuration that keeps parent secrets away from arbitrary commands.

use vstd::prelude::*;

use crate::adapters::api::ToolExecutionError;
use crate::adapters::bytes::from_utf8_lossy;
use crate::adapters::paths::{join_path, starts_at_root};
use crate::effects::{Effects, EffectsV};
use crate::json::{Json, Value};
use crate::ordered::StrMap;
use crate::plan::ToolSpec;
use crate::text::{decimal_text, wrapped};

verus! {

use crate::adapters::api::coded;
use crate::adapters::bytes::lossy_text;
use crate::adapters::fs::{at_least_one, declared};
use crate::adapters::paths::{is_absolute, joined};
use crate::effects::no_effects;
use crate::fields::{integer, list_field, number_field, object, text_field, with};
use crate::json::values_view;
use crate::ordered::{opt_view, pairs_view};
use crate::text::{decimal, texts_view};

broadcast use crate::json::group_json_views;

/// Conventional adapter name for shell executors.
pub const ADAPTER: &'static str = "shell";

/// Default cap applied to captured stdout and stderr, each.
pub const DEFAULT_MAX_OUTPUT_BYTES: usize = 1048576;

// ---------------------------------------------------------------------------
// Errors
// ---------------------------------------------------------------------------

/// Shell adapter errors.
#[derive(Debug, PartialEq, Eq)]
pub enum ShellError {
    /// A required string field is missing from the input.
    MissingField(String),
    /// `args` must be an array of strings.
    InvalidArgs,
    /// The command exceeded its timeout and was killed.
    TimedOut(u64),
    /// Underlying I/O error.
    Io(String),
}

/// A shell error as a mathematical value.
pub enum ShellErrorV {
    MissingField(Seq<char>),
    InvalidArgs,
    TimedOut(u64),
    Io(Seq<char>),
}

impl View for ShellError {
    type V = ShellErrorV;

    open spec fn view(&self) -> ShellErrorV {
        match self {
            ShellError::MissingField(s) => ShellErrorV::MissingField(s@),
            ShellError::InvalidArgs => ShellErrorV::InvalidArgs,
            ShellError::TimedOut(ms) => ShellErrorV::TimedOut(*ms),
            ShellError::Io(s) => ShellErrorV::Io(s@),
        }
    }
}

/// The text of an error.
pub open spec fn shell_error_text(e: ShellErrorV) -> Seq<char> {
    match e {
        ShellErrorV::MissingField(s) => "missing string field '"@ + s + "'"@,
        ShellErrorV::InvalidArgs => "args must be an array of strings"@,
        ShellErrorV::TimedOut(ms) => "command timed out after "@ + decimal(ms as nat) + "ms"@,
        ShellErrorV::Io(s) => s,
    }
}

/// The code of an error.
pub open spec fn shell_error_code(e: ShellErrorV) -> Seq<char> {
    match e {
        ShellErrorV::MissingField(_) => "invalid_input"@,
        ShellErrorV::InvalidArgs => "invalid_input"@,
        ShellErrorV::TimedOut(_) => "timeout"@,
        ShellErrorV::Io(_) => "io"@,
    }
}

impl ShellError {
    /// The text of the error.
    pub fn message(&self) -> (r: String)
        ensures
            r@ == shell_error_text(self@),
    {
        match self {
            ShellError::MissingField(s) => wrapped("missing string field '", s.as_str(), "'"),
            ShellError::InvalidArgs => "args must be an array of strings".to_owned(),
            ShellError::TimedOut(ms) => wrapped(
                "command timed out after ",
                decimal_text(*ms).as_str(),
                "ms",
            ),
            ShellError::Io(s) => s.clone(),
        }
    }

    /// The error as a tool reports it.
    pub fn tool_error(&self) -> (r: ToolExecutionError)
        ensures
            r@ == coded(shell_error_text(self@), shell_error_code(self@)),
    {
        let code = match self {
            ShellError::MissingField(_) => "invalid_input",
            ShellError::InvalidArgs => "invalid_input",
            ShellError::TimedOut(_) => "timeout",
            ShellError::Io(_) => "io",
        };
        ToolExecutionError::coded(self.message().as_str(), code)
    }
}

/// The error of a tool that the adapter does not have.
pub fn unknown_tool(tool: &str) -> (r: ToolExecutionError)
    ensures
        r@ == coded("unknown shell tool '"@ + tool@ + "'"@, "unknown_tool"@),
{
    ToolExecutionError::coded(wrapped("unknown shell tool '", tool, "'").as_str(), "unknown_tool")
}

// ---------------------------------------------------------------------------
// Configuration
// ---------------------------------------------------------------------------

/// Shell executor configuration.
#[derive(Debug)]
pub struct ShellExecutor {
    pub cwd: Option<String>,
    pub env: StrMap<String>,
    pub env_clear: bool,
    pub inherit: Vec<String>,
    pub default_timeout_ms: Option<u64>,
    pub max_output_bytes: usize,
}

impl ShellExecutor {
    /// Creates an executor with inherited environment and no timeout.
    pub fn new() -> (r: Self)
        ensures
            r.cwd is None,
            r.env.pairs().len() == 0,
            !r.env_clear,
            r.inherit@.len() == 0,
            r.default_timeout_ms is None,
            r.max_output_bytes == DEFAULT_MAX_OUTPUT_BYTES,
    {
        ShellExecutor {
            cwd: None,
            env: StrMap::new(),
            env_clear: false,
            inherit: Vec::new(),
            default_timeout_ms: None,
            max_output_bytes: DEFAULT_MAX_OUTPUT_BYTES,
        }
    }

    /// Sets the default working directory for commands.
    pub fn with_cwd(self, cwd: &str) -> (r: Self)
        ensures
            opt_view(r.cwd) == Some(cwd@),
            r == (ShellExecutor { cwd: r.cwd, ..self }),
    {
        let mut out = self;
        out.cwd = Some(cwd.to_owned());
        out
    }

    /// Adds one environment variable visible to every command.
    pub fn with_env(self, key: &str, value: &str) -> (r: Self)
        ensures
            r == (ShellExecutor { env: r.env, ..self }),
            r.env@.dom() == self.env@.dom().insert(key@),
            r.env@[key@]@ == value@,
            forall|k: Seq<char>| k != key@ && #[trigger] self.env@.dom().contains(k) ==> r.env@[k]
                == self.env@[k],
    {
        let mut out = self;
        out.env.insert(key.to_owned(), value.to_owned());
        assert(out.env@.dom() =~= self.env@.dom().insert(key@));
        out
    }

    /// Starts children from an empty environment instead of inheriting the
    /// parent's (explicit `with_env` values and the inherit allowlist still
    /// apply).
    pub fn with_env_clear(self, clear: bool) -> (r: Self)
        ensures
            r == (ShellExecutor { env_clear: clear, ..self }),
    {
        let mut out = self;
        out.env_clear = clear;
        out
    }

    /// Allowlists a parent environment variable to survive `env_clear`.
    pub fn with_inherited_var(self, key: &str) -> (r: Self)
        ensures
            texts_view(r.inherit@) == texts_view(self.inherit@).push(key@),
            r == (ShellExecutor { inherit: r.inherit, ..self }),
    {
        let mut out = self;
        let ghost before = texts_view(out.inherit@);
        out.inherit.push(key.to_owned());
        assert(texts_view(out.inherit@) =~= before.push(key@));
        out
    }

    /// Sets a default timeout for commands that pass no `timeout_ms`.
    pub fn with_default_timeout_ms(self, timeout_ms: u64) -> (r: Self)
        ensures
            r == (ShellExecutor { default_timeout_ms: Some(timeout_ms), ..self }),
    {
        let mut out = self;
        out.default_timeout_ms = Some(timeout_ms);
        out
    }

    /// Caps captured stdout/stderr (each) at `max_bytes`.
    pub fn with_max_output_bytes(self, max_bytes: usize) -> (r: Self)
        ensures
            r == (ShellExecutor { max_output_bytes: at_least_one(max_bytes), ..self }),
    {
        let mut out = self;
        out.max_output_bytes = if max_bytes < 1 {
            1
        } else {
            max_bytes
        };
        out
    }
}

/// The variables among the first `k` of the allowlist that the parent has.
pub open spec fn inherited(
    keys: Seq<Seq<char>>,
    parent: Map<Seq<char>, Seq<char>>,
    k: int,
) -> Seq<(Seq<char>, Seq<char>)>
    decreases k,
{
    if k <= 0 {
        Seq::empty()
    } else if parent.dom().contains(keys[k - 1]) {
        inherited(keys, parent, k - 1).push((keys[k - 1], parent[keys[k - 1]]))
    } else {
        inherited(keys, parent, k - 1)
    }
}

/// The views of named texts.
pub open spec fn named_texts(s: Seq<(String, String)>) -> Seq<(Seq<char>, Seq<char>)> {
    Seq::new(s.len(), |i: int| (s[i].0@, s[i].1@))
}

/// The variables that a child is given, in the order in which they are set:
/// after clearing, the allowed ones of the parent; then those of the
/// configuration. A later one wins. Whether the rest of the parent's
/// environment is passed on is said by `env_clear` alone.
pub fn child_env(
    env: &StrMap<String>,
    env_clear: bool,
    inherit: &Vec<String>,
    parent: &StrMap<String>,
) -> (r: Vec<(String, String)>)
    ensures
        named_texts(r@) == (if env_clear {
            inherited(
                texts_view(inherit@),
                crate::ordered::map_view(*parent),
                inherit@.len() as int,
            )
        } else {
            Seq::empty()
        }) + pairs_view(*env),
{
    let ghost keys = texts_view(inherit@);
    let ghost pm = crate::ordered::map_view(*parent);
    let mut out: Vec<(String, String)> = Vec::new();
    assert(named_texts(out@) =~= Seq::empty());
    if env_clear {
        let mut i: usize = 0;
        while i < inherit.len()
            invariant
                i <= inherit@.len(),
                keys == texts_view(inherit@),
                pm == crate::ordered::map_view(*parent),
                named_texts(out@) == inherited(keys, pm, i as int),
            decreases inherit.len() - i,
        {
            assert(keys[i as int] == inherit@[i as int]@);
            if let Some(value) = parent.get(inherit[i].as_str()) {
                let ghost before = named_texts(out@);
                out.push((inherit[i].clone(), value.clone()));
                assert(named_texts(out@) =~= before.push((keys[i as int], value@)));
            }
            i = i + 1;
        }
    }
    let ghost front = named_texts(out@);
    let ghost own = pairs_view(*env);
    let mut k: usize = 0;
    assert(named_texts(out@) =~= front + own.take(0));
    while k < env.len()
        invariant
            k <= env.pairs().len(),
            own == pairs_view(*env),
            named_texts(out@) == front + own.take(k as int),
        decreases env.pairs().len() - k,
    {
        let key = env.key_at(k);
        let value = env.value_at(k);
        let ghost before = named_texts(out@);
        out.push((key.to_owned(), value.clone()));
        proof {
            assert(own[k as int] == (key@, value@));
            assert(named_texts(out@) =~= before.push(own[k as int]));
            assert((front + own.take(k as int)).push(own[k as int]) =~= front + own.take(k + 1));
        }
        k = k + 1;
    }
    assert(own.take(k as int) =~= own);
    out
}

/// A cleared environment holds nothing of the parent's but what is allowed:
/// every variable that a child is given is on the allowlist or configured.
pub proof fn cleared_environments_leak_nothing(
    keys: Seq<Seq<char>>,
    parent: Map<Seq<char>, Seq<char>>,
    k: int,
    i: int,
)
    requires
        0 <= k <= keys.len(),
        0 <= i < inherited(keys, parent, k).len(),
    ensures
        keys.contains(inherited(keys, parent, k)[i].0),
        parent.dom().contains(inherited(keys, parent, k)[i].0),
        parent[inherited(keys, parent, k)[i].0] == inherited(keys, parent, k)[i].1,
    decreases k,
{
    if k > 0 {
        let before = inherited(keys, parent, k - 1);
        if i < before.len() {
            cleared_environments_leak_nothing(keys, parent, k - 1, i);
        } else {
            assert(keys[k - 1] == inherited(keys, parent, k)[i].0);
        }
    }
}

// ---------------------------------------------------------------------------
// Commands
// ---------------------------------------------------------------------------

/// A command to run.
#[derive(Debug, PartialEq, Eq)]
pub struct RunRequest {
    pub program: String,
    pub args: Vec<String>,
    pub stdin: Option<String>,
    pub timeout_ms: Option<u64>,
    pub cwd: Option<String>,
}

/// A command to run, as a mathematical value.
#[verifier::ext_equal]
pub struct RunRequestV {
    pub program: Seq<char>,
    pub args: Seq<Seq<char>>,
    pub stdin: Option<Seq<char>>,
    pub timeout_ms: Option<u64>,
    pub cwd: Option<Seq<char>>,
}

impl View for RunRequest {
    type V = RunRequestV;

    open spec fn view(&self) -> RunRequestV {
        RunRequestV {
            program: self.program@,
            args: texts_view(self.args@),
            stdin: opt_view(self.stdin),
            timeout_ms: self.timeout_ms,
            cwd: opt_view(self.cwd),
        }
    }
}

/// Every element is a text.
pub open spec fn all_texts(items: Seq<Json>) -> bool {
    forall|i: int| 0 <= i < items.len() ==> (#[trigger] items[i]) is Text
}

/// The texts that the elements are.
pub open spec fn item_texts(items: Seq<Json>) -> Seq<Seq<char>> {
    Seq::new(items.len(), |i: int| items[i]->Text_0)
}

/// The arguments of a command; anything but an array counts as none.
pub open spec fn args_of(input: Json) -> Result<Seq<Seq<char>>, ShellErrorV> {
    match list_field(input, "args"@) {
        Some(items) => if all_texts(items) {
            Ok(item_texts(items))
        } else {
            Err(ShellErrorV::InvalidArgs)
        },
        None => Ok(Seq::empty()),
    }
}

/// Where a command runs.
pub open spec fn cwd_of(input: Json, base: Option<Seq<char>>, windows: bool) -> Option<
    Seq<char>,
> {
    match text_field(input, "cwd"@) {
        Some(own) => Some(
            match base {
                Some(b) => if is_absolute(own, windows) {
                    own
                } else {
                    joined(b, own, windows)
                },
                None => own,
            },
        ),
        None => base,
    }
}

/// The command that the input asks for.
pub open spec fn run_request_of(
    input: Json,
    base: Option<Seq<char>>,
    default_timeout_ms: Option<u64>,
    windows: bool,
) -> Result<RunRequestV, ShellErrorV> {
    match text_field(input, "program"@) {
        None => Err(ShellErrorV::MissingField("program"@)),
        Some(program) => match args_of(input) {
            Err(e) => Err(e),
            Ok(args) => Ok(
                RunRequestV {
                    program,
                    args,
                    stdin: text_field(input, "stdin"@),
                    timeout_ms: match number_field(input, "timeout_ms"@) {
                        Some(ms) => Some(ms),
                        None => default_timeout_ms,
                    },
                    cwd: cwd_of(input, base, windows),
                },
            ),
        },
    }
}

fn string_array(input: &Value) -> (r: Result<Vec<String>, ShellError>)
    ensures
        match (r, args_of(input@)) {
            (Ok(v), Ok(m)) => texts_view(v@) == m,
            (Err(e), Err(m)) => e@ == m,
            _ => false,
        },
{
    let mut out: Vec<String> = Vec::new();
    match input.list_at("args") {
        Some(items) => {
            let ghost js = values_view(items@);
            let mut i: usize = 0;
            while i < items.len()
                invariant
                    i <= items@.len(),
                    js == values_view(items@),
                    list_field(input@, "args"@) == Some(js),
                    out@.len() == i,
                    forall|j: int|
                        0 <= j < i ==> (#[trigger] js[j]) is Text && out@[j]@ == js[j]->Text_0,
                decreases items.len() - i,
            {
                assert(js[i as int] == items@[i as int]@);
                match items[i].as_str() {
                    Some(t) => {
                        out.push(t.to_owned());
                    },
                    None => {
                        return Err(ShellError::InvalidArgs);
                    },
                }
                i = i + 1;
            }
            assert(texts_view(out@) =~= item_texts(js));
        },
        None => {
            assert(texts_view(out@) =~= Seq::empty());
        },
    }
    Ok(out)
}

impl ShellExecutor {
    /// The command that the input asks for.
    pub fn request(&self, input: &Value, windows: bool) -> (r: Result<RunRequest, ShellError>)
        ensures
            match (
                r,
                run_request_of(input@, opt_view(self.cwd), self.default_timeout_ms, windows),
            ) {
                (Ok(v), Ok(m)) => v@ == m,
                (Err(e), Err(m)) => e@ == m,
                _ => false,
            },
    {
        let program = match input.text_at("program") {
            Some(program) => program.to_owned(),
            None => {
                return Err(ShellError::MissingField("program".to_owned()));
            },
        };
        let args = match string_array(input) {
            Ok(args) => args,
            Err(e) => {
                return Err(e);
            },
        };
        let stdin = match input.text_at("stdin") {
            Some(t) => Some(t.to_owned()),
            None => None,
        };
        let timeout_ms = match input.number_at("timeout_ms") {
            Some(ms) => Some(ms),
            None => self.default_timeout_ms,
        };
        let cwd = match input.text_at("cwd") {
            Some(own) => match &self.cwd {
                Some(base) => if starts_at_root(own, windows) {
                    Some(own.to_owned())
                } else {
                    Some(join_path(base.as_str(), own, windows))
                },
                None => Some(own.to_owned()),
            },
            None => match &self.cwd {
                Some(base) => Some(base.clone()),
                None => None,
            },
        };
        Ok(RunRequest { program, args, stdin, timeout_ms, cwd })
    }

    /// What a finished command returns.
    pub fn output(
        &self,
        status: Option<i32>,
        success: bool,
        stdout: &Vec<u8>,
        stderr: &Vec<u8>,
    ) -> (r: Value)
        ensures
            r@ == run_result(status, success, stdout@, stderr@, self.max_output_bytes),
    {
        let code = match status {
            Some(n) => Value::integer(n as i64),
            None => Value::Null,
        };
        let (out, out_cut) = cap_output(stdout, self.max_output_bytes);
        let (err, err_cut) = cap_output(stderr, self.max_output_bytes);
        let mut output = Value::empty_object().with("status", code).with(
            "success",
            Value::Bool(success),
        ).with("stdout", Value::String(out)).with("stderr", Value::String(err));
        if out_cut {
            output = output.with("stdout_truncated", Value::Bool(true));
        }
        if err_cut {
            output = output.with("stderr_truncated", Value::Bool(true));
        }
        output
    }
}

/// What is shown of captured output.
pub open spec fn capped(bytes: Seq<u8>, max: usize) -> Seq<char> {
    if bytes.len() <= max {
        lossy_text(bytes)
    } else {
        lossy_text(bytes.take(max as int))
    }
}

/// What is shown of captured output, and whether it was cut.
pub fn cap_output(bytes: &Vec<u8>, max_bytes: usize) -> (r: (String, bool))
    ensures
        r.0@ == capped(bytes@, max_bytes),
        r.1 == (bytes@.len() > max_bytes),
{
    if bytes.len() <= max_bytes {
        assert(bytes@.take(bytes@.len() as int) =~= bytes@);
        (from_utf8_lossy(bytes, bytes.len()), false)
    } else {
        (from_utf8_lossy(bytes, max_bytes), true)
    }
}

/// The object with the member when the flag is set.
pub open spec fn with_flag(j: Json, k: Seq<char>, flag: bool) -> Json {
    if flag {
        with(j, k, Json::Bool(true))
    } else {
        j
    }
}

/// What a finished command returns.
pub open spec fn run_result(
    status: Option<i32>,
    success: bool,
    stdout: Seq<u8>,
    stderr: Seq<u8>,
    max: usize,
) -> Json {
    let code = match status {
        Some(n) => integer(n as int),
        None => Json::Null,
    };
    let base = with(
        with(
            with(with(object(), "status"@, code), "success"@, Json::Bool(success)),
            "stdout"@,
            Json::Text(capped(stdout, max)),
        ),
        "stderr"@,
        Json::Text(capped(stderr, max)),
    );
    with_flag(
        with_flag(base, "stdout_truncated"@, stdout.len() > max),
        "stderr_truncated"@,
        stderr.len() > max,
    )
}

/// ToolSpec for `run`.
///
/// A shell command is arbitrary side effects, so the default declaration is
/// deliberately conservative: it writes the shared `shell:world` resource,
/// which serializes shell commands with each other and with anything else
/// declaring that resource. Callers that know a command is safe should
/// declare tighter effects themselves instead of weakening this default.
pub fn run_tool() -> (r: ToolSpec)
    ensures
        r@ == declared(
            ADAPTER@,
            EffectsV { writes: set!["shell:world"@], ..no_effects() },
        ),
{
    let mut effects = Effects::default();
    effects.writes.insert("shell:world".to_owned());
    assert(effects.writes@ =~= set!["shell:world"@]);
    ToolSpec::new(ADAPTER).with_effects(effects)
}

} // verus!
