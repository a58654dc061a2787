//! Command surface: errors, run flags and recipe parameters.

use vstd::prelude::*;

use crate::graph::validate::{GraphError, GraphErrorV};
use crate::json::{Json, Value};
use crate::ordered::StrMap;
use crate::planner::intent::{PlannerError, PlannerErrorV};
use crate::runtime::config::{ErrorMode, RunConfig};
use crate::runtime::error::{RuntimeError, RuntimeErrorV};
use crate::runtime::result::ResultMode;
use crate::text::{chars_of, concat2, text_of, wrapped};

verus! {

use crate::adapters::shell::named_texts;
use crate::graph::validate::graph_error_text;
use crate::ordered::{map_view, map_view_insert, opt_view};
use crate::planner::intent::planner_error_text;
use crate::runtime::calls::opt_values;
use crate::runtime::config::default_config;
use crate::runtime::error::runtime_error_text;
use crate::text::texts_view;

/// Errors surfaced by CLI commands.
#[derive(Debug)]
pub enum CliError {
    /// Reading an input file failed.
    Io {
        /// The offending path.
        path: String,
        /// The underlying I/O error.
        source: String,
    },
    /// Parsing an input file failed.
    Parse {
        /// The offending path.
        path: String,
        /// The parser message.
        message: String,
    },
    /// A configuration file problem.
    Config {
        /// The offending path.
        path: String,
        /// The failure detail.
        message: String,
    },
    /// A malformed command-line input.
    Input(String),
    /// Plan validation failed.
    Graph(GraphError),
    /// Intent/recipe lowering failed.
    Planner(PlannerError),
    /// Execution failed at the infrastructure level.
    Runtime(RuntimeError),
    /// Serializing an output failed.
    Serialize(String),
}

/// A command error as a mathematical value.
pub enum CliErrorV {
    Io { path: Seq<char>, source: Seq<char> },
    Parse { path: Seq<char>, message: Seq<char> },
    Config { path: Seq<char>, message: Seq<char> },
    Input(Seq<char>),
    Graph(GraphErrorV),
    Planner(PlannerErrorV),
    Runtime(RuntimeErrorV),
    Serialize(Seq<char>),
}

impl View for CliError {
    type V = CliErrorV;

    open spec fn view(&self) -> CliErrorV {
        match self {
            CliError::Io { path, source } => CliErrorV::Io { path: path@, source: source@ },
            CliError::Parse { path, message } => CliErrorV::Parse {
                path: path@,
                message: message@,
            },
            CliError::Config { path, message } => CliErrorV::Config {
                path: path@,
                message: message@,
            },
            CliError::Input(s) => CliErrorV::Input(s@),
            CliError::Graph(e) => CliErrorV::Graph(e@),
            CliError::Planner(e) => CliErrorV::Planner(e@),
            CliError::Runtime(e) => CliErrorV::Runtime(e@),
            CliError::Serialize(s) => CliErrorV::Serialize(s@),
        }
    }
}

/// The text of an error.
pub open spec fn cli_error_text(e: CliErrorV) -> Seq<char> {
    match e {
        CliErrorV::Io { path, source } => "failed to read '"@ + path + "': "@ + source,
        CliErrorV::Parse { path, message } => "failed to parse '"@ + path + "': "@ + message,
        CliErrorV::Config { path, message } => "runtime config '"@ + path + "': "@ + message,
        CliErrorV::Input(s) => s,
        CliErrorV::Graph(g) => graph_error_text(g),
        CliErrorV::Planner(p) => planner_error_text(p),
        CliErrorV::Runtime(r) => runtime_error_text(r),
        CliErrorV::Serialize(s) => "failed to serialize output: "@ + s,
    }
}

fn about(before: &str, path: &str, message: &str) -> (r: String)
    ensures
        r@ == before@ + path@ + "': "@ + message@,
{
    let mut out = wrapped(before, path, "': ");
    out.push_str(message);
    out
}

impl CliError {
    /// The text of the error.
    pub fn message(&self) -> (r: String)
        ensures
            r@ == cli_error_text(self@),
    {
        match self {
            CliError::Io { path, source } => about(
                "failed to read '",
                path.as_str(),
                source.as_str(),
            ),
            CliError::Parse { path, message } => about(
                "failed to parse '",
                path.as_str(),
                message.as_str(),
            ),
            CliError::Config { path, message } => about(
                "runtime config '",
                path.as_str(),
                message.as_str(),
            ),
            CliError::Input(s) => s.clone(),
            CliError::Graph(e) => e.message(),
            CliError::Planner(e) => e.message(),
            CliError::Runtime(e) => e.message(),
            CliError::Serialize(s) => concat2("failed to serialize output: ", s.as_str()),
        }
    }

    /// A configuration file problem.
    pub fn config(path: &str, message: &str) -> (r: Self)
        ensures
            r@ == (CliErrorV::Config { path: path@, message: message@ }),
    {
        CliError::Config { path: path.to_owned(), message: message.to_owned() }
    }

    /// The error of a command on an adapter that is not registered.
    pub fn unknown_adapter(adapter: &str) -> (r: Self)
        ensures
            r@ == CliErrorV::Input("unknown adapter '"@ + adapter@ + "'"@),
    {
        CliError::Input(wrapped("unknown adapter '", adapter, "'"))
    }

    /// The error of an adapter that does not conform.
    pub fn not_conforming(adapter: &str) -> (r: Self)
        ensures
            r@ == CliErrorV::Input("adapter '"@ + adapter@ + "' failed conformance"@),
    {
        CliError::Input(wrapped("adapter '", adapter, "' failed conformance"))
    }
}

/// Flags of the commands that run something.
#[derive(Clone, Copy, Debug)]
pub struct RunArgs {
    /// How much detail the result carries.
    pub result_mode: ResultMode,
    /// Failure handling mode.
    pub on_error: ErrorMode,
    /// Timeout applied to calls whose effects declare none, in milliseconds.
    pub timeout_ms: Option<u64>,
    /// Per-output byte budget; larger outputs are truncated with a marker.
    pub max_output_bytes: Option<usize>,
}

impl RunArgs {
    /// The run configuration that the flags ask for.
    pub fn config(&self) -> (r: RunConfig)
        ensures
            r == (RunConfig {
                result_mode: self.result_mode,
                on_error: self.on_error,
                default_timeout_ms: self.timeout_ms,
                max_output_bytes: self.max_output_bytes,
                ..default_config()
            }),
    {
        let mut config = RunConfig::new();
        if self.result_mode == ResultMode::Compact {
            config = config.with_result_mode(ResultMode::Compact);
        }
        if self.on_error == ErrorMode::Continue {
            config = config.with_on_error(ErrorMode::Continue);
        }
        if let Some(timeout) = self.timeout_ms {
            config = config.with_default_timeout_ms(timeout);
        }
        if let Some(max_bytes) = self.max_output_bytes {
            config = config.with_max_output_bytes(max_bytes);
        }
        config
    }
}

/// The first position of `=` in the text, from `from` on.
pub open spec fn equals_at(s: Seq<char>, from: int) -> Option<int>
    decreases s.len() - from,
{
    if 0 <= from < s.len() {
        if s[from] == '=' {
            Some(from)
        } else {
            equals_at(s, from + 1)
        }
    } else {
        None
    }
}

/// A `key=value` pair, or why the text is none.
pub open spec fn pair_of(s: Seq<char>) -> Result<(Seq<char>, Seq<char>), Seq<char>> {
    match equals_at(s, 0) {
        Some(i) => Ok((s.take(i), s.skip(i + 1))),
        None => Err("--param expects key=value, got '"@ + s + "'"@),
    }
}

/// The first `k` pairs, or why one is malformed.
pub open spec fn pairs_of(raw: Seq<Seq<char>>, k: int) -> Result<
    Seq<(Seq<char>, Seq<char>)>,
    Seq<char>,
>
    decreases k,
{
    if k <= 0 {
        Ok(Seq::empty())
    } else {
        match pairs_of(raw, k - 1) {
            Err(e) => Err(e),
            Ok(before) => match pair_of(raw[k - 1]) {
                Ok(p) => Ok(before.push(p)),
                Err(e) => Err(e),
            },
        }
    }
}

proof fn lemma_pairs_error(raw: Seq<Seq<char>>, k: int, n: int)
    requires
        0 <= k <= n,
        pairs_of(raw, k) is Err,
    ensures
        pairs_of(raw, n) == pairs_of(raw, k),
    decreases n,
{
    if k < n {
        lemma_pairs_error(raw, k, n - 1);
    }
}

fn split_pair(s: &str) -> (r: Result<(String, String), CliError>)
    ensures
        match (r, pair_of(s@)) {
            (Ok(p), Ok(m)) => (p.0@, p.1@) == m,
            (Err(e), Err(m)) => e@ == CliErrorV::Input(m),
            _ => false,
        },
{
    let chars = chars_of(s);
    let mut i: usize = 0;
    while i < chars.len()
        invariant
            i <= chars@.len(),
            chars@ == s@,
            equals_at(s@, 0) == equals_at(s@, i as int),
        decreases chars.len() - i,
    {
        if chars[i] == '=' {
            let key = text_of(&chars, 0, i);
            let value = text_of(&chars, i + 1, chars.len());
            assert(key@ =~= s@.take(i as int));
            assert(value@ =~= s@.skip(i + 1));
            return Ok((key, value));
        }
        i = i + 1;
    }
    Err(CliError::Input(wrapped("--param expects key=value, got '", s, "'")))
}

/// Splits `--param key=value` pairs.
pub fn split_params(raw: &Vec<String>) -> (r: Result<Vec<(String, String)>, CliError>)
    ensures
        match (r, pairs_of(texts_view(raw@), raw@.len() as int)) {
            (Ok(v), Ok(m)) => named_texts(v@) == m,
            (Err(e), Err(m)) => e@ == CliErrorV::Input(m),
            _ => false,
        },
{
    let ghost rs = texts_view(raw@);
    let mut out: Vec<(String, String)> = Vec::new();
    let mut i: usize = 0;
    assert(named_texts(out@) =~= Seq::empty());
    while i < raw.len()
        invariant
            i <= raw@.len(),
            rs == texts_view(raw@),
            pairs_of(rs, i as int) == Ok::<Seq<(Seq<char>, Seq<char>)>, Seq<char>>(
                named_texts(out@),
            ),
        decreases raw.len() - i,
    {
        assert(rs[i as int] == raw@[i as int]@);
        match split_pair(raw[i].as_str()) {
            Ok(pair) => {
                let ghost before = named_texts(out@);
                let ghost p = (pair.0@, pair.1@);
                out.push(pair);
                assert(named_texts(out@) =~= before.push(p));
            },
            Err(e) => {
                proof {
                    assert(pairs_of(rs, i + 1) is Err);
                    lemma_pairs_error(rs, i + 1, rs.len() as int);
                }
                return Err(e);
            },
        }
        i = i + 1;
    }
    Ok(out)
}

/// The parameters that the first `k` pairs give, each with what its value
/// parses to; a later pair wins.
pub open spec fn params_from(
    pairs: Seq<(Seq<char>, Seq<char>)>,
    parsed: Seq<Option<Json>>,
    k: int,
) -> Map<Seq<char>, Json>
    decreases k,
{
    if k <= 0 {
        Map::empty()
    } else {
        params_from(pairs, parsed, k - 1).insert(
            pairs[k - 1].0,
            match parsed[k - 1] {
                Some(v) => v,
                None => Json::Text(pairs[k - 1].1),
            },
        )
    }
}

/// The parameters that the pairs give. `parsed` holds what each value parses
/// to as JSON; one that does not parse is a text.
pub fn parse_params(pairs: &Vec<(String, String)>, parsed: &Vec<Option<Value>>) -> (r: StrMap<Value>)
    requires
        parsed@.len() == pairs@.len(),
    ensures
        map_view(r) == params_from(
            named_texts(pairs@),
            opt_values(parsed@),
            pairs@.len() as int,
        ),
{
    let ghost ps = named_texts(pairs@);
    let ghost vs = opt_values(parsed@);
    let mut out: StrMap<Value> = StrMap::new();
    let mut i: usize = 0;
    assert(map_view(out) =~= Map::empty());
    while i < pairs.len()
        invariant
            i <= pairs@.len(),
            parsed@.len() == pairs@.len(),
            ps == named_texts(pairs@),
            vs == opt_values(parsed@),
            map_view(out) == params_from(ps, vs, i as int),
        decreases pairs.len() - i,
    {
        assert(ps[i as int] == (pairs@[i as int].0@, pairs@[i as int].1@));
        assert(vs[i as int] == opt_view(parsed@[i as int]));
        let value = match &parsed[i] {
            Some(v) => v.clone(),
            None => Value::text(pairs[i].1.as_str()),
        };
        let ghost before = out;
        out.insert(pairs[i].0.clone(), value);
        proof {
            map_view_insert(before, out, ps[i as int].0, value);
        }
        i = i + 1;
    }
    out
}

} // verus!
