//! Runtime configuration: adapter bindings and tool capabilities.

use vstd::prelude::*;

use crate::adapters::fs::FsExecutor;
use crate::adapters::http::HttpClientConfig;
use crate::adapters::mcp::{DerivedCapability, DerivedV, McpServerConfig, McpTransport};
use crate::adapters::shell::ShellExecutor;
use crate::command::{CliError, CliErrorV};
use crate::ordered::StrMap;
use crate::runtime::prepared::Runtime;
use crate::runtime::registry::{CapabilitiesV, RegistryV, ToolCapabilities, ToolRegistry};
use crate::serve::served_tools;
use crate::text::{copy_texts, wrapped};

verus! {

use crate::adapters::fs::{at_least_one, DEFAULT_MAX_ENTRIES, DEFAULT_MAX_READ_BYTES};
use crate::adapters::http::DEFAULT_TIMEOUT_MS;
use crate::adapters::shell::DEFAULT_MAX_OUTPUT_BYTES;
use crate::ordered::{map_view, opt_view, pairs_view, sorted_pairs, views};
use crate::runtime::cache::empty_cache;
use crate::runtime::registry::{fresh_registry, no_capabilities};
use crate::runtime::result::lowercased;
use crate::serve::served;
use crate::text::texts_view;

/// Top-level runtime configuration.
pub struct RuntimeConfig {
    pub mcp: Vec<McpBinding>,
    pub fs: Vec<FsBinding>,
    pub shell: Vec<ShellBinding>,
    pub http: Vec<HttpBinding>,
    pub capabilities: Vec<CapabilityBinding>,
}

/// An adapter that speaks to an MCP server.
pub struct McpBinding {
    pub adapter: String,
    pub name: String,
    pub command: String,
    pub args: Vec<String>,
    pub env: StrMap<String>,
    pub env_clear: bool,
    pub inherit: Vec<String>,
    pub request_timeout_ms: Option<u64>,
    /// List the server's tools at startup and register adapter-scoped
    /// capabilities derived from their MCP annotations.
    pub hydrate: bool,
}

/// An adapter on a directory.
pub struct FsBinding {
    pub adapter: String,
    pub root: String,
    pub max_read_bytes: Option<usize>,
    pub max_entries: Option<usize>,
}

/// An adapter that runs programs.
pub struct ShellBinding {
    pub adapter: String,
    pub cwd: Option<String>,
    pub env: StrMap<String>,
    pub env_clear: bool,
    pub inherit: Vec<String>,
    pub default_timeout_ms: Option<u64>,
    pub max_output_bytes: Option<usize>,
}

/// An adapter that sends HTTP requests.
pub struct HttpBinding {
    pub adapter: String,
    pub base_url: Option<String>,
    pub default_headers: StrMap<String>,
    pub timeout_ms: Option<u64>,
}

/// Capabilities of one tool.
pub struct CapabilityBinding {
    pub tool: String,
    /// Scope the capabilities to one adapter (wins over unscoped entries).
    pub adapter: Option<String>,
    pub capabilities: ToolCapabilities,
}

// ---------------------------------------------------------------------------
// Executors
// ---------------------------------------------------------------------------

impl McpBinding {
    /// The server that the binding describes.
    pub fn server_config(&self) -> (r: McpServerConfig)
        ensures
            r.name@ == self.name@,
            r.request_timeout_ms == self.request_timeout_ms,
            match r.transport {
                McpTransport::Stdio { command, args, env, env_clear, inherit } => {
                    &&& command@ == self.command@
                    &&& texts_view(args@) == texts_view(self.args@)
                    &&& pairs_view(env) == pairs_view(self.env)
                    &&& env_clear == self.env_clear
                    &&& texts_view(inherit@) == texts_view(self.inherit@)
                },
                McpTransport::Http { .. } => false,
            },
    {
        McpServerConfig {
            name: self.name.clone(),
            transport: McpTransport::Stdio {
                command: self.command.clone(),
                args: copy_texts(&self.args),
                env: copy_texts_map(&self.env),
                env_clear: self.env_clear,
                inherit: copy_texts(&self.inherit),
            },
            request_timeout_ms: self.request_timeout_ms,
        }
    }
}

fn copy_texts_map(m: &StrMap<String>) -> (r: StrMap<String>)
    ensures
        pairs_view(r) == pairs_view(*m),
{
    let mut out: StrMap<String> = StrMap::new();
    m.prove_sorted();
    let mut i: usize = 0;
    while i < m.len()
        invariant
            i <= m.pairs().len(),
            sorted_pairs(m.pairs()),
            out.pairs().len() == i,
            forall|j: int|
                0 <= j < i ==> (#[trigger] out.pairs()[j]).0 == m.pairs()[j].0
                    && out.pairs()[j].1@ == m.pairs()[j].1@,
        decreases m.pairs().len() - i,
    {
        let key = m.key_at(i).to_owned();
        assert forall|j: int| 0 <= j < out.pairs().len() implies crate::text::lex_less(
            #[trigger] out.pairs()[j].0,
            key@,
        ) by {
            assert(crate::text::lex_less(m.pairs()[j].0, m.pairs()[i as int].0));
        }
        out.push(key, m.value_at(i).clone());
        i = i + 1;
    }
    assert(pairs_view(out) =~= pairs_view(*m));
    out
}

/// The configured limit, at least one, or the default.
pub open spec fn limit_of(configured: Option<usize>, fallback: usize) -> usize {
    match configured {
        Some(n) => at_least_one(n),
        None => fallback,
    }
}

impl FsBinding {
    /// The executor that the binding describes.
    pub fn executor(&self) -> (r: FsExecutor)
        ensures
            r.root@ == self.root@,
            r.max_read_bytes == limit_of(self.max_read_bytes, DEFAULT_MAX_READ_BYTES),
            r.max_entries == limit_of(self.max_entries, DEFAULT_MAX_ENTRIES),
    {
        let mut executor = FsExecutor::new(self.root.as_str());
        if let Some(max_bytes) = self.max_read_bytes {
            executor = executor.with_max_read_bytes(max_bytes);
        }
        if let Some(max_entries) = self.max_entries {
            executor = executor.with_max_entries(max_entries);
        }
        executor
    }
}

impl ShellBinding {
    /// The executor that the binding describes.
    pub fn executor(&self) -> (r: ShellExecutor)
        ensures
            opt_view(r.cwd) == opt_view(self.cwd),
            map_view(r.env) == map_view(self.env),
            r.env_clear == self.env_clear,
            texts_view(r.inherit@) == texts_view(self.inherit@),
            r.default_timeout_ms == self.default_timeout_ms,
            r.max_output_bytes == limit_of(self.max_output_bytes, DEFAULT_MAX_OUTPUT_BYTES),
    {
        let mut executor = ShellExecutor::new().with_env_clear(self.env_clear);
        if let Some(cwd) = &self.cwd {
            executor = executor.with_cwd(cwd.as_str());
        }
        let env = copy_texts_map(&self.env);
        env.prove_sorted();
        self.env.prove_sorted();
        proof {
            crate::runtime::wiring::lemma_map_views(env);
            crate::runtime::wiring::lemma_map_views(self.env);
        }
        executor.env = env;
        executor.inherit = copy_texts(&self.inherit);
        if let Some(timeout) = self.default_timeout_ms {
            executor = executor.with_default_timeout_ms(timeout);
        }
        if let Some(max_bytes) = self.max_output_bytes {
            executor = executor.with_max_output_bytes(max_bytes);
        }
        executor
    }
}

/// The default headers that the first `k` entries give; their names are
/// lower-cased, and a later one wins.
pub open spec fn headers_from(pairs: Seq<(Seq<char>, Seq<char>)>, k: int) -> Map<
    Seq<char>,
    Seq<char>,
>
    decreases k,
{
    if k <= 0 {
        Map::empty()
    } else {
        headers_from(pairs, k - 1).insert(lowercased(pairs[k - 1].0), pairs[k - 1].1)
    }
}

impl HttpBinding {
    /// The client that the binding describes.
    pub fn client(&self) -> (r: HttpClientConfig)
        ensures
            opt_view(r.base_url) == opt_view(self.base_url),
            map_view(r.default_headers) == headers_from(
                pairs_view(self.default_headers),
                self.default_headers.pairs().len() as int,
            ),
            r.timeout_ms == match self.timeout_ms {
                Some(ms) => ms,
                None => DEFAULT_TIMEOUT_MS,
            },
    {
        let mut client = match self.timeout_ms {
            Some(timeout) => HttpClientConfig::with_timeout(timeout),
            None => HttpClientConfig::new(),
        };
        if let Some(base_url) = &self.base_url {
            client = client.with_base_url(base_url.as_str());
        }
        let ghost pairs = pairs_view(self.default_headers);
        let ghost base = opt_view(client.base_url);
        let ghost timeout = client.timeout_ms;
        assert(map_view(client.default_headers) =~= Map::empty());
        let mut i: usize = 0;
        while i < self.default_headers.len()
            invariant
                i <= self.default_headers.pairs().len(),
                pairs == pairs_view(self.default_headers),
                base == opt_view(client.base_url),
                timeout == client.timeout_ms,
                map_view(client.default_headers) == headers_from(pairs, i as int),
            decreases self.default_headers.pairs().len() - i,
        {
            let name = self.default_headers.key_at(i);
            let value = self.default_headers.value_at(i);
            assert(pairs[i as int] == (name@, value@));
            client = client.with_default_header(name, value.as_str());
            i = i + 1;
        }
        client
    }
}

// ---------------------------------------------------------------------------
// Registry
// ---------------------------------------------------------------------------

/// The registry with the first `k` served tools blocked.
pub open spec fn with_served_blocked(r: RegistryV, k: int) -> RegistryV
    decreases k,
{
    if k <= 0 {
        r
    } else {
        let before = with_served_blocked(r, k - 1);
        RegistryV { blocked: before.blocked.insert(served()[k - 1]), ..before }
    }
}

/// The registry of a runtime that is not configured: the `local` example
/// adapter and the built-in data adapter. A plan must never call the
/// compiler's own tools through a configured adapter, so those are blocked.
pub open spec fn base_registry() -> RegistryV {
    with_served_blocked(
        RegistryV {
            adapters: fresh_registry().adapters.insert("local"@),
            ..fresh_registry()
        },
        served().len() as int,
    )
}

/// The registry with adapters of these names.
pub open spec fn with_adapters(r: RegistryV, names: Seq<Seq<char>>, k: int) -> RegistryV
    decreases k,
{
    if k <= 0 {
        r
    } else {
        let before = with_adapters(r, names, k - 1);
        RegistryV { adapters: before.adapters.insert(names[k - 1]), ..before }
    }
}

/// The capabilities that a server declares for a tool.
pub open spec fn declared_capabilities(d: DerivedV) -> CapabilitiesV {
    CapabilitiesV {
        effects: Some(d.effects),
        input_schema: d.input_schema,
        ..no_capabilities()
    }
}

/// The registry with what a server declares, scoped to its adapter.
pub open spec fn with_derived(r: RegistryV, adapter: Seq<char>, ds: Seq<DerivedV>, k: int) -> RegistryV
    decreases k,
{
    if k <= 0 {
        r
    } else {
        let before = with_derived(r, adapter, ds, k - 1);
        RegistryV {
            scoped: before.scoped.insert(
                (adapter, ds[k - 1].tool),
                declared_capabilities(ds[k - 1]),
            ),
            ..before
        }
    }
}

/// The registry with the first `k` MCP servers; only those that hydrate
/// bring capabilities.
pub open spec fn with_servers(
    r: RegistryV,
    bindings: Seq<McpBinding>,
    derived: Seq<Seq<DerivedV>>,
    k: int,
) -> RegistryV
    decreases k,
{
    if k <= 0 {
        r
    } else {
        let before = with_servers(r, bindings, derived, k - 1);
        let b = bindings[k - 1];
        let known = if b.hydrate {
            with_derived(before, b.adapter@, derived[k - 1], derived[k - 1].len() as int)
        } else {
            before
        };
        RegistryV { adapters: known.adapters.insert(b.adapter@), ..known }
    }
}

/// The registry with the first `k` capability bindings.
pub open spec fn with_bindings(r: RegistryV, bindings: Seq<CapabilityBinding>, k: int) -> RegistryV
    decreases k,
{
    if k <= 0 {
        r
    } else {
        let before = with_bindings(r, bindings, k - 1);
        let b = bindings[k - 1];
        match b.adapter {
            Some(a) => RegistryV {
                scoped: before.scoped.insert((a@, b.tool@), b.capabilities@),
                ..before
            },
            None => RegistryV {
                global: before.global.insert(b.tool@, b.capabilities@),
                ..before
            },
        }
    }
}

/// The names of the file system adapters.
pub open spec fn fs_names(s: Seq<FsBinding>) -> Seq<Seq<char>> {
    Seq::new(s.len(), |i: int| s[i].adapter@)
}

/// The names of the shell adapters.
pub open spec fn shell_names(s: Seq<ShellBinding>) -> Seq<Seq<char>> {
    Seq::new(s.len(), |i: int| s[i].adapter@)
}

/// The names of the HTTP adapters.
pub open spec fn http_names(s: Seq<HttpBinding>) -> Seq<Seq<char>> {
    Seq::new(s.len(), |i: int| s[i].adapter@)
}

/// What each server declares.
pub open spec fn derived_views(s: Seq<Vec<DerivedCapability>>) -> Seq<Seq<DerivedV>> {
    Seq::new(s.len(), |i: int| views(s[i]@))
}

/// The registry that a configuration gives.
pub open spec fn configured(config: RuntimeConfig, derived: Seq<Seq<DerivedV>>) -> RegistryV {
    let servers = with_servers(
        base_registry(),
        config.mcp@,
        derived,
        config.mcp@.len() as int,
    );
    let fs = with_adapters(servers, fs_names(config.fs@), config.fs@.len() as int);
    let shell = with_adapters(fs, shell_names(config.shell@), config.shell@.len() as int);
    let http = with_adapters(shell, http_names(config.http@), config.http@.len() as int);
    with_bindings(http, config.capabilities@, config.capabilities@.len() as int)
}

fn unconfigured_registry() -> (r: ToolRegistry)
    ensures
        r@ == base_registry(),
{
    let mut registry = ToolRegistry::new().with_adapter("local");
    let ghost start = registry@;
    let tools = served_tools();
    let mut i: usize = 0;
    while i < tools.len()
        invariant
            i <= tools@.len(),
            tools@.len() == served().len(),
            forall|j: int| 0 <= j < tools@.len() ==> (#[trigger] tools@[j])@ == served()[j],
            registry@ == with_served_blocked(start, i as int),
        decreases tools.len() - i,
    {
        assert(tools@[i as int]@ == served()[i as int]);
        registry.block_tool(tools[i]);
        i = i + 1;
    }
    registry
}

/// Registers what a server declares, scoped to its adapter.
pub fn register_derived(registry: &mut ToolRegistry, adapter: &str, derived: &Vec<DerivedCapability>)
    ensures
        final(registry)@ == with_derived(
            old(registry)@,
            adapter@,
            views(derived@),
            derived@.len() as int,
        ),
{
    let ghost ds = views(derived@);
    let mut i: usize = 0;
    while i < derived.len()
        invariant
            i <= derived@.len(),
            ds == views(derived@),
            registry@ == with_derived(old(registry)@, adapter@, ds, i as int),
        decreases derived.len() - i,
    {
        let one = &derived[i];
        assert(ds[i as int] == one@);
        let mut capabilities = ToolCapabilities::new().with_effects(one.effects.clone());
        if let Some(schema) = &one.input_schema {
            capabilities = capabilities.with_input_schema(schema.clone());
        }
        assert(capabilities@ =~= declared_capabilities(one@));
        registry.register_adapter_tool_capabilities(adapter, one.tool.as_str(), capabilities);
        i = i + 1;
    }
}

fn register_servers(
    registry: &mut ToolRegistry,
    bindings: &Vec<McpBinding>,
    derived: &Vec<Vec<DerivedCapability>>,
)
    requires
        derived@.len() == bindings@.len(),
    ensures
        final(registry)@ == with_servers(
            old(registry)@,
            bindings@,
            derived_views(derived@),
            bindings@.len() as int,
        ),
{
    let ghost ds = derived_views(derived@);
    let mut i: usize = 0;
    while i < bindings.len()
        invariant
            i <= bindings@.len(),
            derived@.len() == bindings@.len(),
            ds == derived_views(derived@),
            registry@ == with_servers(old(registry)@, bindings@, ds, i as int),
        decreases bindings.len() - i,
    {
        assert(ds[i as int] == views(derived@[i as int]@));
        if bindings[i].hydrate {
            register_derived(registry, bindings[i].adapter.as_str(), &derived[i]);
        }
        registry.register_adapter(bindings[i].adapter.as_str());
        i = i + 1;
    }
}

fn register_bindings(registry: &mut ToolRegistry, bindings: &Vec<CapabilityBinding>)
    ensures
        final(registry)@ == with_bindings(
            old(registry)@,
            bindings@,
            bindings@.len() as int,
        ),
{
    let mut i: usize = 0;
    while i < bindings.len()
        invariant
            i <= bindings@.len(),
            registry@ == with_bindings(old(registry)@, bindings@, i as int),
        decreases bindings.len() - i,
    {
        let b = &bindings[i];
        match &b.adapter {
            Some(adapter) => registry.register_adapter_tool_capabilities(
                adapter.as_str(),
                b.tool.as_str(),
                b.capabilities.clone(),
            ),
            None => registry.register_tool_capabilities(b.tool.as_str(), b.capabilities.clone()),
        }
        i = i + 1;
    }
}

/// Builds a runtime from an optional configuration. `derived` holds, for
/// each MCP server of the configuration, what its tool list gave; it is read
/// for the servers that hydrate.
pub fn configured_runtime(
    config: Option<&RuntimeConfig>,
    derived: &Vec<Vec<DerivedCapability>>,
) -> (r: Runtime)
    requires
        config matches Some(c) ==> derived@.len() == c.mcp@.len(),
    ensures
        r.known() == match config {
            None => base_registry(),
            Some(c) => configured(*c, derived_views(derived@)),
        },
        r.cache@ == empty_cache(crate::runtime::cache::DEFAULT_MAX_ENTRIES as nat, None),
{
    let mut registry = unconfigured_registry();
    if let Some(c) = config {
        register_servers(&mut registry, &c.mcp, derived);
        let ghost after_mcp = registry@;
        let mut i: usize = 0;
        while i < c.fs.len()
            invariant
                i <= c.fs@.len(),
                registry@ == with_adapters(after_mcp, fs_names(c.fs@), i as int),
            decreases c.fs.len() - i,
        {
            assert(fs_names(c.fs@)[i as int] == c.fs@[i as int].adapter@);
            registry.register_adapter(c.fs[i].adapter.as_str());
            i = i + 1;
        }
        let ghost after_fs = registry@;
        let mut j: usize = 0;
        while j < c.shell.len()
            invariant
                j <= c.shell@.len(),
                registry@ == with_adapters(after_fs, shell_names(c.shell@), j as int),
            decreases c.shell.len() - j,
        {
            assert(shell_names(c.shell@)[j as int] == c.shell@[j as int].adapter@);
            registry.register_adapter(c.shell[j].adapter.as_str());
            j = j + 1;
        }
        let ghost after_shell = registry@;
        let mut k: usize = 0;
        while k < c.http.len()
            invariant
                k <= c.http@.len(),
                registry@ == with_adapters(after_shell, http_names(c.http@), k as int),
            decreases c.http.len() - k,
        {
            assert(http_names(c.http@)[k as int] == c.http@[k as int].adapter@);
            registry.register_adapter(c.http[k].adapter.as_str());
            k = k + 1;
        }
        register_bindings(&mut registry, &c.capabilities);
    }
    Runtime::from_registry(registry)
}

/// The error of a server whose tool list could not be read.
pub fn hydration_error(path: &str, adapter: &str, error: &str) -> (r: CliError)
    ensures
        r@ == (CliErrorV::Config {
            path: path@,
            message: "hydrating '"@ + adapter@ + "': "@ + error@,
        }),
{
    let mut message = wrapped("hydrating '", adapter, "': ");
    message.push_str(error);
    CliError::config(path, message.as_str())
}

// ---------------------------------------------------------------------------
// Laws
// ---------------------------------------------------------------------------

proof fn lemma_derived_keeps(r: RegistryV, adapter: Seq<char>, ds: Seq<DerivedV>, k: int)
    ensures
        with_derived(r, adapter, ds, k).blocked == r.blocked,
        with_derived(r, adapter, ds, k).adapters == r.adapters,
    decreases k,
{
    if k > 0 {
        lemma_derived_keeps(r, adapter, ds, k - 1);
    }
}

proof fn lemma_servers_keep(
    r: RegistryV,
    bindings: Seq<McpBinding>,
    derived: Seq<Seq<DerivedV>>,
    k: int,
)
    ensures
        with_servers(r, bindings, derived, k).blocked == r.blocked,
        r.adapters.subset_of(with_servers(r, bindings, derived, k).adapters),
    decreases k,
{
    if k > 0 {
        lemma_servers_keep(r, bindings, derived, k - 1);
        let before = with_servers(r, bindings, derived, k - 1);
        lemma_derived_keeps(
            before,
            bindings[k - 1].adapter@,
            derived[k - 1],
            derived[k - 1].len() as int,
        );
    }
}

proof fn lemma_adapters_keep(r: RegistryV, names: Seq<Seq<char>>, k: int)
    ensures
        with_adapters(r, names, k).blocked == r.blocked,
        r.adapters.subset_of(with_adapters(r, names, k).adapters),
    decreases k,
{
    if k > 0 {
        lemma_adapters_keep(r, names, k - 1);
    }
}

proof fn lemma_bindings_keep(r: RegistryV, bindings: Seq<CapabilityBinding>, k: int)
    ensures
        with_bindings(r, bindings, k).blocked == r.blocked,
        with_bindings(r, bindings, k).adapters == r.adapters,
    decreases k,
{
    if k > 0 {
        lemma_bindings_keep(r, bindings, k - 1);
    }
}

proof fn lemma_blocked(r: RegistryV, k: int, i: int)
    requires
        0 <= i < k,
    ensures
        with_served_blocked(r, k).blocked.contains(served()[i]),
        with_served_blocked(r, k).adapters == r.adapters,
    decreases k,
{
    if i < k - 1 {
        lemma_blocked(r, k - 1, i);
    } else if k > 1 {
        lemma_blocked(r, k - 1, 0);
    } else {
        assert(with_served_blocked(r, 0) == r);
    }
}

/// Whatever is configured, the compiler's own tools stay blocked, and the
/// `local` and built-in adapters stay registered.
pub proof fn served_tools_stay_blocked(config: RuntimeConfig, derived: Seq<Seq<DerivedV>>, i: int)
    requires
        0 <= i < served().len(),
    ensures
        base_registry().blocked.contains(served()[i]),
        configured(config, derived).blocked.contains(served()[i]),
        configured(config, derived).adapters.contains("local"@),
        configured(config, derived).adapters.contains(
            crate::runtime::registry::BUILTIN_ADAPTER@,
        ),
{
    let start = RegistryV {
        adapters: fresh_registry().adapters.insert("local"@),
        ..fresh_registry()
    };
    lemma_blocked(start, served().len() as int, i);
    lemma_fresh_adapters(
        RegistryV {
            adapters: set![crate::runtime::registry::BUILTIN_ADAPTER@],
            ..crate::runtime::registry::bare_registry()
        },
        crate::runtime::builtin::builtin_names().len(),
    );
    let servers = with_servers(
        base_registry(),
        config.mcp@,
        derived,
        config.mcp@.len() as int,
    );
    lemma_servers_keep(base_registry(), config.mcp@, derived, config.mcp@.len() as int);
    lemma_adapters_keep(servers, fs_names(config.fs@), config.fs@.len() as int);
    let fs = with_adapters(servers, fs_names(config.fs@), config.fs@.len() as int);
    lemma_adapters_keep(fs, shell_names(config.shell@), config.shell@.len() as int);
    let shell = with_adapters(fs, shell_names(config.shell@), config.shell@.len() as int);
    lemma_adapters_keep(shell, http_names(config.http@), config.http@.len() as int);
    let http = with_adapters(shell, http_names(config.http@), config.http@.len() as int);
    lemma_bindings_keep(http, config.capabilities@, config.capabilities@.len() as int);
}

proof fn lemma_fresh_adapters(r: RegistryV, n: nat)
    ensures
        crate::runtime::registry::with_builtins(r, n).adapters == r.adapters,
    decreases n,
{
    if n > 0 {
        lemma_fresh_adapters(r, (n - 1) as nat);
    }
}

} // verus!
