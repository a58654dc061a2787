//! Configuration and command line: parameters, limits and registries.

use vstd::prelude::*;

use crate::configure::{CapabilityBinding, McpBinding, RuntimeConfig};
use crate::json::Json;
use crate::adapters::mcp::DerivedV;
use crate::runtime::registry::RegistryV;

verus! {

use crate::command::{equals_at, pair_of, pairs_of, params_from};
use crate::configure::{
    base_registry, configured, fs_names, headers_from, http_names, limit_of, shell_names,
    with_adapters, with_bindings, with_derived, with_servers,
};
use crate::runtime::result::lowercased;

// ---------------------------------------------------------------------------
// Parameters
// ---------------------------------------------------------------------------

proof fn lemma_equals_at(s: Seq<char>, from: int, at: int)
    requires
        0 <= from <= at <= s.len(),
        forall|i: int| from <= i < at ==> (#[trigger] s[i]) != '=',
    ensures
        at < s.len() && s[at] == '=' ==> equals_at(s, from) == Some(at),
        at == s.len() ==> equals_at(s, from) is None,
    decreases at - from,
{
    if from < at {
        assert(s[from] != '=');
        lemma_equals_at(s, from + 1, at);
    }
}

/// A parameter is cut at its first `=`: what stands before it is the key, and
/// all the rest, further `=` too, is the value. A text without `=` is none.
pub proof fn parameters_are_cut_at_the_first_equals(key: Seq<char>, value: Seq<char>)
    requires
        !key.contains('='),
    ensures
        pair_of(key + seq!['='] + value) == Ok::<(Seq<char>, Seq<char>), Seq<char>>((key, value)),
        pair_of(key) is Err,
{
    let s = key + seq!['='] + value;
    let n = key.len() as int;
    assert forall|i: int| 0 <= i < n implies (#[trigger] s[i]) != '=' by {
        assert(key.contains(key[i]));
    }
    assert forall|i: int| 0 <= i < n implies (#[trigger] key[i]) != '=' by {
        assert(key.contains(key[i]));
    }
    assert(s[n] == '=');
    lemma_equals_at(s, 0, n);
    lemma_equals_at(key, 0, n);
    assert(s.take(n) =~= key);
    assert(s.skip(n + 1) =~= value);
}

/// Parameters are read one by one and in order, and all of them have to be
/// well-formed.
pub proof fn every_parameter_is_read(raw: Seq<Seq<char>>, k: int)
    requires
        0 <= k <= raw.len(),
    ensures
        pairs_of(raw, k) is Ok <==> forall|i: int| 0 <= i < k ==> pair_of(#[trigger] raw[i]) is Ok,
        pairs_of(raw, k) matches Ok(pairs) ==> pairs.len() == k && forall|i: int|
            0 <= i < k ==> pair_of(#[trigger] raw[i]) == Ok::<
                (Seq<char>, Seq<char>),
                Seq<char>,
            >(pairs[i]),
    decreases k,
{
    if k > 0 {
        every_parameter_is_read(raw, k - 1);
        if pairs_of(raw, k) is Ok {
            assert forall|i: int| 0 <= i < k implies pair_of(#[trigger] raw[i]) == Ok::<
                (Seq<char>, Seq<char>),
                Seq<char>,
            >(pairs_of(raw, k)->Ok_0[i]) by {
                if i < k - 1 {
                    assert(pair_of(raw[i]) is Ok);
                }
            }
        } else if pairs_of(raw, k - 1) is Ok {
            assert(pair_of(raw[k - 1]) is Err);
        }
    }
}

/// A parameter has the value of its last pair: the document that the text
/// parses to, or the text itself. No other parameter has a value.
pub proof fn last_parameters_win(
    pairs: Seq<(Seq<char>, Seq<char>)>,
    parsed: Seq<Option<Json>>,
    k: int,
    j: int,
)
    requires
        0 <= j < k <= pairs.len(),
        pairs.len() == parsed.len(),
        forall|i: int| j < i < k ==> (#[trigger] pairs[i]).0 != pairs[j].0,
    ensures
        params_from(pairs, parsed, k).dom().contains(pairs[j].0),
        parsed[j] matches Some(v) ==> params_from(pairs, parsed, k)[pairs[j].0] == v,
        parsed[j] is None ==> params_from(pairs, parsed, k)[pairs[j].0] == Json::Text(pairs[j].1),
    decreases k,
{
    if j < k - 1 {
        assert(pairs[k - 1].0 != pairs[j].0);
        last_parameters_win(pairs, parsed, k - 1, j);
    }
}

/// Only parameters that were given have a value.
pub proof fn only_given_parameters_are_set(
    pairs: Seq<(Seq<char>, Seq<char>)>,
    parsed: Seq<Option<Json>>,
    k: int,
    name: Seq<char>,
)
    requires
        0 <= k <= pairs.len(),
        forall|i: int| 0 <= i < k ==> (#[trigger] pairs[i]).0 != name,
    ensures
        !params_from(pairs, parsed, k).dom().contains(name),
    decreases k,
{
    if k > 0 {
        assert(pairs[k - 1].0 != name);
        only_given_parameters_are_set(pairs, parsed, k - 1, name);
    }
}

// ---------------------------------------------------------------------------
// Adapters
// ---------------------------------------------------------------------------

/// A configured limit holds as it is, one of zero counts as one, and without
/// one the default holds.
pub proof fn limits_are_at_least_one(n: usize, fallback: usize)
    ensures
        limit_of(None, fallback) == fallback,
        limit_of(Some(0), fallback) == 1,
        n >= 1 ==> limit_of(Some(n), fallback) == n,
{
}

/// Default headers are sent under their lower-cased names, and the last of
/// two with the same name wins.
pub proof fn default_headers_are_lowercased(pairs: Seq<(Seq<char>, Seq<char>)>, k: int, j: int)
    requires
        0 <= j < k <= pairs.len(),
        forall|i: int|
            j < i < k ==> lowercased((#[trigger] pairs[i]).0) != lowercased(pairs[j].0),
    ensures
        headers_from(pairs, k).dom().contains(lowercased(pairs[j].0)),
        headers_from(pairs, k)[lowercased(pairs[j].0)] == pairs[j].1,
    decreases k,
{
    if j < k - 1 {
        assert(lowercased(pairs[k - 1].0) != lowercased(pairs[j].0));
        default_headers_are_lowercased(pairs, k - 1, j);
    }
}

proof fn lemma_derived_others(
    r: RegistryV,
    adapter: Seq<char>,
    ds: Seq<DerivedV>,
    k: int,
    key: (Seq<char>, Seq<char>),
)
    requires
        0 <= k <= ds.len(),
    ensures
        with_derived(r, adapter, ds, k).adapters == r.adapters,
        key.0 != adapter ==> with_derived(r, adapter, ds, k).scoped.dom().contains(key)
            == r.scoped.dom().contains(key) && with_derived(r, adapter, ds, k).scoped[key]
            == r.scoped[key],
    decreases k,
{
    if k > 0 {
        lemma_derived_others(r, adapter, ds, k - 1, key);
    }
}

proof fn lemma_derived_tool(r: RegistryV, adapter: Seq<char>, ds: Seq<DerivedV>, k: int, d: int)
    requires
        0 <= d < k <= ds.len(),
        forall|x: int| d < x < k ==> (#[trigger] ds[x]).tool != ds[d].tool,
    ensures
        with_derived(r, adapter, ds, k).scoped.dom().contains((adapter, ds[d].tool)),
        with_derived(r, adapter, ds, k).scoped[(adapter, ds[d].tool)].effects == Some(
            ds[d].effects,
        ),
        with_derived(r, adapter, ds, k).scoped[(adapter, ds[d].tool)].input_schema
            == ds[d].input_schema,
    decreases k,
{
    if d < k - 1 {
        assert(ds[k - 1].tool != ds[d].tool);
        lemma_derived_tool(r, adapter, ds, k - 1, d);
    }
}

/// What a server declares for its tools is known under its adapter, when the
/// binding asks for it, and the effects and schemas are those declared.
pub proof fn declared_tools_are_known(
    r: RegistryV,
    bindings: Seq<McpBinding>,
    derived: Seq<Seq<DerivedV>>,
    k: int,
    b: int,
    d: int,
)
    requires
        0 <= b < k <= bindings.len(),
        derived.len() == bindings.len(),
        bindings[b].hydrate,
        0 <= d < derived[b].len(),
        forall|x: int| d < x < derived[b].len() ==> (#[trigger] derived[b][x]).tool != derived[b][d].tool,
        forall|x: int| b < x < k ==> (#[trigger] bindings[x]).adapter@ != bindings[b].adapter@,
    ensures
        with_servers(r, bindings, derived, k).scoped.dom().contains(
            (bindings[b].adapter@, derived[b][d].tool),
        ),
        with_servers(r, bindings, derived, k).scoped[(
            bindings[b].adapter@,
            derived[b][d].tool,
        )].effects == Some(derived[b][d].effects),
        with_servers(r, bindings, derived, k).scoped[(
            bindings[b].adapter@,
            derived[b][d].tool,
        )].input_schema == derived[b][d].input_schema,
    decreases k,
{
    let before = with_servers(r, bindings, derived, k - 1);
    if b < k - 1 {
        declared_tools_are_known(r, bindings, derived, k - 1, b, d);
        assert(bindings[k - 1].adapter@ != bindings[b].adapter@);
        lemma_derived_others(
            before,
            bindings[k - 1].adapter@,
            derived[k - 1],
            derived[k - 1].len() as int,
            (bindings[b].adapter@, derived[b][d].tool),
        );
    } else {
        lemma_derived_tool(before, bindings[b].adapter@, derived[b], derived[b].len() as int, d);
    }
}

/// A server whose binding does not ask for it brings no capabilities.
pub proof fn other_servers_declare_nothing(
    r: RegistryV,
    bindings: Seq<McpBinding>,
    derived: Seq<Seq<DerivedV>>,
    k: int,
)
    requires
        0 <= k <= bindings.len(),
        forall|x: int| 0 <= x < k ==> !(#[trigger] bindings[x]).hydrate,
    ensures
        with_servers(r, bindings, derived, k).scoped == r.scoped,
        with_servers(r, bindings, derived, k).global == r.global,
    decreases k,
{
    if k > 0 {
        other_servers_declare_nothing(r, bindings, derived, k - 1);
        assert(!bindings[k - 1].hydrate);
    }
}

proof fn lemma_server_adapters(
    r: RegistryV,
    bindings: Seq<McpBinding>,
    derived: Seq<Seq<DerivedV>>,
    k: int,
    name: Seq<char>,
)
    requires
        0 <= k <= bindings.len(),
        derived.len() == bindings.len(),
    ensures
        with_servers(r, bindings, derived, k).adapters.contains(name) <==> r.adapters.contains(name)
            || exists|i: int| 0 <= i < k && (#[trigger] bindings[i]).adapter@ == name,
    decreases k,
{
    if k > 0 {
        lemma_server_adapters(r, bindings, derived, k - 1, name);
        lemma_derived_others(
            with_servers(r, bindings, derived, k - 1),
            bindings[k - 1].adapter@,
            derived[k - 1],
            derived[k - 1].len() as int,
            (name, name),
        );
        if bindings[k - 1].adapter@ == name {
            assert(with_servers(r, bindings, derived, k).adapters.contains(name));
        }
    }
}

proof fn lemma_adapters(r: RegistryV, names: Seq<Seq<char>>, k: int, name: Seq<char>)
    requires
        0 <= k <= names.len(),
    ensures
        with_adapters(r, names, k).adapters.contains(name) <==> r.adapters.contains(name) || exists|
            i: int,
        |
            0 <= i < k && #[trigger] names[i] == name,
        with_adapters(r, names, k).scoped == r.scoped,
        with_adapters(r, names, k).global == r.global,
    decreases k,
{
    if k > 0 {
        lemma_adapters(r, names, k - 1, name);
        if names[k - 1] == name {
            assert(with_adapters(r, names, k).adapters.contains(name));
        }
    }
}

proof fn lemma_binding_adapters(r: RegistryV, bindings: Seq<CapabilityBinding>, k: int)
    ensures
        with_bindings(r, bindings, k).adapters == r.adapters,
    decreases k,
{
    if k > 0 {
        lemma_binding_adapters(r, bindings, k - 1);
    }
}

/// The configuration names the adapter.
pub open spec fn names_adapter(config: RuntimeConfig, name: Seq<char>) -> bool {
    ||| exists|i: int| 0 <= i < config.mcp@.len() && (#[trigger] config.mcp@[i]).adapter@ == name
    ||| exists|i: int| 0 <= i < config.fs@.len() && (#[trigger] config.fs@[i]).adapter@ == name
    ||| exists|i: int| 0 <= i < config.shell@.len() && (#[trigger] config.shell@[i]).adapter@ == name
    ||| exists|i: int| 0 <= i < config.http@.len() && (#[trigger] config.http@[i]).adapter@ == name
}

/// Exactly the adapters that the configuration names are added to those of a
/// runtime that is not configured.
pub proof fn configured_adapters_are_registered(
    config: RuntimeConfig,
    derived: Seq<Seq<DerivedV>>,
    name: Seq<char>,
)
    requires
        derived.len() == config.mcp@.len(),
    ensures
        configured(config, derived).adapters.contains(name) <==> base_registry().adapters.contains(
            name,
        ) || names_adapter(config, name),
{
    let servers = with_servers(base_registry(), config.mcp@, derived, config.mcp@.len() as int);
    let fs = with_adapters(servers, fs_names(config.fs@), config.fs@.len() as int);
    let shell = with_adapters(fs, shell_names(config.shell@), config.shell@.len() as int);
    let http = with_adapters(shell, http_names(config.http@), config.http@.len() as int);
    lemma_server_adapters(base_registry(), config.mcp@, derived, config.mcp@.len() as int, name);
    lemma_adapters(servers, fs_names(config.fs@), config.fs@.len() as int, name);
    lemma_adapters(fs, shell_names(config.shell@), config.shell@.len() as int, name);
    lemma_adapters(shell, http_names(config.http@), config.http@.len() as int, name);
    lemma_binding_adapters(http, config.capabilities@, config.capabilities@.len() as int);
    assert((exists|i: int| 0 <= i < config.fs@.len() && (#[trigger] config.fs@[i]).adapter@ == name)
        ==> exists|i: int| 0 <= i < config.fs@.len() && #[trigger] fs_names(config.fs@)[i] == name)
        by {
        if exists|i: int| 0 <= i < config.fs@.len() && (#[trigger] config.fs@[i]).adapter@ == name {
            let i = choose|i: int|
                0 <= i < config.fs@.len() && (#[trigger] config.fs@[i]).adapter@ == name;
            assert(fs_names(config.fs@)[i] == name);
        }
    }
    assert((exists|i: int|
        0 <= i < config.shell@.len() && (#[trigger] config.shell@[i]).adapter@ == name) ==> exists|
        i: int,
    |
        0 <= i < config.shell@.len() && #[trigger] shell_names(config.shell@)[i] == name) by {
        if exists|i: int|
            0 <= i < config.shell@.len() && (#[trigger] config.shell@[i]).adapter@ == name {
            let i = choose|i: int|
                0 <= i < config.shell@.len() && (#[trigger] config.shell@[i]).adapter@ == name;
            assert(shell_names(config.shell@)[i] == name);
        }
    }
    assert((exists|i: int|
        0 <= i < config.http@.len() && (#[trigger] config.http@[i]).adapter@ == name) ==> exists|
        i: int,
    |
        0 <= i < config.http@.len() && #[trigger] http_names(config.http@)[i] == name) by {
        if exists|i: int|
            0 <= i < config.http@.len() && (#[trigger] config.http@[i]).adapter@ == name {
            let i = choose|i: int|
                0 <= i < config.http@.len() && (#[trigger] config.http@[i]).adapter@ == name;
            assert(http_names(config.http@)[i] == name);
        }
    }
}

/// The binding speaks of the tool in the scope.
pub open spec fn speaks_of(b: CapabilityBinding, scope: Option<Seq<char>>, tool: Seq<char>) -> bool {
    &&& b.tool@ == tool
    &&& match b.adapter {
        Some(a) => scope == Some(a@),
        None => scope is None,
    }
}

proof fn lemma_last_binding(
    r: RegistryV,
    bindings: Seq<CapabilityBinding>,
    k: int,
    j: int,
    scope: Option<Seq<char>>,
)
    requires
        0 <= j < k <= bindings.len(),
        speaks_of(bindings[j], scope, bindings[j].tool@),
        forall|x: int|
            j < x < k ==> !speaks_of(#[trigger] bindings[x], scope, bindings[j].tool@),
    ensures
        scope matches Some(a) ==> {
            let scoped = with_bindings(r, bindings, k).scoped;
            &&& scoped.dom().contains((a, bindings[j].tool@))
            &&& scoped[(a, bindings[j].tool@)] == bindings[j].capabilities@
        },
        scope is None ==> {
            let global = with_bindings(r, bindings, k).global;
            &&& global.dom().contains(bindings[j].tool@)
            &&& global[bindings[j].tool@] == bindings[j].capabilities@
        },
    decreases k,
{
    if j < k - 1 {
        assert(!speaks_of(bindings[k - 1], scope, bindings[j].tool@));
        lemma_last_binding(r, bindings, k - 1, j, scope);
    }
}

/// Configured capabilities win over what servers declare, and the last
/// binding of a tool wins: one with an adapter holds for that adapter, one
/// without for every adapter.
pub proof fn last_bindings_win(
    config: RuntimeConfig,
    derived: Seq<Seq<DerivedV>>,
    j: int,
    scope: Option<Seq<char>>,
)
    requires
        0 <= j < config.capabilities@.len(),
        speaks_of(config.capabilities@[j], scope, config.capabilities@[j].tool@),
        forall|x: int|
            j < x < config.capabilities@.len() ==> !speaks_of(
                #[trigger] config.capabilities@[x],
                scope,
                config.capabilities@[j].tool@,
            ),
    ensures
        scope matches Some(a) ==> {
            let key = (a, config.capabilities@[j].tool@);
            &&& configured(config, derived).scoped.dom().contains(key)
            &&& configured(config, derived).scoped[key] == config.capabilities@[j].capabilities@
        },
        scope is None ==> {
            let key = config.capabilities@[j].tool@;
            &&& configured(config, derived).global.dom().contains(key)
            &&& configured(config, derived).global[key] == config.capabilities@[j].capabilities@
        },
{
    let servers = with_servers(base_registry(), config.mcp@, derived, config.mcp@.len() as int);
    let fs = with_adapters(servers, fs_names(config.fs@), config.fs@.len() as int);
    let shell = with_adapters(fs, shell_names(config.shell@), config.shell@.len() as int);
    let http = with_adapters(shell, http_names(config.http@), config.http@.len() as int);
    lemma_last_binding(http, config.capabilities@, config.capabilities@.len() as int, j, scope);
}

} // verus!
