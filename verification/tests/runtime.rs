//! Behavior of runs: a small host performs the calls that the engine hands
//! out and hands back what became of them.

use tool_compiler::adapters::api::{BatchInput, BatchOutput, ToolExecutionError};
use tool_compiler::effects::{set_of, Effects, RetryPolicy};
use tool_compiler::graph::resolved::ResolvedEffects;
use tool_compiler::json::{Number, Value};
use tool_compiler::optimizer::report::OptimizationReport;
use tool_compiler::ordered::{StrMap, StrSet};
use tool_compiler::plan::{Node, Plan, ToolLimits, ToolSpec, When};
use tool_compiler::refs::ValueRef;
use tool_compiler::runtime::bench::{shortest_and_longest, side_counts};
use tool_compiler::runtime::builtin::BuiltinExecutor;
use tool_compiler::runtime::cache::{CacheKey, MemoryCache};
use tool_compiler::runtime::calls::{batch_inputs, lost_outcome};
use tool_compiler::runtime::config::{ErrorMode, RunConfig};
use tool_compiler::runtime::conformance::{
    batch_probe, check_adapter_conformance_with, check_batch_contract, check_echo_round_trip,
    check_error_propagation, echo_probe,
};
use tool_compiler::runtime::dispatch::DispatchOutcome;
use tool_compiler::runtime::drive::Engine;
use tool_compiler::runtime::error::RuntimeError;
use tool_compiler::runtime::fanout::{FanOut, FanStep};
use tool_compiler::runtime::locks::{LockRequest, LockTable};
use tool_compiler::runtime::policy::{timeout_error, AfterFailure, Attempts, CallPolicy, SingleFlight};
use tool_compiler::runtime::prepared::Runtime;
use tool_compiler::runtime::registry::{ToolCapabilities, ToolRegistry};
use tool_compiler::runtime::resolve::{resolve_input, resolve_value_ref, substitute_item};
use tool_compiler::runtime::result::{
    truncate_output, KeyRedactor, Redactor, ResultMode, RunResult, RunStatus, SkipReason,
    TraceEvent, TraceStatus,
};
use tool_compiler::runtime::schema::{input_rejection, schema_error, schema_violation};
use tool_compiler::runtime::units::Dispatch;

fn convert(value: serde_json::Value) -> Value {
    match value {
        serde_json::Value::Null => Value::Null,
        serde_json::Value::Bool(flag) => Value::Bool(flag),
        serde_json::Value::Number(number) => Value::Number(match (number.as_u64(), number.as_i64()) {
            (Some(n), _) => Number::PosInt(n),
            (None, Some(n)) => Number::NegInt(n),
            (None, None) => Number::Float(number.to_string()),
        }),
        serde_json::Value::String(text) => Value::String(text),
        serde_json::Value::Array(items) => Value::Array(items.into_iter().map(convert).collect()),
        serde_json::Value::Object(members) => {
            let mut map = StrMap::new();
            for (key, member) in members {
                map.insert(key, convert(member));
            }
            Value::Object(map)
        }
    }
}

fn json(text: &str) -> Value {
    convert(serde_json::from_str(text).unwrap())
}

// ---------------------------------------------------------------------------
// Host
// ---------------------------------------------------------------------------

struct Host {
    runtime: Runtime,
    calls: usize,
    batches: usize,
    max_active: usize,
    fail_first: usize,
    slow: bool,
    cancel_after_first: bool,
}

fn host_with(registry: ToolRegistry) -> Host {
    Host {
        runtime: Runtime::from_registry(registry),
        calls: 0,
        batches: 0,
        max_active: 0,
        fail_first: 0,
        slow: false,
        cancel_after_first: false,
    }
}

fn host() -> Host {
    host_with(ToolRegistry::new().with_adapter("test"))
}

impl Host {
    fn call(&mut self, adapter: &str, tool: &str, input: Value) -> Result<Value, ToolExecutionError> {
        if adapter == "builtin" {
            return BuiltinExecutor.call(tool, input);
        }
        self.calls += 1;
        if self.fail_first > 0 {
            self.fail_first -= 1;
            return Err(ToolExecutionError::new("transient").with_code("unavailable"));
        }
        match tool {
            "fail" => Err(ToolExecutionError::new("planned failure")),
            _ => Ok(input),
        }
    }

    fn call_batch(&mut self, inputs: Vec<BatchInput>) -> Result<Vec<BatchOutput>, ToolExecutionError> {
        self.batches += 1;
        Ok(inputs
            .into_iter()
            .map(|input| BatchOutput {
                node: input.node,
                output: input.input,
            })
            .collect())
    }

    fn call_with_policy(
        &mut self,
        adapter: &str,
        tool: &str,
        input: &Value,
        policy: &CallPolicy,
    ) -> (Result<Value, ToolExecutionError>, Vec<ToolExecutionError>) {
        let mut attempts = Attempts::new();
        loop {
            let result = match (self.slow, policy.timeout_ms) {
                (true, Some(limit)) => Err(timeout_error(limit)),
                _ => self.call(adapter, tool, input.clone()),
            };
            match result {
                Ok(value) => {
                    let retries = attempts.retries().iter().map(|e| e.clone()).collect();
                    return (Ok(value), retries);
                }
                Err(error) => match attempts.failed(policy, error, 0) {
                    AfterFailure::GiveUp(error) => {
                        let retries = attempts.retries().iter().map(|e| e.clone()).collect();
                        return (Err(error), retries);
                    }
                    AfterFailure::RetryAfter(_) => {}
                },
            }
        }
    }

    fn perform(&mut self, dispatch: &Dispatch, use_cache: bool) -> DispatchOutcome {
        let spec = &dispatch.spec;
        let mut outcome = DispatchOutcome::new();
        if spec.batch {
            let cached: Vec<Option<Value>> = dispatch
                .members
                .iter()
                .map(|m| {
                    m.lookup_key(spec, use_cache, &m.input)
                        .and_then(|key| self.runtime.cache.get(&key, 0))
                })
                .collect();
            let pending = outcome.begin_batch(spec, &dispatch.members, &cached, 7, 0);
            if !pending.is_empty() {
                let reply = self.call_batch(batch_inputs(&dispatch.members, &pending));
                let stores = outcome
                    .end_batch(spec, &dispatch.members, &pending, use_cache, reply, 0, 0, 7, 0);
                for store in stores {
                    self.runtime.cache.insert(store.key, store.output, store.reads, 0);
                }
            }
            return outcome;
        }
        let member = &dispatch.members[0];
        if member.items.is_some() {
            let inputs = match outcome.begin_fan_out(spec, member, 0) {
                Ok(inputs) => inputs,
                Err(error) => {
                    outcome.fail_fan_out(spec, member, error, 0, 0);
                    return outcome;
                }
            };
            let cached = inputs
                .iter()
                .map(|input| {
                    member
                        .lookup_key(spec, use_cache, input)
                        .and_then(|key| self.runtime.cache.get(&key, 0))
                })
                .collect();
            let mut fan_out = FanOut::new(&mut outcome, member, inputs, cached);
            loop {
                match fan_out.step(member) {
                    FanStep::Done => break,
                    FanStep::Batch(entries) => {
                        let reply = self.call_batch(entries);
                        let (stores, failure) =
                            fan_out.absorb_batch(&mut outcome, spec, member, use_cache, reply, 0);
                        for store in stores {
                            self.runtime.cache.insert(store.key, store.output, store.reads, 0);
                        }
                        if let Some(error) = failure {
                            outcome.fail_fan_out(spec, member, error, 0, 0);
                            return outcome;
                        }
                    }
                    FanStep::Item(input) => {
                        let (reply, retries) = self.call_with_policy(
                            &spec.adapter,
                            &spec.tool,
                            &input,
                            &member.policy,
                        );
                        match fan_out.absorb_item(
                            &mut outcome,
                            spec,
                            member,
                            use_cache,
                            reply,
                            retries.len(),
                        ) {
                            Ok(Some(store)) => {
                                self.runtime.cache.insert(store.key, store.output, store.reads, 0)
                            }
                            Ok(None) => {}
                            Err(error) => {
                                outcome.fail_fan_out(spec, member, error, 0, 0);
                                return outcome;
                            }
                        }
                    }
                }
            }
            fan_out.finish(&mut outcome, spec, member, 0, 0);
            return outcome;
        }
        let cached = member
            .lookup_key(spec, use_cache, &member.input)
            .and_then(|key| self.runtime.cache.get(&key, 0));
        if !outcome.begin_single(spec, member, cached, 0) {
            return outcome;
        }
        if spec.tool == "panic" {
            let error = ToolExecutionError::new("adapter panicked").with_code("panic");
            return lost_outcome(&spec.tool, &vec![member.node.clone()], &error, 0);
        }
        let (reply, retries) =
            self.call_with_policy(&spec.adapter, &spec.tool, &member.input, &member.policy);
        let store = outcome.end_single(spec, member, use_cache, reply, &retries, 0, 0);
        if let Some(store) = store {
            self.runtime.cache.insert(store.key, store.output, store.reads, 0);
        }
        outcome
    }

    fn drive(
        &mut self,
        mut engine: Engine,
        config: RunConfig,
        report: OptimizationReport,
        redactor: Option<&KeyRedactor>,
    ) -> RunResult {
        let mut flights: Vec<Dispatch> = Vec::new();
        loop {
            flights.extend(engine.advance(0));
            self.max_active = self.max_active.max(flights.len());
            if flights.is_empty() {
                break;
            }
            let flight = flights.remove(0);
            if self.cancel_after_first {
                engine.cancel();
            }
            let outcome = self.perform(&flight, config.use_cache);
            let k = engine.position(flight.unit).unwrap();
            let written = engine.complete(k, outcome);
            if !written.is_empty() {
                self.runtime.cache.invalidate_reads(&written);
            }
        }
        assert!(engine.is_idle());
        engine.finish(report, redactor, 3, 0)
    }

    fn run_with(&mut self, plan: Plan, config: RunConfig) -> Result<RunResult, RuntimeError> {
        let prepared = self.runtime.prepare(plan)?;
        let engine = self.runtime.start_prepared(&prepared, config)?;
        let report = prepared.report().clone();
        Ok(self.drive(engine, config, report, None))
    }

    fn run(&mut self, plan: Plan) -> RunResult {
        match self.run_with(plan, RunConfig::new()) {
            Ok(result) => result,
            Err(error) => panic!("{}", error.message()),
        }
    }

    fn run_serial(&mut self, plan: Plan, config: RunConfig) -> RunResult {
        let report = self.runtime.prepare(plan.clone()).ok().unwrap().report().clone();
        match self.runtime.start_unoptimized(plan, config, true) {
            Ok(engine) => self.drive(engine, config, report, None),
            Err(error) => panic!("{}", error.message()),
        }
    }
}

fn pure_tool() -> ToolSpec {
    ToolSpec::new("test").with_effects(Effects::pure())
}

fn batchable() -> Effects {
    Effects {
        batchable: true,
        ..Effects::pure()
    }
}

fn node(id: &str, tool: &str, input: &str) -> Node {
    Node::new(id, tool).with_input(json(input))
}

// ---------------------------------------------------------------------------
// Runs
// ---------------------------------------------------------------------------

#[test]
fn resolves_dependencies_and_outputs() {
    let mut plan = Plan::new();
    plan.tools.insert("echo".into(), pure_tool());
    plan.nodes.push(node("user", "echo", r#"{ "id": "u_1" }"#));
    plan.nodes
        .push(node("message", "echo", r#"{ "user_id": { "$ref": "user.output.id" } }"#));
    plan.outputs.insert("message".into(), ValueRef::output("message"));

    let result = host().run(plan);

    assert_eq!(result.status, RunStatus::Success);
    assert_eq!(
        result.outputs.get("message").unwrap(),
        &json(r#"{ "user_id": "u_1" }"#)
    );
    assert_eq!(result.metrics.nodes_succeeded, 2);
}

#[test]
fn failures_keep_partial_results_and_fail_fast_skips_the_rest() {
    let mut plan = Plan::new();
    plan.tools.insert("echo".into(), pure_tool());
    plan.tools.insert("fail".into(), pure_tool());
    plan.nodes.push(node("ok", "echo", r#"{ "v": 1 }"#));
    plan.nodes.push(Node::new("bad", "fail"));
    let mut dependent = node("child", "echo", r#"{ "src": { "$ref": "bad.output" } }"#);
    dependent.depends_on = vec!["bad".into()];
    plan.nodes.push(dependent);

    let result = host().run(plan);

    assert_eq!(result.status, RunStatus::Failed);
    assert!(result.errors.contains_key("bad"));
    assert_eq!(
        result.skipped.get("child"),
        Some(&SkipReason::FailedDependency)
    );
    // The successful sibling's output survived.
    assert_eq!(result.node_outputs.get("ok").unwrap(), &json(r#"{ "v": 1 }"#));
}

#[test]
fn results_hold_every_node_once_beside_output_errors() {
    let mut plan = Plan::new();
    plan.tools.insert("echo".into(), pure_tool());
    plan.tools.insert("fail".into(), pure_tool());
    plan.nodes.push(node("ok", "echo", r#"{ "v": 1 }"#));
    plan.nodes.push(Node::new("bad", "fail"));
    plan.nodes.push(node("child", "echo", r#"{ "src": { "$ref": "bad.output" } }"#));
    plan.outputs.insert("v".into(), ValueRef::parse("ok.output.v").ok().unwrap());
    plan.outputs.insert("w".into(), ValueRef::parse("ok.output.w").ok().unwrap());
    plan.outputs.insert("child".into(), ValueRef::output("child"));

    let config = RunConfig::new().with_on_error(ErrorMode::Continue);
    let result = host().run_with(plan.clone(), config).ok().unwrap();

    for id in ["ok", "bad", "child"] {
        let places = [
            result.node_outputs.contains_key(id),
            result.errors.contains_key(id),
            result.skipped.contains_key(id),
        ];
        assert_eq!(places.iter().filter(|place| **place).count(), 1);
    }
    assert_eq!(result.status, RunStatus::Failed);
    assert_eq!(result.outputs.get("v"), Some(&json("1")));
    assert_eq!(result.outputs.len(), 1);
    assert_eq!(
        result.errors.get("outputs.w").unwrap().code.as_deref(),
        Some("unresolved_output")
    );
    assert_eq!(result.errors.len(), 2);

    let config = RunConfig::new()
        .with_on_error(ErrorMode::Continue)
        .with_result_mode(ResultMode::Compact);
    let compact = host().run_with(plan, config).ok().unwrap();
    assert_eq!(compact.status, result.status);
    assert_eq!(compact.outputs.len(), 1);
    assert_eq!(compact.errors.len(), 2);
    assert_eq!(compact.skipped.len(), 1);
    assert!(compact.node_outputs.is_empty());
    assert!(compact.trace.is_empty());
}

#[test]
fn continue_mode_runs_independent_branches_after_a_failure() {
    let mut plan = Plan::new();
    plan.tools.insert("echo".into(), pure_tool());
    plan.tools.insert("fail".into(), pure_tool());
    plan.nodes.push(Node::new("bad", "fail"));
    let mut after = node("after", "echo", r#"{ "v": 2 }"#);
    after.depends_on = vec!["bad".into()]; // ordering only, no data ref
    plan.nodes.push(after);

    let result = host()
        .run_with(plan.clone(), RunConfig::new().with_on_error(ErrorMode::Continue))
        .ok()
        .unwrap();

    assert_eq!(result.status, RunStatus::Failed);
    // Ordering-only dependents still run in continue mode.
    assert_eq!(result.node_outputs.get("after").unwrap(), &json(r#"{ "v": 2 }"#));
    // A fail-fast run leaves them.
    let stopped = host().run(plan);
    assert_eq!(stopped.skipped.get("after"), Some(&SkipReason::NotRun));
}

#[test]
fn batch_groups_dispatch_through_call_batch() {
    let mut plan = Plan::new();
    plan.tools
        .insert("echo".into(), ToolSpec::new("test").with_effects(batchable()));
    plan.nodes.push(node("a", "echo", r#"{ "id": "a" }"#));
    plan.nodes.push(node("b", "echo", r#"{ "id": "b" }"#));

    let mut host = host();
    let result = host.run(plan);

    assert_eq!(host.calls, 0);
    assert_eq!(host.batches, 1);
    assert_eq!(result.metrics.batch_dispatches, 1);
    assert!(result.trace.iter().any(|event| event.batch_id.is_some()));
}

#[test]
fn batch_size_limits_split_dispatches() {
    let mut plan = Plan::new();
    plan.tools.insert(
        "echo".into(),
        ToolSpec::new("test").with_effects(batchable()).with_limits(ToolLimits {
            batch_size: Some(2),
            max_concurrency: None,
        }),
    );
    for id in ["a", "b", "c", "d"] {
        plan.nodes.push(node(id, "echo", &format!("{{ \"id\": \"{id}\" }}")));
    }

    let mut host = host();
    host.run(plan);

    assert_eq!(host.batches, 2);
}

#[test]
fn per_tool_limits_do_not_throttle_other_tools() {
    let mut plan = Plan::new();
    plan.tools.insert(
        "limited".into(),
        ToolSpec::new("test")
            .with_effects(Effects::read_only(&["api:limited"]))
            .with_limits(ToolLimits {
                max_concurrency: Some(1),
                batch_size: None,
            }),
    );
    plan.tools.insert(
        "free".into(),
        ToolSpec::new("test").with_effects(Effects::read_only(&["api:free"])),
    );
    for id in ["l1", "l2"] {
        plan.nodes.push(node(id, "limited", &format!("{{ \"id\": \"{id}\" }}")));
    }
    for id in ["f1", "f2"] {
        plan.nodes.push(node(id, "free", &format!("{{ \"id\": \"{id}\" }}")));
    }

    let mut host = host();
    let result = host.run(plan);

    // The two "free" calls and one "limited" call overlap.
    assert_eq!(host.max_active, 3);
    assert_eq!(result.metrics.nodes_succeeded, 4);
}

#[test]
fn global_limit_caps_all_dispatches() {
    let mut plan = Plan::new();
    plan.tools.insert(
        "echo".into(),
        ToolSpec::new("test").with_effects(Effects::read_only(&["api:x"])),
    );
    for index in 0..6 {
        plan.nodes
            .push(node(&format!("n{index}"), "echo", &format!("{{ \"i\": {index} }}")));
    }

    let mut host = host();
    host.run_with(plan, RunConfig::new().with_max_concurrency(2)).ok().unwrap();

    assert_eq!(host.max_active, 2);
}

fn write_effects(resource: &str) -> Effects {
    Effects {
        writes: set_of(&[resource]),
        idempotent: true,
        ..Effects::default()
    }
}

#[test]
fn cache_write_invalidation_forces_reexecution() {
    let mut plan = Plan::new();
    plan.tools.insert(
        "read".into(),
        ToolSpec::new("test").with_effects(Effects::read_only(&["db:x"])),
    );
    plan.tools.insert(
        "write".into(),
        ToolSpec::new("test").with_effects(write_effects("db:x")),
    );
    plan.nodes.push(node("read1", "read", r#"{ "q": 1 }"#));
    let mut write = Node::new("mutate", "write");
    write.depends_on = vec!["read1".into()];
    plan.nodes.push(write);
    let mut read2 = node("read2", "read", r#"{ "q": 1 }"#);
    read2.depends_on = vec!["mutate".into()];
    plan.nodes.push(read2);

    let mut host = host();
    let result = host.run(plan);

    assert_eq!(result.status, RunStatus::Success);
    // read1, mutate, read2: the second read must NOT be served from cache.
    assert_eq!(host.calls, 3);
    assert_eq!(result.metrics.cache_hits, 0);
}

#[test]
fn cache_serves_identical_reads_across_runs() {
    let mut plan = Plan::new();
    plan.tools.insert(
        "read".into(),
        ToolSpec::new("test").with_effects(Effects::read_only(&["db:x"])),
    );
    plan.nodes.push(node("read", "read", r#"{ "q": 1 }"#));

    let mut host = host();
    host.run(plan.clone());
    let second = host.run(plan.clone());

    assert_eq!(host.calls, 1);
    assert_eq!(second.metrics.cache_hits, 1);

    host.runtime.clear_cache();
    host.run(plan);
    assert_eq!(host.calls, 2);
}

#[test]
fn when_conditions_skip_nodes_and_data_dependents() {
    let mut plan = Plan::new();
    plan.tools.insert("echo".into(), pure_tool());
    plan.nodes.push(node("gate", "echo", r#"{ "open": false }"#));
    plan.nodes.push(
        node("guarded", "echo", r#"{ "v": 1 }"#)
            .with_when(When::truthy(ValueRef::new("gate", vec!["open".into()]))),
    );
    plan.nodes
        .push(node("consumer", "echo", r#"{ "from": { "$ref": "guarded.output" } }"#));
    let mut ordered = node("ordered", "echo", r#"{ "v": 2 }"#);
    ordered.depends_on = vec!["guarded".into()];
    plan.nodes.push(ordered);

    let result = host().run(plan);

    assert_eq!(result.status, RunStatus::Success);
    assert_eq!(result.skipped.get("guarded"), Some(&SkipReason::Condition));
    assert_eq!(
        result.skipped.get("consumer"),
        Some(&SkipReason::FailedDependency)
    );
    // Ordering-only dependents still run.
    assert_eq!(result.node_outputs.get("ordered").unwrap(), &json(r#"{ "v": 2 }"#));
}

fn fan_out_plan(effects: Effects) -> Plan {
    let mut plan = Plan::new();
    plan.tools.insert("echo".into(), pure_tool());
    plan.tools
        .insert("read".into(), ToolSpec::new("test").with_effects(effects));
    plan.nodes.push(node(
        "items",
        "echo",
        r#"{ "files": [{ "path": "a.md" }, { "path": "b.md" }, { "path": "c.md" }] }"#,
    ));
    plan.nodes.push(
        node("reads", "read", r#"{ "path": { "$item": "path" } }"#)
            .with_for_each(ValueRef::new("items", vec!["files".into()])),
    );
    plan.outputs.insert("reads".into(), ValueRef::output("reads"));
    plan
}

#[test]
fn for_each_expands_arrays_and_batches() {
    let mut host = host();
    let result = host.run(fan_out_plan(batchable()));

    assert_eq!(result.status, RunStatus::Success);
    assert_eq!(
        result.outputs.get("reads").unwrap(),
        &json(r#"[{ "path": "a.md" }, { "path": "b.md" }, { "path": "c.md" }]"#)
    );
    assert_eq!(host.batches, 1);
}

#[test]
fn for_each_calls_item_by_item_without_batches() {
    let mut host = host();
    let result = host.run(fan_out_plan(Effects::pure()));

    assert_eq!(
        result.outputs.get("reads").unwrap(),
        &json(r#"[{ "path": "a.md" }, { "path": "b.md" }, { "path": "c.md" }]"#)
    );
    assert_eq!(host.calls, 4);
    assert_eq!(host.batches, 0);
}

#[test]
fn retries_follow_declared_policy() {
    let mut plan = Plan::new();
    plan.tools.insert(
        "flaky".into(),
        ToolSpec::new("test").with_effects(Effects {
            retry: Some(RetryPolicy {
                max_attempts: 3,
                retryable_errors: StrSet::new(),
                backoff_ms: Some(1),
            }),
            ..Effects::pure()
        }),
    );
    plan.nodes.push(node("call", "flaky", r#"{ "v": 1 }"#));

    let mut host = host();
    host.fail_first = 2;
    let result = host.run(plan);

    assert_eq!(result.status, RunStatus::Success);
    assert_eq!(result.metrics.retries, 2);
    assert_eq!(host.calls, 3);
    assert!(result
        .trace
        .iter()
        .any(|event| event.status == TraceStatus::Retried));
}

#[test]
fn timeouts_fail_slow_calls() {
    let mut plan = Plan::new();
    let mut effects = Effects::pure();
    effects.timeout_ms = Some(5);
    plan.tools
        .insert("slow".into(), ToolSpec::new("test").with_effects(effects));
    plan.nodes.push(Node::new("call", "slow"));

    let mut host = host();
    host.slow = true;
    let result = host.run(plan);

    assert_eq!(result.status, RunStatus::Failed);
    assert_eq!(
        result.errors.get("call").unwrap().code.as_deref(),
        Some("timeout")
    );
}

#[test]
fn blocked_tools_fail_without_dispatch() {
    let registry = ToolRegistry::new()
        .with_adapter("test")
        .with_blocked_tool("recursive");
    let mut plan = Plan::new();
    plan.tools.insert("recursive".into(), pure_tool());
    plan.nodes.push(Node::new("call", "recursive"));

    let mut host = host_with(registry);
    let result = host.run(plan);

    assert_eq!(
        result.errors.get("call").unwrap().code.as_deref(),
        Some("blocked_tool")
    );
    assert_eq!(host.calls, 0);
}

fn typed_registry() -> ToolRegistry {
    ToolRegistry::new().with_adapter("test").with_tool_capabilities(
        "typed",
        ToolCapabilities::new().with_input_schema(json(
            r#"{ "type": "object", "required": ["path"],
                 "properties": { "path": { "type": "string" } } }"#,
        )),
    )
}

#[test]
fn input_schemas_gate_dispatch() {
    let mut plan = Plan::new();
    plan.tools.insert("typed".into(), pure_tool());
    plan.nodes.push(node("call", "typed", r#"{ "path": 42 }"#));

    let mut host = host_with(typed_registry());
    let result = host.run(plan);

    assert_eq!(
        result.errors.get("call").unwrap().code.as_deref(),
        Some("invalid_input")
    );
    assert_eq!(host.calls, 0);
}

#[test]
fn matching_inputs_pass_their_schema() {
    let mut plan = Plan::new();
    plan.tools.insert("typed".into(), pure_tool());
    plan.nodes.push(node("call", "typed", r#"{ "path": "x" }"#));

    let result = host_with(typed_registry()).run(plan.clone());
    assert_eq!(result.status, RunStatus::Success);

    let registry = ToolRegistry::new().with_adapter("test").with_tool_capabilities(
        "typed",
        ToolCapabilities::new().with_input_schema(json(r#"{ "type": "nonsense" }"#)),
    );
    let error = match host_with(registry).run_with(plan, RunConfig::new()) {
        Ok(_) => panic!("a schema that does not compile"),
        Err(error) => error,
    };
    assert!(matches!(error, RuntimeError::InvalidInputSchema { .. }));
}

#[test]
fn item_inputs_are_held_to_the_schema() {
    let run = |files: &str| {
        let mut plan = Plan::new();
        plan.tools.insert("echo".into(), pure_tool());
        plan.tools.insert("typed".into(), pure_tool());
        plan.nodes.push(node("items", "echo", files));
        plan.nodes.push(
            node("call", "typed", r#"{ "path": { "$item": "path" } }"#)
                .with_for_each(ValueRef::new("items", vec!["files".into()])),
        );
        let mut host = host_with(typed_registry());
        let result = host.run(plan);
        (host.calls, result)
    };

    let (calls, result) = run(r#"{ "files": [{ "path": "a" }, { "path": 42 }] }"#);
    let error = result.errors.get("call").unwrap();
    assert_eq!(error.code.as_deref(), Some("invalid_input"));
    assert!(error
        .message
        .starts_with("input of node 'call' does not match the 'typed' input schema: "));
    assert_eq!(calls, 1);

    let (calls, result) = run(r#"{ "files": [{ "path": "a" }, { "path": "b" }] }"#);
    assert_eq!(result.status, RunStatus::Success);
    assert_eq!(calls, 3);
}

#[test]
fn deep_inputs_are_held_to_the_schema() {
    let mut deep = Value::text("leaf");
    for _ in 0..300 {
        deep = Value::Array(vec![deep]);
    }
    let schema = json(r#"{ "type": "array" }"#);

    assert!(schema_violation(&schema, &deep).is_none());
    assert!(schema_violation(&json(r#"{ "type": "object" }"#), &deep).is_some());
    assert!(schema_violation(&json(r#"{ "type": "nonsense" }"#), &deep).is_some());
    assert!(schema_error(&schema).is_none());
    let lost = json(r#"{ "$ref": "http://localhost/a.json" }"#);
    assert!(schema_error(&lost).is_some());
    assert_eq!(
        input_rejection("n", "t", "why").message,
        "input of node 'n' does not match the 't' input schema: why"
    );
}

#[test]
fn sides_are_counted_by_what_they_did() {
    let mut plan = Plan::new();
    plan.tools.insert("echo".into(), pure_tool());
    plan.nodes.push(node("a", "echo", r#"{ "x": 1 }"#));
    plan.nodes.push(node("b", "echo", r#"{ "x": 1 }"#));
    let mut host = host();
    let config = RunConfig::new().with_result_mode(ResultMode::Full);
    let first = host.run_with(plan.clone(), config).unwrap();
    let second = host.run_with(plan, config).unwrap();

    let counts = side_counts(&first, true);
    assert_eq!((counts.estimated_tool_calls, counts.estimated_llm_turns), (1, 1));
    assert_eq!(counts.trace_events, first.trace.len());
    assert_eq!(counts.cache_hits, 0);
    assert_eq!(side_counts(&first, false).estimated_tool_calls, 1);
    assert_eq!(side_counts(&second, true).cache_hits, 1);
    assert_eq!(shortest_and_longest(&vec![3, 1, 2]), (1, 3));
    assert_eq!(shortest_and_longest(&Vec::new()), (0, 0));
}

#[test]
fn builtin_tools_are_always_available() {
    let mut plan = Plan::new();
    plan.tools.insert("echo".into(), pure_tool());
    plan.tools.insert("pick".into(), ToolSpec::new("builtin"));
    plan.nodes
        .push(node("data", "echo", r#"{ "user": { "name": "Ada" } }"#));
    plan.nodes.push(node(
        "name",
        "pick",
        r#"{ "value": { "$ref": "data.output" }, "path": "user.name" }"#,
    ));
    plan.outputs.insert("name".into(), ValueRef::output("name"));

    let result = host().run(plan);

    assert_eq!(result.outputs.get("name").unwrap(), &json("\"Ada\""));
}

#[test]
fn compact_mode_redaction_and_truncation_shape_the_result() {
    let mut plan = Plan::new();
    plan.tools.insert("echo".into(), pure_tool());
    plan.nodes
        .push(node("secret", "echo", r#"{ "api_key": "s3cr3t", "content": "x" }"#));
    plan.nodes.push(node(
        "big",
        "echo",
        &format!("{{ \"content\": \"{}\" }}", "y".repeat(4096)),
    ));
    plan.outputs.insert("secret".into(), ValueRef::output("secret"));
    plan.outputs.insert("big".into(), ValueRef::output("big"));

    let mut host = host();
    let config = RunConfig::new()
        .with_result_mode(ResultMode::Compact)
        .with_max_output_bytes(256);
    let prepared = host.runtime.prepare(plan).ok().unwrap();
    let engine = host.runtime.start_prepared(&prepared, config).ok().unwrap();
    let report = prepared.report().clone();
    let redactor = KeyRedactor::default_secret_keys();
    let result = host.drive(engine, config, report, Some(&redactor));

    assert!(result.node_outputs.is_empty());
    assert!(result.trace.is_empty());
    assert_eq!(
        result.outputs.get("secret").unwrap().text_at("api_key"),
        Some("[redacted]")
    );
    assert_eq!(
        result.outputs.get("big").unwrap().bool_at("$truncated"),
        Some(true)
    );
}

#[test]
fn cancellation_returns_partial_results() {
    let mut plan = Plan::new();
    plan.tools.insert(
        "slow".into(),
        ToolSpec::new("test").with_effects(Effects::read_only(&["api:x"])),
    );
    plan.nodes.push(Node::new("first", "slow"));
    let mut second = Node::new("second", "slow");
    second.depends_on = vec!["first".into()];
    plan.nodes.push(second);

    let mut host = host();
    host.cancel_after_first = true;
    let result = host.run(plan);

    assert_eq!(result.status, RunStatus::Cancelled);
    assert_eq!(result.skipped.get("second"), Some(&SkipReason::Cancelled));
    // The in-flight first call was drained, not aborted.
    assert!(result.node_outputs.contains_key("first"));
}

#[test]
fn stopped_runs_start_nothing_more() {
    let mut plan = Plan::new();
    plan.tools.insert("echo".into(), pure_tool());
    for id in ["a", "b"] {
        plan.nodes.push(node(id, "echo", &format!("{{ \"id\": \"{id}\" }}")));
        plan.outputs.insert(id.into(), ValueRef::output(id));
    }

    let host = host();
    let prepared = host.runtime.prepare(plan).ok().unwrap();
    let mut engine = host.runtime.start_prepared(&prepared, RunConfig::new()).ok().unwrap();
    engine.cancel();

    assert!(engine.advance(0).is_empty());
    assert!(engine.is_idle());
    let none: Option<&KeyRedactor> = None;
    let result = engine.finish(prepared.report().clone(), none, 0, 0);
    assert_eq!(result.status, RunStatus::Cancelled);
    assert_eq!(result.skipped.len(), 2);
}

#[test]
fn every_node_of_an_idle_run_is_accounted_for() {
    let mut plan = Plan::new();
    plan.tools.insert("echo".into(), pure_tool());
    plan.tools.insert("fail".into(), pure_tool());
    plan.nodes.push(node("bad", "fail", "{}"));
    plan.nodes.push(node("child", "echo", "{ \"from\": { \"$ref\": \"bad.output\" } }"));
    plan.nodes.push(node("free", "echo", "{ \"v\": 1 }"));

    let config = RunConfig::new().with_on_error(ErrorMode::Continue);
    let result = host().run_with(plan, config).ok().unwrap();

    assert!(result.errors.contains_key("bad"));
    assert_eq!(result.skipped.get("child"), Some(&SkipReason::FailedDependency));
    assert!(result.node_outputs.contains_key("free"));
    let metrics = result.metrics;
    assert_eq!(
        metrics.nodes_total,
        metrics.nodes_succeeded + metrics.nodes_failed + metrics.nodes_skipped
    );
}

#[test]
fn equal_cache_keys_mean_equal_calls() {
    let mut plan = Plan::new();
    plan.tools.insert("echo".into(), pure_tool());
    plan.nodes.push(node("a", "echo", "{ \"x\": 1, \"y\": 2 }"));
    let host = host();
    let prepared = host.runtime.prepare(plan).ok().unwrap();
    let mut engine = host.runtime.start_prepared(&prepared, RunConfig::new()).ok().unwrap();
    let dispatches = engine.advance(0);
    let dispatch = &dispatches[0];
    let member = &dispatch.members[0];

    let one = member.key(&dispatch.spec, &json("{ \"x\": 1, \"y\": 2 }")).unwrap();
    let same = member.key(&dispatch.spec, &json("{ \"y\": 2, \"x\": 1 }")).unwrap();
    let other = member.key(&dispatch.spec, &json("{ \"x\": \"1\", \"y\": 2 }")).unwrap();

    assert!(one.same(&same));
    assert!(!one.same(&other));
}

#[test]
fn an_empty_report_is_the_default() {
    let report = OptimizationReport::default();

    assert!(report.passes.is_empty());
    assert!(report.batch_groups.is_empty());
    assert_eq!(report.summary.estimated_tool_calls_before, 0);
    assert_eq!(report.summary.estimated_serial_ms, None);
}

#[test]
fn adapter_panics_are_attributed_to_the_node() {
    let mut plan = Plan::new();
    plan.tools.insert("panic".into(), pure_tool());
    plan.nodes.push(Node::new("boom", "panic"));

    let result = host().run(plan);

    assert_eq!(result.status, RunStatus::Failed);
    assert_eq!(
        result.errors.get("boom").unwrap().code.as_deref(),
        Some("panic")
    );
}

#[test]
fn missing_adapters_fail_before_execution() {
    let mut plan = Plan::new();
    plan.tools.insert("echo".into(), ToolSpec::new("missing"));
    plan.nodes.push(Node::new("call", "echo"));

    let error = match host_with(ToolRegistry::new()).run_with(plan, RunConfig::new()) {
        Ok(_) => panic!("no adapter"),
        Err(error) => error,
    };

    assert!(matches!(error, RuntimeError::MissingAdapter { .. }));
    assert!(error.message().contains("missing"));
}

#[test]
fn traces_show_start_and_end() {
    let mut plan = Plan::new();
    plan.tools.insert("echo".into(), pure_tool());
    plan.nodes.push(node("call", "echo", r#"{ "v": 1 }"#));

    let result = host().run(plan);

    let statuses: Vec<TraceStatus> = result.trace.iter().map(|event| event.status).collect();
    assert_eq!(statuses, vec![TraceStatus::Started, TraceStatus::Finished]);
}

#[test]
fn single_flight_coalesces_concurrent_identical_calls() {
    let key = key("read");
    let mut flights = SingleFlight::new();

    assert!(flights.enter(&key));
    assert!(!flights.enter(&key));
    flights.leave(&key);
    flights.leave(&key);
    assert_eq!(flights.len(), 0);
    assert!(flights.enter(&key));
}

#[test]
fn flights_are_counted_by_key() {
    let mut flights = SingleFlight::new();
    for name in ["read", "write", "read", "list"] {
        flights.enter(&key(name));
    }
    assert_eq!(flights.len(), 3);
    flights.leave(&key("write"));
    flights.leave(&key("read"));
    assert_eq!(flights.len(), 2);
}

#[test]
fn serial_baseline_neither_dedupes_nor_caches_when_disabled() {
    let mut plan = Plan::new();
    plan.tools.insert("echo".into(), pure_tool());
    plan.nodes.push(node("a", "echo", r#"{ "q": 1 }"#));
    plan.nodes.push(node("b", "echo", r#"{ "q": 1 }"#));

    let mut host = host();
    let result = host.run_serial(plan, RunConfig::new().with_cache(false));

    assert_eq!(host.calls, 2);
    assert_eq!(host.max_active, 1);
    assert_eq!(result.metrics.cache_hits, 0);
    assert_eq!(result.node_outputs.len(), 2);
}

#[test]
fn prepared_plans_run_many_times_without_recompiling() {
    let mut plan = Plan::new();
    plan.tools.insert("echo".into(), pure_tool());
    plan.nodes.push(node("a", "echo", r#"{ "q": 1 }"#));

    let mut host = host();
    let config = RunConfig::new();
    let prepared = host.runtime.prepare(plan).ok().unwrap();
    let mut results = Vec::new();
    for _ in 0..2 {
        let engine = host.runtime.start_prepared(&prepared, config).ok().unwrap();
        let report = prepared.report().clone();
        results.push(host.drive(engine, config, report, None));
    }

    assert_eq!(results[0].status, RunStatus::Success);
    assert_eq!(results[1].metrics.cache_hits, 1);
}

#[test]
fn conformance_v2_drives_the_executor_directly() {
    let mut host = host();
    let checks = vec![
        check_echo_round_trip(&host.call("test", "anything", echo_probe())),
        check_batch_contract(&host.call_batch(batch_probe())),
        check_error_propagation(&host.call("test", "fail", Value::empty_object())),
    ];
    let report = check_adapter_conformance_with("test", checks);

    assert!(report.passed, "{:?}", report.checks);
    assert_eq!(report.checks.len(), 3);
    assert!(!check_echo_round_trip(&Ok(Value::Null)).passed);
    assert!(!check_batch_contract(&Ok(vec![])).passed);
    assert!(!check_error_propagation(&Ok(Value::Null)).passed);
}

#[test]
fn custom_cache_backend_is_used() {
    let mut plan = Plan::new();
    plan.tools.insert("echo".into(), pure_tool());
    plan.nodes.push(node("a", "echo", r#"{ "q": 1 }"#));

    let mut host = host();
    host.runtime = Runtime::with_cache(
        ToolRegistry::new().with_adapter("test"),
        MemoryCache::with_limits(4, Some(60_000)),
    );
    host.run(plan.clone());
    let second = host.run(plan);

    assert_eq!(second.metrics.cache_hits, 1);
}

#[test]
fn stress_wide_fan_out_of_a_thousand_nodes() {
    let mut plan = Plan::new();
    plan.tools
        .insert("read".into(), ToolSpec::new("test").with_effects(batchable()));
    for index in 0..1000 {
        plan.nodes
            .push(node(&format!("n{index}"), "read", &format!("{{ \"i\": {index} }}")));
    }

    let result = host().run(plan);

    assert_eq!(result.status, RunStatus::Success);
    assert_eq!(result.metrics.nodes_succeeded, 1000);
}

#[test]
fn stress_unbalanced_chains_overlap() {
    // A long chain next to a wide independent shelf: dependency-driven
    // scheduling must finish both without stalls.
    let mut plan = Plan::new();
    plan.tools.insert("pure".into(), pure_tool());
    for index in 0..50 {
        let mut chained =
            node(&format!("chain{index}"), "pure", &format!("{{ \"i\": {index} }}"));
        if index > 0 {
            chained.depends_on = vec![format!("chain{}", index - 1)];
        }
        plan.nodes.push(chained);
    }
    for index in 0..200 {
        plan.nodes
            .push(node(&format!("wide{index}"), "pure", &format!("{{ \"w\": {index} }}")));
    }

    let result = host()
        .run_with(plan, RunConfig::new().with_max_concurrency(16))
        .ok()
        .unwrap();

    assert_eq!(result.status, RunStatus::Success);
    assert_eq!(result.metrics.nodes_total, 250);
    assert_eq!(result.metrics.nodes_failed, 0);
}

#[test]
fn optimized_run_equals_serial_run() {
    let mut seed: u64 = 42;
    let mut next = move |bound: u64| {
        seed = seed.wrapping_mul(6364136223846793005).wrapping_add(1442695040888963407);
        (seed >> 33) % bound
    };
    for _ in 0..40 {
        let mut plan = Plan::new();
        plan.tools
            .insert("pure".into(), ToolSpec::new("test").with_effects(batchable()));
        for index in 0..3 {
            let resource = format!("res:{index}");
            plan.tools.insert(
                format!("read{index}"),
                ToolSpec::new("test").with_effects(Effects::read_only(&[resource.as_str()])),
            );
            plan.tools.insert(
                format!("write{index}"),
                ToolSpec::new("test").with_effects(write_effects(&resource)),
            );
        }
        let names = ["pure", "read0", "read1", "read2", "write0", "write1", "write2"];
        let count = 1 + next(12);
        for index in 0..count {
            let tool = names[next(7) as usize];
            let payload = next(3);
            let input = if index > 0 && next(2) == 0 {
                format!(
                    "{{ \"payload\": {payload}, \"from\": {{ \"$ref\": \"n{}.output\" }} }}",
                    next(index)
                )
            } else {
                format!("{{ \"payload\": {payload} }}")
            };
            let mut one = node(&format!("n{index}"), tool, &input);
            if index > 0 && next(3) == 0 {
                one.depends_on = vec![format!("n{}", next(index))];
            }
            plan.nodes.push(one);
            plan.outputs
                .insert(format!("n{index}"), ValueRef::output(&format!("n{index}")));
        }

        let config = RunConfig::new().with_cache(false);
        let compiled = host().run_with(plan.clone(), config).ok().unwrap();
        let serial = host().run_serial(plan, config);

        assert_eq!(compiled.status, RunStatus::Success);
        assert_eq!(serial.status, RunStatus::Success);
        assert_eq!(compiled.outputs, serial.outputs);
    }
}

// ---------------------------------------------------------------------------
// Parts
// ---------------------------------------------------------------------------

#[test]
fn collect_echoes_resolved_input() {
    let output = BuiltinExecutor
        .call("collect", json(r#"{ "a": 1, "b": [2] }"#))
        .unwrap();

    assert_eq!(output, json(r#"{ "a": 1, "b": [2] }"#));
}

#[test]
fn pick_extracts_paths_across_objects_and_arrays() {
    let output = BuiltinExecutor
        .call(
            "pick",
            json(r#"{ "value": { "items": [{ "id": 7 }] }, "path": "items.0.id" }"#),
        )
        .unwrap();

    assert_eq!(output, json("7"));
}

#[test]
fn merge_shallow_merges_left_to_right() {
    let output = BuiltinExecutor
        .call("merge", json(r#"{ "objects": [{ "a": 1, "b": 1 }, { "b": 2 }] }"#))
        .unwrap();

    assert_eq!(output, json(r#"{ "a": 1, "b": 2 }"#));
}

#[test]
fn template_interpolates_scalars() {
    let output = BuiltinExecutor
        .call(
            "template",
            json(r#"{ "template": "Hi {user.name}", "values": { "user": { "name": "Ada" } } }"#),
        )
        .unwrap();

    assert_eq!(output, json("\"Hi Ada\""));
}

#[test]
fn unknown_builtin_tool_errors() {
    let error = BuiltinExecutor.call("nope", json("{}")).unwrap_err();

    assert_eq!(error.code.as_deref(), Some("unknown_tool"));
}

fn key(name: &str) -> CacheKey {
    CacheKey {
        adapter: "test".into(),
        tool: name.into(),
        version: None,
        input: "{}".into(),
    }
}

#[test]
fn stores_and_returns_shared_outputs() {
    let mut cache = MemoryCache::new();
    cache.insert(key("a"), json("1"), StrSet::new(), 0);

    assert_eq!(cache.get(&key("a"), 0), Some(json("1")));
    assert_eq!(cache.get(&key("b"), 0), None);
}

#[test]
fn evicts_least_recently_used_beyond_capacity() {
    let mut cache = MemoryCache::with_limits(2, None);
    cache.insert(key("a"), json("1"), StrSet::new(), 0);
    cache.insert(key("b"), json("2"), StrSet::new(), 0);
    cache.get(&key("a"), 0); // refresh a
    cache.insert(key("c"), json("3"), StrSet::new(), 0);

    assert!(cache.get(&key("a"), 0).is_some());
    assert!(cache.get(&key("b"), 0).is_none());
    assert!(cache.get(&key("c"), 0).is_some());
}

#[test]
fn ttl_expires_entries() {
    let mut cache = MemoryCache::with_limits(10, Some(0));
    cache.insert(key("a"), json("1"), StrSet::new(), 0);

    assert!(cache.get(&key("a"), 2).is_none());
}

#[test]
fn invalidates_entries_by_read_resource() {
    let mut cache = MemoryCache::new();
    cache.insert(key("file_read"), json("\"old\""), set_of(&["file:a.txt"]), 0);
    cache.insert(key("other"), json("\"keep\""), StrSet::new(), 0);

    cache.invalidate_reads(&set_of(&["file:a.txt"]));

    assert!(cache.get(&key("file_read"), 0).is_none());
    assert!(cache.get(&key("other"), 0).is_some());
}

#[test]
fn versioned_keys_are_distinct() {
    let mut cache = MemoryCache::new();
    let mut v1 = key("tool");
    v1.version = Some("1".into());
    let mut v2 = key("tool");
    v2.version = Some("2".into());
    cache.insert(v1.clone(), json("1"), StrSet::new(), 0);

    assert!(cache.get(&v2, 0).is_none());
    assert!(cache.get(&v1, 0).is_some());
}

fn effects(reads: &[&str], writes: &[&str], declared: bool) -> ResolvedEffects {
    ResolvedEffects {
        tool: "t".into(),
        declared,
        pure: false,
        reads: set_of(reads),
        writes: set_of(writes),
        commutative: false,
    }
}

#[test]
fn readers_share_and_writers_exclude() {
    let mut table = LockTable::default();
    let read = LockRequest::for_effects(&effects(&["r"], &[], true));
    let write = LockRequest::for_effects(&effects(&[], &["r"], true));

    assert!(table.try_acquire(&read));
    assert!(table.try_acquire(&read));
    assert!(!table.try_acquire(&write));
    table.release(&read);
    table.release(&read);
    assert!(table.try_acquire(&write));
    assert!(!table.try_acquire(&read));
}

#[test]
fn commutative_same_tool_writers_overlap() {
    let mut table = LockTable::default();
    let mut fx = effects(&[], &["counter"], true);
    fx.commutative = true;
    let request = LockRequest::for_effects(&fx);
    let mut other_tool = fx.clone();
    other_tool.tool = "other".into();
    let other = LockRequest::for_effects(&other_tool);

    assert!(table.try_acquire(&request));
    assert!(table.try_acquire(&request));
    assert!(!table.try_acquire(&other));
    table.release(&request);
    table.release(&request);
    assert!(table.try_acquire(&other));
}

#[test]
fn undeclared_effects_run_alone() {
    let mut table = LockTable::default();
    let declared = LockRequest::for_effects(&effects(&["r"], &[], true));
    let unknown = LockRequest::for_effects(&effects(&[], &[], false));

    assert!(table.try_acquire(&declared));
    assert!(!table.try_acquire(&unknown));
    table.release(&declared);
    assert!(table.try_acquire(&unknown));
    assert!(!table.try_acquire(&declared));
    table.release(&unknown);
    assert!(table.try_acquire(&declared));
}

fn retrying_effects(max_attempts: u8) -> Effects {
    Effects {
        retry: Some(RetryPolicy {
            max_attempts,
            retryable_errors: StrSet::new(),
            backoff_ms: Some(1),
        }),
        ..Effects::pure()
    }
}

fn flaky(policy: &CallPolicy, failures: usize) -> (Result<Value, ToolExecutionError>, usize) {
    let mut host = host();
    host.fail_first = failures;
    let (result, retries) = host.call_with_policy("test", "t", &json("1"), policy);
    (result, retries.len())
}

#[test]
fn retries_until_success_when_idempotent() {
    let policy = CallPolicy::from_effects(Some(&retrying_effects(5)), None);

    let (result, retries) = flaky(&policy, 2);

    assert_eq!(result.unwrap(), json("1"));
    assert_eq!(retries, 2);
}

#[test]
fn does_not_retry_non_idempotent_tools() {
    let effects = Effects {
        idempotent: false,
        pure: false,
        retry: Some(RetryPolicy {
            max_attempts: 5,
            retryable_errors: StrSet::new(),
            backoff_ms: Some(1),
        }),
        ..Effects::default()
    };
    let policy = CallPolicy::from_effects(Some(&effects), None);

    let (result, retries) = flaky(&policy, 1);

    assert!(result.is_err());
    assert_eq!(retries, 0);
}

#[test]
fn respects_retryable_error_filters() {
    let mut effects = retrying_effects(5);
    effects.retry.as_mut().unwrap().retryable_errors = set_of(&["other_code"]);
    let policy = CallPolicy::from_effects(Some(&effects), None);

    assert!(flaky(&policy, 1).0.is_err());
}

#[test]
fn adapter_retryable_verdict_wins() {
    let policy = CallPolicy::from_effects(Some(&retrying_effects(5)), None);
    let mut attempts = Attempts::new();
    let error = ToolExecutionError::new("permanent").with_retryable(false);

    assert!(matches!(attempts.failed(&policy, error, 0), AfterFailure::GiveUp(_)));
    assert!(attempts.retries().is_empty());
}

#[test]
fn timeouts_produce_timeout_errors() {
    let mut effects = Effects::pure();
    effects.timeout_ms = Some(5);
    let policy = CallPolicy::from_effects(Some(&effects), None);

    assert_eq!(policy.timeout_ms, Some(5));
    assert_eq!(timeout_error(5).code.as_deref(), Some("timeout"));
    assert!(policy.backoff(1, 123) <= 5000);
}

fn outputs(value: &str) -> StrMap<Value> {
    let mut map = StrMap::new();
    map.insert("a".to_owned(), json(value));
    map
}

#[test]
fn unwraps_literals() {
    let value = json(r#"{ "schema": { "$literal": { "$ref": "not-a-ref" } } }"#);

    let resolved = resolve_input(&value, &StrMap::new()).unwrap();

    assert_eq!(resolved, json(r#"{ "schema": { "$ref": "not-a-ref" } }"#));
}

#[test]
fn substitutes_whole_items_and_paths() {
    let template = json(r#"{ "path": { "$item": "file" }, "all": { "$item": "" } }"#);
    let item = json(r#"{ "file": "a.txt" }"#);

    let resolved = substitute_item(&template, &item).unwrap();

    assert_eq!(resolved.text_at("path"), Some("a.txt"));
    assert_eq!(resolved.get("all"), Some(&item));
}

#[test]
fn missing_item_paths_error() {
    let template = json(r#"{ "x": { "$item": "nope" } }"#);

    assert!(substitute_item(&template, &json("{}")).is_err());
}

#[test]
fn non_string_item_markers_error() {
    let template = json(r#"{ "x": { "$item": 5 } }"#);

    assert!(substitute_item(&template, &json("{}")).is_err());
}

#[test]
fn item_substitution_preserves_literals_and_arrays() {
    let template =
        json(r#"{ "keep": { "$literal": { "$item": "raw" } }, "list": [{ "$item": "id" }, 7] }"#);

    let resolved = substitute_item(&template, &json(r#"{ "id": 3 }"#)).unwrap();

    assert_eq!(
        resolved.get("keep"),
        Some(&json(r#"{ "$literal": { "$item": "raw" } }"#))
    );
    assert_eq!(resolved.get("list"), Some(&json("[3, 7]")));
}

#[test]
fn resolve_input_walks_arrays_and_scalars() {
    let resolved = resolve_input(
        &json(r#"[{ "$ref": "a.output.items.1" }, 5, "text"]"#),
        &outputs(r#"{ "items": ["x", "y"] }"#),
    )
    .unwrap();

    assert_eq!(resolved, json(r#"["y", 5, "text"]"#));
}

#[test]
fn resolve_value_ref_reports_missing_indexes_and_scalars() {
    let outputs = outputs(r#"{ "items": ["x"], "n": 5 }"#);
    let at = |path: &[&str]| ValueRef::new("a", path.iter().map(|s| s.to_string()).collect());

    assert!(resolve_value_ref(&at(&["items", "9"]), &outputs).is_err());
    assert!(resolve_value_ref(&at(&["items", "x"]), &outputs).is_err());
    assert!(resolve_value_ref(&at(&["n", "deep"]), &outputs).is_err());
    assert!(resolve_value_ref(&ValueRef::output("missing"), &outputs).is_err());
}

#[test]
fn resolve_input_rejects_malformed_refs() {
    let error = resolve_input(&json(r#"{ "$ref": "not-a-ref" }"#), &StrMap::new()).unwrap_err();

    assert!(matches!(error, RuntimeError::InvalidRef(_)));
}

#[test]
fn adapter_scoped_capabilities_win_over_global() {
    let mut registry = ToolRegistry::new();
    registry
        .register_tool_capabilities("read_file", ToolCapabilities::new().with_version("global"));
    registry.register_adapter_tool_capabilities(
        "fs",
        "read_file",
        ToolCapabilities::new().with_version("scoped"),
    );

    let version = |adapter: &str| {
        registry
            .capabilities_for(adapter, "read_file")
            .unwrap()
            .version
            .clone()
    };
    assert_eq!(version("fs").as_deref(), Some("scoped"));
    assert_eq!(version("mcp").as_deref(), Some("global"));
}

#[test]
fn blocked_tools_are_reported() {
    let registry = ToolRegistry::new().with_blocked_tool("run_compiled_tool_graph");

    assert!(registry.is_blocked("run_compiled_tool_graph"));
    assert!(!registry.is_blocked("echo"));
}

#[test]
fn capability_builders_layer_metadata() {
    let capabilities = ToolCapabilities::new()
        .with_effects(Effects::pure())
        .with_limits(ToolLimits {
            max_concurrency: Some(2),
            batch_size: Some(4),
        })
        .with_cost(tool_compiler::plan::ToolCost {
            fixed_ms: Some(1),
            per_call_ms: Some(2),
            tokens: Some(3),
        })
        .with_version("v9")
        .with_input_schema(json(r#"{ "type": "object" }"#));

    let registry = ToolRegistry::new().with_tool_capabilities("tool", capabilities.clone());

    let stored = registry.capabilities("tool").unwrap();
    assert_eq!(stored.version.as_deref(), Some("v9"));
    assert_eq!(stored.limits.as_ref().unwrap().batch_size, Some(4));
    assert_eq!(stored.cost.as_ref().unwrap().tokens, Some(3));
    assert!(stored.input_schema.is_some());
}

#[test]
fn hydration_fills_only_missing_fields() {
    let registry = ToolRegistry::new().with_tool_capabilities(
        "echo",
        ToolCapabilities::new()
            .with_effects(Effects::pure())
            .with_version("from-registry"),
    );
    let mut plan = Plan::new();
    plan.tools
        .insert("echo".into(), ToolSpec::new("test").with_version("from-plan"));
    plan.nodes.push(Node::new("a", "echo"));

    registry.apply_capabilities(&mut plan);

    let spec = plan.tools.get("echo").unwrap();
    assert!(spec.effects.as_ref().unwrap().pure);
    // Plan-declared metadata wins over registry hydration.
    assert_eq!(spec.version.as_deref(), Some("from-plan"));
}

#[test]
fn key_redactor_masks_matching_keys_recursively() {
    let redactor = KeyRedactor::default_secret_keys();
    let value = json(
        r#"{ "user": { "name": "ada", "api_key": "s3cr3t" },
             "items": [{ "Authorization": "Bearer x" }] }"#,
    );

    let redacted = redactor.redact_output("n", &value);

    let user = redacted.get("user").unwrap();
    assert_eq!(user.text_at("name"), Some("ada"));
    assert_eq!(user.text_at("api_key"), Some("[redacted]"));
    let item = redacted.get("items").unwrap().item(0).unwrap();
    assert_eq!(item.text_at("Authorization"), Some("[redacted]"));
}

#[test]
fn truncates_oversized_outputs_with_a_marker() {
    let value = json(&format!("{{ \"content\": \"{}\" }}", "x".repeat(2000)));

    let truncated = truncate_output(value.clone(), 100);

    assert_eq!(truncated.bool_at("$truncated"), Some(true));
    assert!(truncated.number_at("bytes").unwrap() > 100);
    assert!(truncate_output(value, 100_000).get("$truncated").is_none());
}

#[test]
fn failed_events_carry_duration_and_error() {
    let event = TraceEvent::new("n", "tool", TraceStatus::Failed, 9)
        .with_duration(5)
        .with_error(&ToolExecutionError::new("boom"));

    assert_eq!(event.status.name(), "failed");
    assert_eq!(event.error.as_deref(), Some("boom"));
    assert_eq!(event.duration_ms, Some(5));
    assert_eq!(event.at_ms, 9);
}
