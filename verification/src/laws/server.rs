//! The server: what it answers, and what a tool call asks for.

use vstd::prelude::*;

use crate::adapters::mcp::PROTOCOL_VERSION;
use crate::json::{Json, NumberV};
use crate::runtime::config::ErrorMode;
use crate::runtime::result::ResultMode;
use crate::serve::CallV;

verus! {

use crate::fields::{object, reading_gives_back, text_field, with};
use crate::ordered::{has_key, sorted_pairs};
use crate::scan::is_digit;
use crate::serve::{
    answer_to, asked_config, call_of, call_result, failed_call, must_run, negotiated, rpc_reply,
    served, tool_entry, tool_list,
};
use crate::value::json_field;

proof fn lemma_empty(x: Seq<char>)
    ensures
        object() is Object,
        sorted_pairs(object()->Object_0),
        json_field(object(), x) is None,
{
    let empty: Seq<(Seq<char>, Json)> = Seq::empty();
    assert(!has_key(empty, x));
}

proof fn lemma_one(k: Seq<char>, v: Json, x: Seq<char>)
    ensures
        with(object(), k, v) is Object,
        sorted_pairs(with(object(), k, v)->Object_0),
        json_field(with(object(), k, v), x) == if x == k {
            Some(v)
        } else {
            None
        },
{
    lemma_empty(x);
    reading_gives_back(object(), k, v, x);
}

proof fn lemma_reply(id: Json, key: Seq<char>, body: Json, x: Seq<char>)
    requires
        key == "result"@ || key == "error"@,
        x == "result"@ || x == "error"@,
    ensures
        json_field(with(rpc_reply(id), key, body), x) == if x == key {
            Some(body)
        } else {
            None
        },
{
    reveal_strlit("id");
    reveal_strlit("jsonrpc");
    reveal_strlit("result");
    reveal_strlit("error");
    assert("result"@.len() != "id"@.len() && "result"@.len() != "jsonrpc"@.len());
    assert("error"@.len() != "id"@.len() && "error"@.len() != "jsonrpc"@.len());
    let a = with(object(), "jsonrpc"@, Json::Text("2.0"@));
    lemma_one("jsonrpc"@, Json::Text("2.0"@), x);
    reading_gives_back(a, "id"@, id, x);
    reading_gives_back(rpc_reply(id), key, body, x);
}

proof fn lemma_methods()
    ensures
        "initialize"@ != "ping"@,
        "initialize"@ != "tools/list"@,
        "ping"@ != "tools/list"@,
        "tools/call"@ != "initialize"@,
        "tools/call"@ != "ping"@,
        "tools/call"@ != "tools/list"@,
        "result"@ != "error"@,
{
    reveal_strlit("initialize");
    reveal_strlit("ping");
    reveal_strlit("tools/list");
    reveal_strlit("tools/call");
    reveal_strlit("result");
    reveal_strlit("error");
    assert("tools/list"@[6] != "tools/call"@[6]);
    assert("initialize"@[0] != "tools/call"@[0]);
    assert("initialize"@[0] != "tools/list"@[0]);
    assert("ping"@.len() != "tools/call"@.len());
    assert("ping"@.len() != "tools/list"@.len());
    assert("ping"@.len() != "initialize"@.len());
    assert("result"@.len() != "error"@.len());
}

/// A notification is never answered.
pub proof fn notifications_get_no_answer(message: Json, depth: u32, list: Json)
    requires
        json_field(message, "id"@) is None,
    ensures
        answer_to(message, depth, list) is None,
        !must_run(message, depth),
{
}

/// A ping is answered with an empty result, a request for the tools with
/// their list, and a method that the server does not know with the protocol
/// error for that.
pub proof fn requests_are_answered(message: Json, depth: u32, list: Json, method: Seq<char>)
    requires
        json_field(message, "id"@) is Some,
        text_field(message, "method"@) == Some(method),
    ensures
        method == "ping"@ ==> (answer_to(message, depth, list) is Some && json_field(
            answer_to(message, depth, list)->0,
            "result"@,
        ) == Some(Json::Object(Seq::empty()))),
        method == "tools/list"@ ==> (answer_to(message, depth, list) is Some && json_field(
            answer_to(message, depth, list)->0,
            "result"@,
        ) == Some(list)),
        method == "initialize"@ ==> (answer_to(message, depth, list) is Some && json_field(
            answer_to(message, depth, list)->0,
            "error"@,
        ) is None),
        method != "initialize"@ && method != "ping"@ && method != "tools/list"@ && method
            != "tools/call"@ ==> {
            let r = answer_to(message, depth, list);
            &&& r is Some
            &&& json_field(r->0, "result"@) is None
            &&& json_field(r->0, "error"@) matches Some(e) && json_field(e, "code"@) == Some(
                Json::Number(NumberV::NegInt(-32601i64)),
            )
        },
        must_run(message, depth) ==> method == "tools/call"@ && depth < 2 && answer_to(
            message,
            depth,
            list,
        ) is None,
        method == "tools/call"@ && depth >= 2 ==> answer_to(message, depth, list) is Some,
{
    lemma_methods();
    let id = json_field(message, "id"@)->0;
    assert forall|body: Json, key: Seq<char>, x: Seq<char>|
        (key == "result"@ || key == "error"@) && (x == "result"@ || x == "error"@) implies #[trigger] json_field(
        with(rpc_reply(id), key, body),
        x,
    ) == (if x == key {
        Some(body)
    } else {
        None
    }) by {
        lemma_reply(id, key, body, x);
    }
    let text = "unknown method '"@ + method + "'"@;
    let code = crate::fields::integer(-32601);
    reveal_strlit("code");
    reveal_strlit("message");
    assert("code"@.len() != "message"@.len());
    lemma_one("code"@, code, "code"@);
    reading_gives_back(with(object(), "code"@, code), "message"@, Json::Text(text), "code"@);
}

/// A dated revision of the client's is kept; otherwise the server offers its
/// own.
pub proof fn dated_revisions_are_kept(params: Json, version: Seq<char>)
    ensures
        text_field(params, "protocolVersion"@) == Some(version) && version.len() == 10
            && version[4] == '-' && version[7] == '-' && (forall|i: int|
            0 <= i < 10 && i != 4 && i != 7 ==> is_digit(#[trigger] version[i])) ==> negotiated(
            Some(params),
        ) == version,
        text_field(params, "protocolVersion"@) == Some(version) && version.len() != 10
            ==> negotiated(Some(params)) == PROTOCOL_VERSION@,
        text_field(params, "protocolVersion"@) is None ==> negotiated(Some(params))
            == PROTOCOL_VERSION@,
        negotiated(None) == PROTOCOL_VERSION@,
{
}

proof fn lemma_names()
    ensures
        "run_compiled_tool_graph"@ != "run_compiled_tool_intent"@,
        "run_compiled_tool_graph"@ != "run_compiled_tool_recipe"@,
        "run_compiled_tool_graph"@ != "explain_tool_plan"@,
        "run_compiled_tool_intent"@ != "run_compiled_tool_recipe"@,
        "run_compiled_tool_intent"@ != "explain_tool_plan"@,
        "run_compiled_tool_recipe"@ != "explain_tool_plan"@,
{
    reveal_strlit("run_compiled_tool_graph");
    reveal_strlit("run_compiled_tool_intent");
    reveal_strlit("run_compiled_tool_recipe");
    reveal_strlit("explain_tool_plan");
    assert("run_compiled_tool_graph"@[18] == 'g');
    assert("run_compiled_tool_intent"@[18] == 'i');
    assert("run_compiled_tool_recipe"@[18] == 'r');
    assert("explain_tool_plan"@[0] == 'e');
    assert("run_compiled_tool_graph"@[0] == 'r');
    assert("run_compiled_tool_intent"@[0] == 'r');
    assert("run_compiled_tool_recipe"@[0] == 'r');
}

/// A tool runs the document that its arguments hold under the name of its
/// kind: graphs and explanations take a plan, the others an intent or a
/// recipe. Without that document, or for another tool, the call is refused.
pub proof fn calls_take_their_document(message: Json, params: Json, name: Seq<char>, arguments: Json)
    requires
        json_field(message, "params"@) == Some(params),
        text_field(params, "name"@) == Some(name),
        json_field(params, "arguments"@) == Some(arguments),
    ensures
        name == "run_compiled_tool_graph"@ ==> (json_field(arguments, "plan"@) matches Some(plan)
            ==> call_of(message) == Ok::<(CallV, Json), Seq<char>>((CallV::Graph(plan), arguments))),
        name == "explain_tool_plan"@ ==> (json_field(arguments, "plan"@) matches Some(plan)
            ==> call_of(message) == Ok::<(CallV, Json), Seq<char>>((CallV::Explain(plan), arguments))),
        name == "run_compiled_tool_intent"@ ==> (json_field(arguments, "intent"@) matches Some(
            intent,
        ) ==> call_of(message) == Ok::<(CallV, Json), Seq<char>>(
            (CallV::Intent(intent), arguments),
        )),
        name == "run_compiled_tool_recipe"@ ==> (json_field(arguments, "recipe"@) matches Some(
            recipe,
        ) ==> {
            &&& call_of(message) is Ok
            &&& call_of(message)->Ok_0.0 is Recipe
            &&& call_of(message)->Ok_0.0->Recipe_0 == recipe
            &&& json_field(arguments, "params"@) is None ==> call_of(message)->Ok_0.0->Recipe_1
                == Map::<Seq<char>, Json>::empty()
            &&& json_field(arguments, "params"@) matches Some(Json::Object(given))
                ==> call_of(message)->Ok_0.0->Recipe_1 == crate::ordered::map_of(given)
        }),
        (name == "run_compiled_tool_graph"@ || name == "explain_tool_plan"@) && json_field(
            arguments,
            "plan"@,
        ) is None ==> call_of(message) is Err,
        name == "run_compiled_tool_intent"@ && json_field(arguments, "intent"@) is None
            ==> call_of(message) is Err,
        name == "run_compiled_tool_recipe"@ && json_field(arguments, "recipe"@) is None
            ==> call_of(message) is Err,
        name != "run_compiled_tool_graph"@ && name != "run_compiled_tool_intent"@ && name
            != "run_compiled_tool_recipe"@ && name != "explain_tool_plan"@ ==> call_of(message)
            is Err,
{
    lemma_names();
}

/// Runs stop at the first error and report in full, unless the arguments ask
/// for something else; nothing else about a run can be asked for.
pub proof fn options_are_asked_for(arguments: Json, other: Json)
    ensures
        asked_config(arguments).result_mode == ResultMode::Compact <==> text_field(
            arguments,
            "result_mode"@,
        ) == Some("compact"@),
        asked_config(arguments).on_error == ErrorMode::Continue <==> text_field(
            arguments,
            "on_error"@,
        ) == Some("continue"@),
        text_field(arguments, "result_mode"@) == text_field(other, "result_mode"@) && text_field(
            arguments,
            "on_error"@,
        ) == text_field(other, "on_error"@) ==> asked_config(arguments) == asked_config(other),
{
}

/// A tool result carries its structured content, and says whether it is an
/// error.
pub proof fn results_say_whether_they_failed(summary: Seq<char>, structured: Json, failed: bool)
    ensures
        json_field(call_result(summary, structured, failed), "structuredContent"@) == Some(
            structured,
        ),
        json_field(call_result(summary, structured, failed), "isError"@) == Some(
            Json::Bool(failed),
        ),
        json_field(failed_call(summary), "isError"@) == Some(Json::Bool(true)),
        json_field(failed_call(summary), "content"@) == json_field(
            call_result(summary, structured, failed),
            "content"@,
        ),
{
    reveal_strlit("content");
    reveal_strlit("structuredContent");
    reveal_strlit("isError");
    assert("content"@.len() != "structuredContent"@.len());
    assert("isError"@.len() != "structuredContent"@.len());
    assert("isError"@[0] != "content"@[0]);
    let text = crate::serve::text_content(summary);
    let a = with(object(), "content"@, text);
    let b = with(a, "structuredContent"@, structured);
    lemma_one("content"@, text, "content"@);
    lemma_one("content"@, text, "isError"@);
    lemma_one("content"@, text, "structuredContent"@);
    reading_gives_back(a, "structuredContent"@, structured, "content"@);
    reading_gives_back(a, "structuredContent"@, structured, "structuredContent"@);
    reading_gives_back(b, "isError"@, Json::Bool(failed), "content"@);
    reading_gives_back(b, "isError"@, Json::Bool(failed), "structuredContent"@);
    reading_gives_back(b, "isError"@, Json::Bool(failed), "isError"@);
    reading_gives_back(a, "isError"@, Json::Bool(true), "isError"@);
    reading_gives_back(a, "isError"@, Json::Bool(true), "content"@);
}

proof fn lemma_entry(name: Seq<char>, title: Seq<char>, text: Seq<char>, schema: Json)
    ensures
        json_field(tool_entry(name, title, text, schema), "name"@) == Some(Json::Text(name)),
        json_field(tool_entry(name, title, text, schema), "inputSchema"@) == Some(schema),
{
    reveal_strlit("name");
    reveal_strlit("title");
    reveal_strlit("description");
    reveal_strlit("inputSchema");
    assert("name"@.len() != "title"@.len());
    assert("name"@.len() != "description"@.len());
    assert("name"@.len() != "inputSchema"@.len());
    assert("description"@[0] != "inputSchema"@[0]);
    let a = with(object(), "name"@, Json::Text(name));
    let b = with(a, "title"@, Json::Text(title));
    let c = with(b, "description"@, Json::Text(text));
    lemma_one("name"@, Json::Text(name), "name"@);
    reading_gives_back(a, "title"@, Json::Text(title), "name"@);
    reading_gives_back(b, "description"@, Json::Text(text), "name"@);
    reading_gives_back(c, "inputSchema"@, schema, "name"@);
    reading_gives_back(c, "inputSchema"@, schema, "inputSchema"@);
}

/// The list holds the four served tools, each under its name, and no other.
pub proof fn every_served_tool_is_listed(plan: Json, intent: Json, recipe: Json, i: int)
    requires
        0 <= i < 4,
    ensures
        json_field(tool_list(plan, intent, recipe), "tools"@) matches Some(Json::List(entries))
            && entries.len() == 4 && json_field(entries[i], "name"@) == Some(
            Json::Text(served()[i]),
        ),
        served().len() == 4,
        served().contains("run_compiled_tool_graph"@),
        served().contains("run_compiled_tool_intent"@),
        served().contains("run_compiled_tool_recipe"@),
        served().contains("explain_tool_plan"@),
{
    let j = tool_list(plan, intent, recipe);
    let empty = object();
    assert(served()[0] == "run_compiled_tool_graph"@);
    assert(served()[1] == "run_compiled_tool_intent"@);
    assert(served()[2] == "run_compiled_tool_recipe"@);
    assert(served()[3] == "explain_tool_plan"@);
    assert forall|list: Json| #[trigger] json_field(with(empty, "tools"@, list), "tools"@) == Some(
        list,
    ) by {
        lemma_one("tools"@, list, "tools"@);
    }
    lemma_entry(
        served()[0],
        "Run compiled tool graph"@,
        crate::serve::GRAPH_TEXT@,
        crate::serve::with_options("plan"@, plan),
    );
    lemma_entry(
        served()[1],
        "Run compiled tool intent"@,
        crate::serve::INTENT_TEXT@,
        crate::serve::with_options("intent"@, intent),
    );
    lemma_entry(
        served()[2],
        "Run compiled tool recipe"@,
        crate::serve::RECIPE_TEXT@,
        crate::serve::recipe_input(recipe),
    );
    lemma_entry(
        served()[3],
        "Explain a tool plan"@,
        crate::serve::EXPLAIN_TEXT@,
        crate::serve::explain_input(plan),
    );
}

} // verus!
