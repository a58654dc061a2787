//! A persistent stdio session with response demultiplexing.
//!
//! Responses are routed to the requests that wait for them, so any number of
//! callers can have requests in flight. JSON-RPC notifications from the
//! server (no numeric `id`) are skipped, and server-to-client requests are
//! answered with `method not found`: they never corrupt an in-flight tool
//! call. When the child dies the session is dead, and what still waits fails
//! with the captured stderr tail.

use vstd::prelude::*;

use crate::adapters::mcp::{parse_response, McpClientError, McpErrorV};
use crate::json::{Json, NumberV, Value};
use crate::scan::parse_up_to;
use crate::text::{concat2, decimal_text, join_texts};

verus! {

use crate::adapters::mcp::response_of;
use crate::fields::{integer, number_field, object, with};
use crate::scan::parsed_number;
use crate::text::{decimal, join_with, texts_view};
use crate::value::json_field;

/// How many lines of stderr are kept.
pub const STDERR_TAIL_LINES: usize = 40;

/// A session as a mathematical value.
#[verifier::ext_equal]
pub struct SessionV {
    /// The requests that wait for a response.
    pub pending: Set<u64>,
    /// The last lines of stderr.
    pub stderr_tail: Seq<Seq<char>>,
    pub dead: bool,
}

/// What a message from the server leads to.
pub enum Routed {
    /// Nothing: a notification, or a response nobody waits for.
    Skip,
    /// This reply to a request of the server.
    Reply(Value),
    /// The response for the request with this id.
    Deliver(u64, Result<Value, McpClientError>),
}

/// A session.
#[derive(Debug)]
pub struct Session {
    pending: Vec<u64>,
    stderr_tail: Vec<String>,
    dead: bool,
}

impl View for Session {
    type V = SessionV;

    closed spec fn view(&self) -> SessionV {
        SessionV {
            pending: self.pending@.to_set(),
            stderr_tail: texts_view(self.stderr_tail@),
            dead: self.dead,
        }
    }
}

/// The reply to a request of the server.
pub open spec fn refusal(id: u64) -> Json {
    with(
        with(
            with(object(), "jsonrpc"@, Json::Text("2.0"@)),
            "id"@,
            Json::Number(NumberV::PosInt(id)),
        ),
        "error"@,
        with(
            with(object(), "code"@, integer(-32601)),
            "message"@,
            Json::Text("client handles no server requests"@),
        ),
    )
}

/// What is added to an error when the server wrote to stderr.
pub open spec fn tail_text(tail: Seq<Seq<char>>) -> Seq<char> {
    if tail.len() == 0 {
        Seq::empty()
    } else {
        "; server stderr tail:\n"@ + join_with(tail, "\n"@)
    }
}

/// The tail after one more line.
pub open spec fn tail_with(tail: Seq<Seq<char>>, line: Seq<char>) -> Seq<Seq<char>> {
    if tail.len() >= STDERR_TAIL_LINES {
        tail.drop_first().push(line)
    } else {
        tail.push(line)
    }
}

/// The message is a response to a request that waits for it.
pub open spec fn answers(s: SessionV, message: Json) -> Option<u64> {
    match number_field(message, "id"@) {
        Some(id) => if json_field(message, "method"@) is None && s.pending.contains(id) {
            Some(id)
        } else {
            None
        },
        None => None,
    }
}

/// Whatever a server sends, it takes nothing from a request but by answering
/// it: a notification or a request of the server leaves every call in
/// flight.
pub proof fn server_messages_do_not_disturb_calls(s: SessionV, message: Json)
    requires
        json_field(message, "method"@) is Some || number_field(message, "id"@) is None,
    ensures
        answers(s, message) is None,
{
}

impl Session {
    #[verifier::type_invariant]
    spec fn distinct(&self) -> bool {
        self.pending@.no_duplicates()
    }

    /// A session without requests.
    pub fn new() -> (r: Self)
        ensures
            r@ == (SessionV { pending: Set::empty(), stderr_tail: Seq::empty(), dead: false }),
    {
        let r = Session { pending: Vec::new(), stderr_tail: Vec::new(), dead: false };
        assert(r@.pending =~= Set::empty());
        assert(r@.stderr_tail =~= Seq::empty());
        r
    }

    fn position(&self, id: u64) -> (r: Option<usize>)
        ensures
            match r {
                Some(i) => i < self.pending@.len() && self.pending@[i as int] == id,
                None => !self.pending@.contains(id),
            },
    {
        let mut i: usize = 0;
        while i < self.pending.len()
            invariant
                i <= self.pending@.len(),
                forall|j: int| 0 <= j < i ==> self.pending@[j] != id,
            decreases self.pending.len() - i,
        {
            if self.pending[i] == id {
                return Some(i);
            }
            i = i + 1;
        }
        None
    }

    /// Lets the request wait for its response.
    pub fn register(&mut self, id: u64)
        ensures
            final(self)@ == (SessionV { pending: old(self)@.pending.insert(id), ..old(self)@ }),
    {
        proof {
            use_type_invariant(&*self);
        }
        if self.position(id).is_none() {
            let ghost before = self.pending@;
            let mut taken = Session::new();
            std::mem::swap(self, &mut taken);
            let Session { mut pending, stderr_tail, dead } = taken;
            pending.push(id);
            proof {
                assert(pending@.to_set() =~= before.to_set().insert(id)) by {
                    assert forall|x: u64| #[trigger] pending@.to_set().contains(x)
                        <==> before.to_set().insert(id).contains(x) by {
                        if before.contains(x) {
                            let i = choose|i: int| 0 <= i < before.len() && before[i] == x;
                            assert(pending@[i] == x);
                        }
                        assert(pending@[before.len() as int] == id);
                        if pending@.contains(x) {
                            let i = choose|i: int| 0 <= i < pending@.len() && pending@[i] == x;
                            if i < before.len() {
                                assert(before[i] == x);
                            }
                        }
                    }
                }
                assert forall|i: int, j: int|
                    0 <= i < pending@.len() && 0 <= j < pending@.len() && i != j implies pending@[i]
                    != pending@[j] by {
                    if i < before.len() && j < before.len() {
                        assert(before[i] != before[j]);
                    } else if i < before.len() {
                        assert(before.contains(before[i]));
                    } else {
                        assert(before.contains(before[j]));
                    }
                }
            }
            *self = Session { pending, stderr_tail, dead };
        }
        proof {
            if old(self).pending@.contains(id) {
                assert(old(self)@.pending.insert(id) =~= old(self)@.pending);
            }
            assert(self@ =~= (SessionV {
                pending: old(self)@.pending.insert(id),
                ..old(self)@
            }));
        }
    }

    /// Stops waiting for the response of the request; says whether it
    /// waited.
    pub fn unregister(&mut self, id: u64) -> (r: bool)
        ensures
            r == old(self)@.pending.contains(id),
            final(self)@ == (SessionV { pending: old(self)@.pending.remove(id), ..old(self)@ }),
    {
        proof {
            use_type_invariant(&*self);
        }
        let found = self.position(id);
        if let Some(at) = found {
            let ghost before = self.pending@;
            let mut taken = Session::new();
            std::mem::swap(self, &mut taken);
            let Session { mut pending, stderr_tail, dead } = taken;
            pending.remove(at);
            proof {
                let after = pending@;
                assert forall|i: int| 0 <= i < after.len() implies #[trigger] after[i] == before[if i
                    < at {
                    i
                } else {
                    i + 1
                }] by {}
                assert(after.no_duplicates());
                assert(before.contains(id));
                assert(after.to_set() =~= before.to_set().remove(id)) by {
                    assert forall|x: u64| #[trigger] after.to_set().contains(x)
                        <==> before.to_set().remove(id).contains(x) by {
                        if after.contains(x) {
                            let i = choose|i: int| 0 <= i < after.len() && after[i] == x;
                            let j = if i < at {
                                i
                            } else {
                                i + 1
                            };
                            assert(before[j] == x);
                            assert(j != at);
                        }
                        if before.contains(x) && x != id {
                            let j = choose|j: int| 0 <= j < before.len() && before[j] == x;
                            if j < at {
                                assert(after[j] == x);
                            } else {
                                assert(after[j - 1] == x);
                            }
                        }
                    }
                }
            }
            *self = Session { pending, stderr_tail, dead };
        } else {
            assert(old(self)@.pending.remove(id) =~= old(self)@.pending);
        }
        proof {
            assert(self@ =~= (SessionV {
                pending: old(self)@.pending.remove(id),
                ..old(self)@
            }));
        }
        found.is_some()
    }

    /// What a message of the server leads to. A response reaches the request
    /// that waits for it, once.
    pub fn route(&mut self, message: &Value) -> (r: Routed)
        ensures
            match answers(old(self)@, message@) {
                Some(id) => {
                    &&& r is Deliver
                    &&& r->Deliver_0 == id
                    &&& crate::ordered::gives(r->Deliver_1, response_of(message@))
                    &&& final(self)@ == (SessionV {
                        pending: old(self)@.pending.remove(id),
                        ..old(self)@
                    })
                },
                None => {
                    &&& final(self)@ == old(self)@
                    &&& match number_field(message@, "id"@) {
                        Some(id) => if json_field(message@, "method"@) is Some {
                            r is Reply && r->Reply_0@ == refusal(id)
                        } else {
                            r is Skip
                        },
                        None => r is Skip,
                    }
                },
            },
    {
        let id = match message.number_at("id") {
            Some(id) => id,
            None => {
                return Routed::Skip;
            },
        };
        if message.get("method").is_some() {
            let error = Value::empty_object().with("code", Value::integer(-32601)).with(
                "message",
                Value::text("client handles no server requests"),
            );
            return Routed::Reply(
                Value::empty_object().with("jsonrpc", Value::text("2.0")).with(
                    "id",
                    Value::number(id),
                ).with("error", error),
            );
        }
        if self.unregister(id) {
            Routed::Deliver(id, parse_response(message))
        } else {
            assert(old(self)@.pending.remove(id) =~= old(self)@.pending);
            Routed::Skip
        }
    }

    /// Keeps a line of stderr.
    pub fn note_stderr(&mut self, line: &str)
        ensures
            final(self)@ == (SessionV {
                stderr_tail: tail_with(old(self)@.stderr_tail, line@),
                ..old(self)@
            }),
    {
        proof {
            use_type_invariant(&*self);
        }
        let ghost before = self@;
        let mut taken = Session::new();
        std::mem::swap(self, &mut taken);
        let Session { pending, mut stderr_tail, dead } = taken;
        let ghost tail = texts_view(stderr_tail@);
        if stderr_tail.len() >= STDERR_TAIL_LINES {
            stderr_tail.remove(0);
            assert(texts_view(stderr_tail@) =~= tail.drop_first());
        }
        let ghost rest = texts_view(stderr_tail@);
        stderr_tail.push(line.to_owned());
        proof {
            assert(texts_view(stderr_tail@) =~= rest.push(line@));
        }
        *self = Session { pending, stderr_tail, dead };
        assert(self@ =~= (SessionV { stderr_tail: tail_with(tail, line@), ..before }));
    }

    /// What is added to an error when the server wrote to stderr.
    pub fn stderr_suffix(&self) -> (r: String)
        ensures
            r@ == tail_text(self@.stderr_tail),
    {
        if self.stderr_tail.len() == 0 {
            let r = String::new();
            assert(r@ =~= Seq::empty());
            r
        } else {
            concat2("; server stderr tail:\n", join_texts(&self.stderr_tail, "\n").as_str())
        }
    }

    /// Whether the session is over.
    pub fn is_dead(&self) -> (r: bool)
        ensures
            r == self@.dead,
    {
        self.dead
    }

    /// Ends the session: the server closed its output. Returns the requests
    /// that waited, and the error that they fail with.
    pub fn close(&mut self) -> (r: (Vec<u64>, McpClientError))
        ensures
            r.0@.to_set() == old(self)@.pending,
            r.0@.no_duplicates(),
            r.1@ == McpErrorV::Transport(
                "server closed stdout"@ + tail_text(old(self)@.stderr_tail),
            ),
            final(self)@ == (SessionV { pending: Set::empty(), dead: true, ..old(self)@ }),
    {
        proof {
            use_type_invariant(&*self);
        }
        let suffix = self.stderr_suffix();
        let mut taken = Session::new();
        std::mem::swap(self, &mut taken);
        let Session { pending, stderr_tail, dead: _ } = taken;
        *self = Session { pending: Vec::new(), stderr_tail, dead: true };
        proof {
            assert(self@.pending =~= Set::empty());
            assert(self@ =~= (SessionV { pending: Set::empty(), dead: true, ..old(self)@ }));
        }
        (pending, McpClientError::Transport(concat2("server closed stdout", suffix.as_str())))
    }
}

/// The composition depth that an environment variable gives.
pub open spec fn depth_of(value: Option<Seq<char>>) -> nat {
    match value {
        Some(text) => match parsed_number(text, u32::MAX as nat) {
            Some(n) => n,
            None => 0,
        },
        None => 0,
    }
}

/// The composition depth that an environment variable gives.
pub fn parse_depth(value: Option<&str>) -> (r: u32)
    ensures
        r == depth_of(
            match value {
                Some(t) => Some(t@),
                None => None,
            },
        ),
{
    match value {
        Some(text) => match parse_up_to(text, u32::MAX as u64) {
            Some(n) => n as u32,
            None => 0,
        },
        None => 0,
    }
}

/// The composition depth that a spawned server is given: one more than the
/// parent's.
pub fn child_depth(parent: u32) -> (r: String)
    ensures
        r@ == decimal((parent + 1) as nat),
{
    decimal_text(parent as u64 + 1)
}

} // verus!
