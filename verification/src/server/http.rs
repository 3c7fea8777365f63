//! The pages for operators: metrics, health and readiness.

use vstd::prelude::*;
use vstd::utf8::{decode_utf8, encode_utf8, valid_utf8};
use crate::consensus::node::RaftNode;
use crate::consensus::state::Role;
use crate::consensus::transitions::{term_of_node, NodeView};
use crate::metrics::{exposition, Gauge, Metrics, Timings};
use crate::server::status::{role_text, role_view};
use crate::text::{
    before_char, decimal, decimal_text, head_before, index_of_char, joined, lemma_index_of_char,
};
use crate::words::{lemma_place_at, nth_word, same, white, word_from};

verus! {

/// Bytes as text, with what is not UTF-8 replaced: the result of
/// `String::from_utf8_lossy`.
pub uninterp spec fn lossy_text(bytes: Seq<u8>) -> Seq<char>;

/// `String::from_utf8_lossy`: bytes as text, with what is not UTF-8 replaced by
/// replacement characters. Of valid UTF-8 it gives the text that the bytes
/// encode; where the replacements stand in other texts is left to the name.
#[verifier::external_body]
pub(crate) fn to_text(bytes: &[u8]) -> (r: String)
    ensures
        r@ == lossy_text(bytes@),
        valid_utf8(bytes@) ==> r@ == decode_utf8(bytes@),
{
    String::from_utf8_lossy(bytes).into_owned()
}

/// The path that a request asks for: the second word of its first line, or the
/// root where there is none.
pub open spec fn path_of(request: Seq<char>) -> Seq<char> {
    match word_from(before_char(request, '\n'), 0, 1) {
        Some(path) => path,
        None => "/"@,
    }
}

/// The path that a request asks for.
pub fn request_path(request: &[u8]) -> (r: String)
    ensures
        r@ == path_of(lossy_text(request@)),
        valid_utf8(request@) ==> r@ == path_of(decode_utf8(request@)),
{
    let text: String = to_text(request);
    path_of_text(text.as_str())
}

/// The path that the text of a request asks for.
pub fn path_of_text(request: &str) -> (r: String)
    ensures
        r@ == path_of(request@),
{
    let line: String = head_before(request, '\n');
    match nth_word(line.as_str(), 1) {
        Some(path) => path,
        None => "/".to_string(),
    }
}

/// A response with its head and its body; the head gives the body's length in
/// bytes.
pub open spec fn page(head: Seq<char>, body: Seq<char>) -> Seq<char> {
    head + decimal(encode_utf8(body).len()) + "\r\n\r\n"@ + body
}

/// A response with its head and its body.
fn write_page(head: &str, body: &str) -> (r: String)
    ensures
        r@ == page(head@, body@),
{
    let length: usize = body.as_bytes().len();
    joined(head, decimal_text(length as u64).as_str()).concat("\r\n\r\n").concat(body)
}

/// The body of the page that says that a node is ready.
pub open spec fn ready_body(role: Role, leader: Option<u64>) -> Seq<char> {
    "{\"status\":\"ready\",\"role\":\""@ + role_view(role) + "\",\"leader\":"@ + decimal(
        match leader {
            Some(id) => id as nat,
            None => 0,
        },
    ) + "}"@
}

/// The response to a request for a path. A node is ready when it leads or knows
/// its leader.
pub open spec fn response(
    path: Seq<char>,
    role: Role,
    leader: Option<u64>,
    metrics: Seq<char>,
) -> Seq<char> {
    if path == "/metrics"@ {
        page(
            "HTTP/1.1 200 OK\r\nContent-Type: text/plain; version=0.0.4; charset=utf-8\r\nContent-Length: "@,
            metrics,
        )
    } else if path == "/health"@ {
        page(
            "HTTP/1.1 200 OK\r\nContent-Type: application/json\r\nContent-Length: "@,
            "{\"status\":\"ok\"}"@,
        )
    } else if path == "/ready"@ {
        if leader is Some || role == Role::Leader {
            page(
                "HTTP/1.1 200 OK\r\nContent-Type: application/json\r\nContent-Length: "@,
                ready_body(role, leader),
            )
        } else {
            page(
                "HTTP/1.1 503 Service Unavailable\r\nContent-Type: application/json\r\nContent-Length: "@,
                "{\"status\":\"not_ready\",\"reason\":\"no_leader\"}"@,
            )
        }
    } else {
        page("HTTP/1.1 404 Not Found\r\nContent-Length: "@, "Not Found"@)
    }
}

/// Answers requests for the pages.
#[derive(Debug, Clone, Copy)]
pub struct HttpServer {}

impl HttpServer {
    pub fn new() -> (r: Self)
        ensures
            r == (HttpServer {  }),
    {
        HttpServer {  }
    }

    /// The response to a request for a path. A request for the metrics first sets
    /// the gauges of the node.
    pub fn respond(
        &self,
        path: &str,
        node: &RaftNode,
        metrics: &mut Metrics,
        timings: &Timings,
    ) -> (r: String)
        ensures
            *final(metrics) == (if path@ == "/metrics"@ {
                with_gauges(*old(metrics), node@)
            } else {
                *old(metrics)
            }),
            r@ == response(
                path@,
                node@.state.role,
                node@.state.leader_id,
                exposition(*final(metrics), *timings),
            ),
    {
        if same(path, "/metrics") {
            update_raft_gauges(node, metrics);
            let body: String = metrics.encode(timings);
            write_page(
                "HTTP/1.1 200 OK\r\nContent-Type: text/plain; version=0.0.4; charset=utf-8\r\nContent-Length: ",
                body.as_str(),
            )
        } else if same(path, "/health") {
            write_page(
                "HTTP/1.1 200 OK\r\nContent-Type: application/json\r\nContent-Length: ",
                "{\"status\":\"ok\"}",
            )
        } else if same(path, "/ready") {
            let role: Role = node.role();
            let leader: Option<u64> = node.leader_id();
            if leader.is_some() || role == Role::Leader {
                let id: u64 = match leader {
                    Some(id) => id,
                    None => 0,
                };
                let body: String = joined(
                    "{\"status\":\"ready\",\"role\":\"",
                    role_text(role).as_str(),
                ).concat("\",\"leader\":").concat(decimal_text(id).as_str()).concat("}");
                write_page(
                    "HTTP/1.1 200 OK\r\nContent-Type: application/json\r\nContent-Length: ",
                    body.as_str(),
                )
            } else {
                write_page(
                    "HTTP/1.1 503 Service Unavailable\r\nContent-Type: application/json\r\nContent-Length: ",
                    "{\"status\":\"not_ready\",\"reason\":\"no_leader\"}",
                )
            }
        } else {
            write_page("HTTP/1.1 404 Not Found\r\nContent-Length: ", "Not Found")
        }
    }

    /// The response to the bytes of a request.
    pub fn answer(
        &self,
        request: &[u8],
        node: &RaftNode,
        metrics: &mut Metrics,
        timings: &Timings,
    ) -> (r: String)
        ensures
            *final(metrics) == (if path_of(lossy_text(request@)) == "/metrics"@ {
                with_gauges(*old(metrics), node@)
            } else {
                *old(metrics)
            }),
            r@ == response(
                path_of(lossy_text(request@)),
                node@.state.role,
                node@.state.leader_id,
                exposition(*final(metrics), *timings),
            ),
    {
        let path: String = request_path(request);
        self.respond(path.as_str(), node, metrics, timings)
    }
}

/// Metrics with the gauges of a node as it stands: its role is 0 for a node that
/// follows, 1 for a candidate and 2 for a leader, and a leader that is not known
/// is 0.
pub open spec fn with_gauges(m: Metrics, node: NodeView) -> Metrics {
    Metrics {
        raft_role: Gauge {
            value: match node.state.role {
                Role::Follower | Role::PreCandidate => 0,
                Role::Candidate => 1,
                Role::Leader => 2,
            },
        },
        raft_term: Gauge { value: term_of_node(node) as i64 },
        raft_commit_index: Gauge { value: node.state.commit_index as i64 },
        raft_applied_index: Gauge { value: node.state.last_applied as i64 },
        raft_leader_id: Gauge {
            value: match node.state.leader_id {
                Some(id) => id as i64,
                None => 0,
            },
        },
        raft_cluster_size: Gauge { value: node.membership.current.len() as i64 },
        ..m
    }
}

/// Sets the gauges of a node.
pub fn update_raft_gauges(node: &RaftNode, metrics: &mut Metrics)
    ensures
        *final(metrics) == with_gauges(*old(metrics), node@),
{
    metrics.raft_role.set(
        match node.role() {
            Role::Follower | Role::PreCandidate => 0,
            Role::Candidate => 1,
            Role::Leader => 2,
        },
    );
    metrics.raft_term.set(#[verifier::truncate] (node.term() as i64));
    metrics.raft_commit_index.set(#[verifier::truncate] (node.commit_index() as i64));
    metrics.raft_applied_index.set(#[verifier::truncate] (node.last_applied() as i64));
    metrics.raft_leader_id.set(
        match node.leader_id() {
            Some(id) => #[verifier::truncate] (id as i64),
            None => 0,
        },
    );
    let size: usize = node.membership().current_size();
    metrics.raft_cluster_size.set(#[verifier::truncate] (size as i64));
}

/// A server that runs is healthy. It is ready exactly where it leads or knows who
/// does. Any page but those for metrics, health and readiness is not found.
pub proof fn law_pages_tell_the_state(
    path: Seq<char>,
    role: Role,
    leader: Option<u64>,
    metrics: Seq<char>,
)
    ensures
        ({
            let text = response(path, role, leader, metrics);
            let ready = role == Role::Leader || leader is Some;
            let known = path == "/metrics"@ || path == "/health"@ || path == "/ready"@;
            &&& path == "/metrics"@ || path == "/health"@ || (path == "/ready"@ && ready)
                ==> text.take(12) == "HTTP/1.1 200"@
            &&& path == "/ready"@ && !ready ==> text.take(12) == "HTTP/1.1 503"@
            &&& !known ==> text.take(12) == "HTTP/1.1 404"@
            &&& path == "/metrics"@ ==> text.len() >= metrics.len() && text.skip(
                text.len() - metrics.len(),
            ) == metrics
        }),
{
    reveal_strlit("/metrics");
    reveal_strlit("/health");
    reveal_strlit("/ready");
    reveal_strlit("HTTP/1.1 200");
    reveal_strlit("HTTP/1.1 503");
    reveal_strlit("HTTP/1.1 404");
    reveal_strlit(
        "HTTP/1.1 200 OK\r\nContent-Type: text/plain; version=0.0.4; charset=utf-8\r\nContent-Length: ",
    );
    reveal_strlit("HTTP/1.1 200 OK\r\nContent-Type: application/json\r\nContent-Length: ");
    reveal_strlit(
        "HTTP/1.1 503 Service Unavailable\r\nContent-Type: application/json\r\nContent-Length: ",
    );
    reveal_strlit("HTTP/1.1 404 Not Found\r\nContent-Length: ");
    let text = response(path, role, leader, metrics);
    assert("/metrics"@.len() == 8 && "/health"@.len() == 7 && "/ready"@.len() == 6);
    if path == "/metrics"@ {
        assert(text.take(12) =~= "HTTP/1.1 200"@);
        assert(text.skip(text.len() - metrics.len()) =~= metrics);
    } else if path == "/health"@ {
        assert(text.take(12) =~= "HTTP/1.1 200"@);
    } else if path == "/ready"@ {
        if leader is Some || role == Role::Leader {
            assert(text.take(12) =~= "HTTP/1.1 200"@);
        } else {
            assert(text.take(12) =~= "HTTP/1.1 503"@);
        }
    } else {
        assert(text.take(12) =~= "HTTP/1.1 404"@);
    }
}

/// The gauges of a server show the node: its role by a number, its term, its
/// commit and applied index, the leader it knows and the size of its cluster. What
/// is counted stays.
pub proof fn law_gauges_show_the_node(m: Metrics, node: NodeView)
    requires
        node.state.persistent.current_term <= i64::MAX,
        node.state.commit_index <= i64::MAX,
        node.state.last_applied <= i64::MAX,
        node.state.leader_id matches Some(id) ==> id <= i64::MAX,
        node.membership.current.len() <= i64::MAX,
    ensures
        ({
            let after = with_gauges(m, node);
            &&& node.state.role == Role::Leader ==> after.raft_role.value == 2
            &&& node.state.role == Role::Candidate ==> after.raft_role.value == 1
            &&& node.state.role == Role::Follower || node.state.role == Role::PreCandidate
                ==> after.raft_role.value == 0
            &&& after.raft_term.value == node.state.persistent.current_term
            &&& after.raft_commit_index.value == node.state.commit_index
            &&& after.raft_applied_index.value == node.state.last_applied
            &&& node.state.leader_id matches Some(id) ==> after.raft_leader_id.value == id
            &&& node.state.leader_id is None ==> after.raft_leader_id.value == 0
            &&& after.raft_cluster_size.value == node.membership.current.len()
            &&& after.kv_ops_total == m.kv_ops_total
            &&& after.raft_elections_total == m.raft_elections_total
        }),
{
}

/// The path of a request is the second word of its first line.
pub proof fn law_paths_are_second_words(method: Seq<char>, path: Seq<char>, rest: Seq<char>)
    requires
        method.len() > 0,
        path.len() > 0,
        forall|i: int| 0 <= i < method.len() ==> !white(#[trigger] method[i]),
        forall|i: int| 0 <= i < path.len() ==> !white(#[trigger] path[i]),
    ensures
        path_of(method + seq![' '] + path + seq![' '] + rest) == path,
{
    let head = method + seq![' '] + path + seq![' '];
    let request = head + rest;
    assert(request =~= method + seq![' '] + path + seq![' '] + rest);
    let line = before_char(request, '\n');
    let end = index_of_char(request, '\n', 0);
    lemma_index_of_char(request, '\n', 0);
    let a = method.len() as int;
    let b = a + 1 + path.len() as int;
    assert(white('\n') && white(' '));
    assert(end > b) by {
        if end < a {
            assert(request[end] == method[end]);
        } else if end == a {
            assert(request[end] == ' ');
        } else if end < b {
            assert(request[end] == path[end - a - 1]);
        } else if end == b {
            assert(request[end] == ' ');
        }
    }
    assert forall|i: int| 0 <= i < a implies !white(#[trigger] line[i]) by {
        assert(line[i] == method[i]);
    }
    assert(line[a] == ' ');
    assert forall|i: int| a + 1 <= i < b implies !white(#[trigger] line[i]) by {
        assert(line[i] == path[i - a - 1]);
    }
    assert(line[b] == ' ');
    lemma_place_at(line, 0, false, 0);
    lemma_place_at(line, 0, true, a);
    lemma_place_at(line, a, false, a + 1);
    lemma_place_at(line, a + 1, true, b);
    assert(line.subrange(a + 1, b) =~= path);
    assert(word_from(line, a, 0) == Some(path));
    assert(word_from(line, 0, 1) == word_from(line, a, 0));
}

} // verus!
