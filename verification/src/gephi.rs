//! The Gephi GraphStreaming endpoint: where the neighbour search sends nodes and edges, and
//! the JSON messages it sends.

use vstd::prelude::*;

use crate::text::{decimal, lemma_decimal_numeral, numeral_of, push_decimal};
use vstd::string::StringExecFns;

verus! {

/// A Gephi streaming server and workspace; `enable` says whether to stream at all.
#[derive(Debug, Clone)]
pub struct Gephi {
    pub hostname: String,
    pub workspace: String,
    pub enable: bool,
}

/// The workspace name for workspace number `n`.
pub open spec fn workspace_name(n: u8) -> Seq<char> {
    "workspace"@ + decimal(n as nat)
}

impl Gephi {
    /// The endpoint chosen on the command line: host `hostname`, by default `localhost:8080`,
    /// and workspace `workspace<n>`, by default `workspace0`; streaming is on exactly when a
    /// workspace number is given.
    pub fn new(hostname: Option<String>, workspace: Option<u8>) -> (g: Gephi)
        ensures
            g.enable == workspace is Some,
            g.hostname@ == match hostname {
                Some(h) => h@,
                None => "localhost:8080"@,
            },
            g.workspace@ == workspace_name(
                match workspace {
                    Some(n) => n,
                    None => 0u8,
                },
            ),
    {
        let enable = workspace.is_some();
        let host = match hostname {
            Some(h) => h,
            None => "localhost:8080".to_owned(),
        };
        let n: u8 = match workspace {
            Some(n) => n,
            None => 0,
        };
        let mut name = "workspace".to_owned();
        push_decimal(&mut name, n as u64);
        Gephi { hostname: host, workspace: name, enable }
    }

    /// The URL that graph updates are posted to.
    pub fn update_url(&self) -> (r: String)
        ensures
            r@ == "http://"@ + self.hostname@ + "/"@ + self.workspace@ + "?operation=updateGraph"@,
    {
        let mut r = "http://".to_owned();
        r.append(self.hostname.as_str());
        r.append("/");
        r.append(self.workspace.as_str());
        r.append("?operation=updateGraph");
        r
    }
}

/// The workspace name is `workspace` followed by a numeral for the whole workspace number.
pub proof fn lemma_workspace_name(n: u8)
    ensures
        exists|d: Seq<char>| numeral_of(d, n as nat) && #[trigger] workspace_name(n) == "workspace"@ + d,
{
    lemma_decimal_numeral(n as nat);
    assert(workspace_name(n) == "workspace"@ + decimal(n as nat));
}

/// The message that adds node `id` with label `label`: `{"an":{<id>:{"label":"<label>"}}}`.
pub open spec fn node_message(id: nat, label: Seq<char>) -> Seq<char> {
    "{\"an\":{"@ + decimal(id) + ":{\"label\":\""@ + label + "\"}}}"@
}

/// The message that adds directed edge `id` from `source` to `target` with weight `weight`.
pub open spec fn edge_message(id: nat, source: nat, target: nat, weight: nat) -> Seq<char> {
    "{\"ae\":{"@ + decimal(id) + ":{\"source\":"@ + decimal(source) + ",\"target\":"@ + decimal(
        target,
    ) + ",\"directed\":true,\"weight\":"@ + decimal(weight) + "}}}"@
}

/// The body of the request that adds node `id` labelled `label`.
pub fn node_message_text(id: usize, label: &str) -> (r: String)
    ensures
        r@ == node_message(id as nat, label@),
{
    let mut r = "{\"an\":{".to_owned();
    push_decimal(&mut r, id as u64);
    r.append(":{\"label\":\"");
    r.append(label);
    r.append("\"}}}");
    r
}

/// The body of the request that adds directed edge `id` from `source` to `target`.
pub fn edge_message_text(id: usize, source: usize, target: usize, weight: u32) -> (r: String)
    ensures
        r@ == edge_message(id as nat, source as nat, target as nat, weight as nat),
{
    let mut r = "{\"ae\":{".to_owned();
    push_decimal(&mut r, id as u64);
    r.append(":{\"source\":");
    push_decimal(&mut r, source as u64);
    r.append(",\"target\":");
    push_decimal(&mut r, target as u64);
    r.append(",\"directed\":true,\"weight\":");
    push_decimal(&mut r, weight as u64);
    r.append("}}}");
    r
}

/// The node message carries a numeral for the whole node id, and the label as it is.
pub proof fn lemma_node_message_numbers(id: nat, label: Seq<char>)
    ensures
        exists|d: Seq<char>|
            numeral_of(d, id) && #[trigger] node_message(id, label) == "{\"an\":{"@ + d
                + ":{\"label\":\""@ + label + "\"}}}"@,
{
    lemma_decimal_numeral(id);
    assert(node_message(id, label) == "{\"an\":{"@ + decimal(id) + ":{\"label\":\""@ + label
        + "\"}}}"@);
}

/// The edge message carries numerals for the whole edge id, source, target and weight, in
/// that order, and marks the edge directed.
pub proof fn lemma_edge_message_numbers(id: nat, source: nat, target: nat, weight: nat)
    ensures
        exists|a: Seq<char>, b: Seq<char>, c: Seq<char>, d: Seq<char>|
            numeral_of(a, id) && numeral_of(b, source) && numeral_of(c, target) && numeral_of(
                d,
                weight,
            ) && #[trigger] edge_message(id, source, target, weight) == "{\"ae\":{"@ + a
                + ":{\"source\":"@ + b + ",\"target\":"@ + c + ",\"directed\":true,\"weight\":"@
                + d + "}}}"@,
{
    lemma_decimal_numeral(id);
    lemma_decimal_numeral(source);
    lemma_decimal_numeral(target);
    lemma_decimal_numeral(weight);
    assert(edge_message(id, source, target, weight) == "{\"ae\":{"@ + decimal(id)
        + ":{\"source\":"@ + decimal(source) + ",\"target\":"@ + decimal(target)
        + ",\"directed\":true,\"weight\":"@ + decimal(weight) + "}}}"@);
}

} // verus!

