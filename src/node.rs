use vstd::prelude::*;

use crate::protocol::{is_blank_spec, parse_spec, trim, trim_line, Command, Request};
use crate::storage::Storage;

verus! {

/// The line a node answers when neither it nor any peer holds a key.
pub open spec fn not_found() -> Seq<char> {
    "Key not found"@
}

/// The line a node answers once it has stored a pair.
pub open spec fn stored() -> Seq<char> {
    "Stored"@
}

/// The line a node answers to a request it does not understand.
pub open spec fn invalid() -> Seq<char> {
    "Invalid command"@
}

/// The request a node sends a peer to look up `key`.
pub open spec fn get_line(key: Seq<char>) -> Seq<char> {
    "GET "@ + key
}

/// What a peer's reply line contributes: its trimmed text, unless the peer could
/// not be reached or answered that it does not hold the key.
pub open spec fn hit(reply: Option<Seq<char>>) -> Option<Seq<char>> {
    match reply {
        Some(line) => if trim(line) != not_found() {
            Some(trim(line))
        } else {
            None
        },
        None => None,
    }
}

/// The answer to a lookup forwarded to peers that replied `replies`, in order:
/// the first hit, or `Key not found` when there is none.
pub open spec fn relayed(replies: Seq<Option<Seq<char>>>) -> Seq<char>
    decreases replies.len(),
{
    if replies.len() == 0 {
        not_found()
    } else {
        match hit(replies[0]) {
            Some(v) => v,
            None => relayed(replies.drop_first()),
        }
    }
}

/// A reply, or its absence, as a sequence of characters.
pub open spec fn reply_view(reply: Option<String>) -> Option<Seq<char>> {
    match reply {
        Some(s) => Some(s@),
        None => None,
    }
}

/// The replies of a record of peer calls `(peer, request, reply)`.
pub open spec fn replies_of(calls: Seq<(String, String, Option<String>)>) -> Seq<Option<Seq<char>>> {
    calls.map_values(|c: (String, String, Option<String>)| reply_view(c.2))
}

/// `calls` is a forwarding of a lookup of `key` through `ask_peer`: the peers were
/// asked in their order, each with `GET key`, up to the first hit or to the last peer.
pub open spec fn forwarded_in_order<F: Fn(String, String) -> Option<String>>(
    ask_peer: F,
    peers: Seq<Seq<char>>,
    key: Seq<char>,
    calls: Seq<(String, String, Option<String>)>,
) -> bool {
    &&& calls.len() <= peers.len()
    &&& forall|i: int|
        0 <= i < calls.len() ==> {
            &&& (#[trigger] calls[i]).0@ == peers[i]
            &&& calls[i].1@ == get_line(key)
            &&& call_ensures(ask_peer, (calls[i].0, calls[i].1), calls[i].2)
        }
    &&& forall|i: int| 0 <= i < calls.len() - 1 ==> hit(reply_view((#[trigger] calls[i]).2)) is None
    &&& calls.len() < peers.len() ==> calls.len() > 0 && hit(reply_view(calls.last().2)) is Some
}

/// A node as values: its id, its address, what it stores and its peers in order.
pub struct NodeView {
    pub id: u64,
    pub addr: Seq<char>,
    pub storage: Map<Seq<char>, Seq<char>>,
    pub peers: Seq<Seq<char>>,
}

/// The node after it has handled `req`: only `STORE` changes it.
pub open spec fn next_view(n: NodeView, req: Request) -> NodeView {
    match req {
        Request::Store { key, value } => NodeView { storage: n.storage.insert(key, value), ..n },
        _ => n,
    }
}

/// The answer a node gives to `req` on its own, or `None` where it has none: it
/// stops on `GET terminate`, and asks its peers about a key it does not hold.
pub open spec fn local_answer(n: NodeView, req: Request) -> Option<Seq<char>> {
    match req {
        Request::Store { .. } => Some(stored()),
        Request::Get { key } => if n.storage.contains_key(key) {
            Some(n.storage[key])
        } else {
            None
        },
        Request::Terminate => None,
        Request::Invalid => Some(invalid()),
    }
}

/// What handling a request ends in: a reply line for the client, or the end of
/// the node's accept loop.
pub enum Outcome {
    Reply(String),
    Terminate,
}

impl View for Outcome {
    type V = Option<Seq<char>>;

    /// The reply line, or `None` at the end of the accept loop.
    open spec fn view(&self) -> Option<Seq<char>> {
        match self {
            Outcome::Reply(line) => Some(line@),
            Outcome::Terminate => None,
        }
    }
}

/// A key-value node: an id for diagnostics, the address it listens on, its own
/// storage, and the peers it asks, in order, about keys it does not hold.
pub struct Node {
    id: u64,
    pub addr: String,
    storage: Storage,
    peers: Vec<String>,
}

impl View for Node {
    type V = NodeView;

    closed spec fn view(&self) -> NodeView {
        NodeView {
            id: self.id,
            addr: self.addr@,
            storage: self.storage@,
            peers: self.peers@.map_values(|p: String| p@),
        }
    }
}

/// The reply line of a peer, as `hit` reads it.
pub fn peer_hit(reply: Option<String>) -> (r: Option<String>)
    ensures
        reply_view(r) == hit(reply_view(reply)),
{
    match reply {
        Some(line) => {
            let text = String::from_str(trim_line(line.as_str()));
            if text == String::from_str("Key not found") {
                None
            } else {
                Some(text)
            }
        },
        None => None,
    }
}

/// Where the replies of peers up to `j` hold no hit and the one of peer `j`
/// holds `v`, the forwarded answer is `v`.
proof fn lemma_relayed_first_hit(replies: Seq<Option<Seq<char>>>, j: int, v: Seq<char>)
    requires
        0 <= j < replies.len(),
        forall|k: int| 0 <= k < j ==> hit(#[trigger] replies[k]) is None,
        hit(replies[j]) == Some(v),
    ensures
        relayed(replies) == v,
    decreases j,
{
    if j > 0 {
        let rest = replies.drop_first();
        assert forall|k: int| 0 <= k < j - 1 implies hit(#[trigger] rest[k]) is None by {
            assert(rest[k] == replies[k + 1]);
        }
        assert(hit(replies[0]) is None);
        lemma_relayed_first_hit(rest, j - 1, v);
    }
}

/// Where no reply holds a hit, the forwarded answer is `Key not found`.
proof fn lemma_relayed_no_hit(replies: Seq<Option<Seq<char>>>)
    requires
        forall|k: int| 0 <= k < replies.len() ==> hit(#[trigger] replies[k]) is None,
    ensures
        relayed(replies) == not_found(),
    decreases replies.len(),
{
    if replies.len() > 0 {
        let rest = replies.drop_first();
        assert forall|k: int| 0 <= k < rest.len() implies hit(#[trigger] rest[k]) is None by {
            assert(rest[k] == replies[k + 1]);
        }
        assert(hit(replies[0]) is None);
        lemma_relayed_no_hit(rest);
    }
}

impl Node {
    /// The node's storage keeps its keys unique.
    pub closed spec fn wf(&self) -> bool {
        self.storage.wf()
    }

    /// A node with empty storage and no peers.
    pub fn new(id: u64, addr: &str) -> (r: Node)
        ensures
            r.wf(),
            r@ == (NodeView {
                id,
                addr: addr@,
                storage: Map::empty(),
                peers: Seq::empty(),
            }),
    {
        let r = Node { id, addr: String::from_str(addr), storage: Storage::new(), peers: Vec::new() };
        assert(r@.peers =~= Seq::<Seq<char>>::empty());
        r
    }

    /// Appends a peer to ask after those already there.
    pub fn add_peer(&mut self, peer_addr: String)
        requires
            old(self).wf(),
        ensures
            final(self).wf(),
            final(self)@ == (NodeView { peers: old(self)@.peers.push(peer_addr@), ..old(self)@ }),
    {
        let ghost p = peer_addr@;
        self.peers.push(peer_addr);
        assert(self@.peers =~= old(self)@.peers.push(p));
    }

    /// Asks the peers, in order, about `key` through `ask_peer`, up to the first
    /// hit, and answers that hit or `Key not found`.
    fn forward<F: Fn(String, String) -> Option<String>>(&self, key: &String, ask_peer: F) -> (r:
        String)
        requires
            forall|p: String, l: String| call_requires(ask_peer, (p, l)),
        ensures
            exists|calls: Seq<(String, String, Option<String>)>|
                forwarded_in_order(ask_peer, self@.peers, key@, calls) && r@ == relayed(
                    replies_of(calls),
                ),
    {
        let request = String::from_str("GET ").concat(key.as_str());
        let ghost peers = self@.peers;
        let n = self.peers.len();
        let mut i: usize = 0;
        let mut answer: Option<String> = None;
        let ghost mut calls: Seq<(String, String, Option<String>)> = Seq::empty();
        while i < n && answer.is_none()
            invariant
                n == self.peers@.len(),
                peers == self@.peers,
                request@ == get_line(key@),
                forall|p: String, l: String| call_requires(ask_peer, (p, l)),
                calls.len() == i,
                i <= n,
                forall|j: int|
                    0 <= j < i ==> {
                        &&& (#[trigger] calls[j]).0@ == peers[j]
                        &&& calls[j].1@ == get_line(key@)
                        &&& call_ensures(ask_peer, (calls[j].0, calls[j].1), calls[j].2)
                    },
                forall|j: int| 0 <= j < i - 1 ==> hit(reply_view((#[trigger] calls[j]).2)) is None,
                answer is None ==> forall|j: int|
                    0 <= j < i ==> hit(reply_view((#[trigger] calls[j]).2)) is None,
                answer is Some ==> i > 0 && reply_view(answer) == hit(reply_view(calls[i - 1].2)),
            decreases n - i,
        {
            let peer = self.peers[i].clone();
            let line = request.clone();
            let ghost call_peer = peer;
            let ghost call_line = line;
            let reply = ask_peer(peer, line);
            proof {
                calls = calls.push((call_peer, call_line, reply));
            }
            answer = peer_hit(reply);
            i = i + 1;
        }
        let ghost replies = replies_of(calls);
        assert(forall|j: int| 0 <= j < calls.len() ==> replies[j] == reply_view(#[trigger] calls[j].2));
        match answer {
            Some(v) => {
                proof {
                    lemma_relayed_first_hit(replies, i - 1, v@);
                }
                assert(forwarded_in_order(ask_peer, peers, key@, calls));
                v
            },
            None => {
                proof {
                    lemma_relayed_no_hit(replies);
                }
                assert(forwarded_in_order(ask_peer, peers, key@, calls));
                String::from_str("Key not found")
            },
        }
    }

    /// Handles one request line: stores a pair, answers a lookup from storage or
    /// else from the first peer that holds the key (asked through `ask_peer`,
    /// which sends a peer a request line and hands back its reply line, or `None`
    /// where the peer could not be reached), reports an invalid request, or ends
    /// the accept loop on `GET terminate`.
    pub fn handle_request<F: Fn(String, String) -> Option<String>>(
        &mut self,
        request: &str,
        ask_peer: F,
    ) -> (r: Outcome)
        requires
            old(self).wf(),
            forall|p: String, l: String| call_requires(ask_peer, (p, l)),
        ensures
            final(self).wf(),
            final(self)@ == next_view(old(self)@, parse_spec(request@)),
            local_answer(old(self)@, parse_spec(request@)) is Some ==> r@ == local_answer(
                old(self)@,
                parse_spec(request@),
            ),
            parse_spec(request@) is Terminate ==> r@ is None,
            match parse_spec(request@) {
                Request::Get { key } => !old(self)@.storage.contains_key(key) ==> exists|
                    calls: Seq<(String, String, Option<String>)>,
                |
                    forwarded_in_order(ask_peer, old(self)@.peers, key, calls) && r@ == Some(
                        relayed(replies_of(calls)),
                    ),
                _ => true,
            },
    {
        match Command::parse(request) {
            Command::Store { key, value } => {
                self.storage.put(key, value);
                Outcome::Reply(String::from_str("Stored"))
            },
            Command::Get { key } => match self.storage.get(&key) {
                Some(value) => Outcome::Reply(value),
                None => Outcome::Reply(self.forward(&key, ask_peer)),
            },
            Command::Terminate => Outcome::Terminate,
            Command::Invalid => Outcome::Reply(String::from_str("Invalid command")),
        }
    }
}

} // verus!
