use std::cell::RefCell;

use my_dht::node::{peer_hit, Node, Outcome};

fn reply(outcome: Outcome) -> String {
    match outcome {
        Outcome::Reply(line) => line,
        Outcome::Terminate => panic!("expected a reply line"),
    }
}

/// Handles `request` on a node that has no way to reach its peers.
fn alone(node: &mut Node, request: &str) -> Outcome {
    node.handle_request(request, |_peer: String, _line: String| None)
}

/// Answers a forwarded request the way a peer at `addr` would, if it is one of `nodes`.
fn ask(nodes: &[&RefCell<Node>], peer: &str, line: &str) -> Option<String> {
    for cell in nodes {
        let mut node = cell.borrow_mut();
        if node.addr == peer {
            return match alone(&mut node, line) {
                Outcome::Reply(text) => Some(format!("{}\n", text)),
                Outcome::Terminate => None,
            };
        }
    }
    None
}

#[test]
fn two_node_test() {
    let node1_addr = "127.0.0.1:9000";
    let node2_addr = "127.0.0.1:9001";

    let mut node1 = Node::new(1, node1_addr);
    let mut node2 = Node::new(2, node2_addr);

    node1.add_peer(node2.addr.clone());
    node2.add_peer(node1.addr.clone());

    let cell1 = RefCell::new(node1);
    let cell2 = RefCell::new(node2);

    let stored = cell1
        .borrow_mut()
        .handle_request("STORE key1 value1\n", |p: String, l: String| ask(&[&cell2], &p, &l));
    assert_eq!("Stored", reply(stored));

    let response = cell2
        .borrow_mut()
        .handle_request("GET key1\n", |p: String, l: String| ask(&[&cell1], &p, &l));
    assert_eq!("value1", reply(response).trim());

    let end1 = cell1.borrow_mut().handle_request("GET terminate\n", |_p: String, _l: String| None);
    assert!(matches!(end1, Outcome::Terminate));
    let end2 = cell2.borrow_mut().handle_request("GET terminate\n", |_p: String, _l: String| None);
    assert!(matches!(end2, Outcome::Terminate));
}

#[test]
fn get_missing_without_peers() {
    let mut node = Node::new(7, "127.0.0.1:9100");
    assert_eq!("Key not found", reply(alone(&mut node, "GET missing")));
}

#[test]
fn store_then_get_on_same_node() {
    let mut node = Node::new(1, "127.0.0.1:9101");
    assert_eq!("Stored", reply(alone(&mut node, "STORE colour blue")));
    assert_eq!("blue", reply(alone(&mut node, "GET colour")));
}

#[test]
fn store_overwrites_earlier_value() {
    let mut node = Node::new(1, "127.0.0.1:9102");
    assert_eq!("Stored", reply(alone(&mut node, "STORE k first")));
    assert_eq!("Stored", reply(alone(&mut node, "STORE k second")));
    assert_eq!("second", reply(alone(&mut node, "GET k")));
}

#[test]
fn local_value_is_not_forwarded() {
    let mut node = Node::new(1, "127.0.0.1:9103");
    node.add_peer("127.0.0.1:9104".to_string());
    alone(&mut node, "STORE k mine");
    let asked = RefCell::new(0usize);
    let out = node.handle_request("GET k", |_p: String, _l: String| {
        *asked.borrow_mut() += 1;
        Some("theirs\n".to_string())
    });
    assert_eq!("mine", reply(out));
    assert_eq!(0, *asked.borrow());
}

#[test]
fn value_held_only_by_a_peer_is_relayed() {
    let mut a = Node::new(1, "a:1");
    a.add_peer("b:1".to_string());
    a.add_peer("c:1".to_string());
    a.add_peer("d:1".to_string());
    let b = RefCell::new(Node::new(2, "b:1"));
    let c = RefCell::new(Node::new(3, "c:1"));
    let d = RefCell::new(Node::new(4, "d:1"));
    reply(alone(&mut c.borrow_mut(), "STORE city Lyon"));
    let out = a.handle_request("GET city", |p: String, l: String| ask(&[&b, &c, &d], &p, &l));
    assert_eq!("Lyon", reply(out));
}

#[test]
fn unstored_key_with_peers_is_not_found() {
    let mut a = Node::new(1, "a:1");
    a.add_peer("b:1".to_string());
    a.add_peer("c:1".to_string());
    let b = RefCell::new(Node::new(2, "b:1"));
    let c = RefCell::new(Node::new(3, "c:1"));
    reply(alone(&mut b.borrow_mut(), "STORE other x"));
    let out = a.handle_request("GET nowhere", |p: String, l: String| ask(&[&b, &c], &p, &l));
    assert_eq!("Key not found", reply(out));
}

#[test]
fn first_peer_takes_precedence() {
    let mut a = Node::new(1, "a:1");
    a.add_peer("p1:1".to_string());
    a.add_peer("p2:1".to_string());
    let p1 = RefCell::new(Node::new(2, "p1:1"));
    let p2 = RefCell::new(Node::new(3, "p2:1"));
    reply(alone(&mut p1.borrow_mut(), "STORE k one"));
    reply(alone(&mut p2.borrow_mut(), "STORE k two"));
    let asked = RefCell::new(Vec::new());
    let out = a.handle_request("GET k", |p: String, l: String| {
        asked.borrow_mut().push(p.clone());
        ask(&[&p1, &p2], &p, &l)
    });
    assert_eq!("one", reply(out));
    assert_eq!(vec!["p1:1".to_string()], *asked.borrow());
}

#[test]
fn peers_are_asked_in_order_with_get_line() {
    let mut a = Node::new(1, "a:1");
    a.add_peer("x:1".to_string());
    a.add_peer("y:1".to_string());
    a.add_peer("z:1".to_string());
    let calls = RefCell::new(Vec::new());
    let out = a.handle_request("GET k", |p: String, l: String| {
        calls.borrow_mut().push((p.clone(), l.clone()));
        if p == "y:1" {
            Some("found\r\n".to_string())
        } else {
            Some("Key not found\n".to_string())
        }
    });
    assert_eq!("found", reply(out));
    assert_eq!(
        vec![
            ("x:1".to_string(), "GET k".to_string()),
            ("y:1".to_string(), "GET k".to_string()),
        ],
        *calls.borrow()
    );
}

#[test]
fn unreachable_peer_counts_as_miss() {
    let mut a = Node::new(1, "a:1");
    a.add_peer("down:1".to_string());
    a.add_peer("up:1".to_string());
    let out = a.handle_request("GET k", |p: String, _l: String| {
        if p == "up:1" {
            Some("v\n".to_string())
        } else {
            None
        }
    });
    assert_eq!("v", reply(out));
}

#[test]
fn all_peers_unreachable_is_not_found() {
    let mut a = Node::new(1, "a:1");
    a.add_peer("down:1".to_string());
    a.add_peer("down:2".to_string());
    assert_eq!("Key not found", reply(alone(&mut a, "GET k")));
}

#[test]
fn terminate_ends_the_loop_without_change() {
    let mut node = Node::new(1, "127.0.0.1:9105");
    alone(&mut node, "STORE a b");
    assert!(matches!(alone(&mut node, "GET terminate"), Outcome::Terminate));
    assert!(matches!(alone(&mut node, "  GET terminate \r\n"), Outcome::Terminate));
    assert_eq!("b", reply(alone(&mut node, "GET a")));
}

#[test]
fn unknown_command_is_invalid_and_changes_nothing() {
    let mut node = Node::new(1, "127.0.0.1:9106");
    assert_eq!("Invalid command", reply(alone(&mut node, "PUT k v")));
    assert_eq!("Invalid command", reply(alone(&mut node, "store k v")));
    assert_eq!("Invalid command", reply(alone(&mut node, "")));
    assert_eq!("Key not found", reply(alone(&mut node, "GET k")));
}

#[test]
fn wrong_arity_is_invalid() {
    let mut node = Node::new(1, "127.0.0.1:9107");
    assert_eq!("Invalid command", reply(alone(&mut node, "STORE k")));
    assert_eq!("Invalid command", reply(alone(&mut node, "STORE k v extra")));
    assert_eq!("Invalid command", reply(alone(&mut node, "GET")));
    assert_eq!("Invalid command", reply(alone(&mut node, "GET a b")));
    assert_eq!("Invalid command", reply(alone(&mut node, "GET  a")));
    assert_eq!("Key not found", reply(alone(&mut node, "GET k")));
}

#[test]
fn surrounding_whitespace_is_ignored() {
    let mut node = Node::new(1, "127.0.0.1:9108");
    assert_eq!("Stored", reply(alone(&mut node, "\t STORE k v \r\n")));
    assert_eq!("v", reply(alone(&mut node, "GET k\n")));
}

#[test]
fn new_node_keeps_address() {
    let node = Node::new(3, "10.0.0.1:7000");
    assert_eq!("10.0.0.1:7000", node.addr);
}

#[test]
fn peer_hit_reads_reply_lines() {
    assert_eq!(Some("v".to_string()), peer_hit(Some("v\n".to_string())));
    assert_eq!(Some("a b".to_string()), peer_hit(Some(" a b \r\n".to_string())));
    assert_eq!(None, peer_hit(Some("Key not found\n".to_string())));
    assert_eq!(None, peer_hit(Some("Key not found".to_string())));
    assert_eq!(None, peer_hit(None));
}
