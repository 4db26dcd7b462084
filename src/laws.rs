use vstd::prelude::*;

use crate::node::{get_line, hit, invalid, local_answer, next_view, not_found, relayed, stored, NodeView};
use crate::protocol::{
    is_blank_spec, is_token, lemma_split_append, lemma_split_nonempty, lemma_split_single,
    lemma_trim_keeps, parse_spec, split_spaces, trim, Request,
};

verus! {

/// The request line that stores `value` under `key`.
pub open spec fn store_line(key: Seq<char>, value: Seq<char>) -> Seq<char> {
    "STORE "@ + key + " "@ + value
}

/// After `STORE k v`, a node answers `GET k` with `v` from its own storage, whatever
/// it held before and whoever its peers are.
pub proof fn store_then_get(n: NodeView, k: Seq<char>, v: Seq<char>)
    requires
        is_token(k),
        is_token(v),
        k != "terminate"@,
    ensures
        parse_spec(store_line(k, v)) == (Request::Store { key: k, value: v }),
        local_answer(n, parse_spec(store_line(k, v))) == Some(stored()),
        parse_spec(get_line(k)) == (Request::Get { key: k }),
        local_answer(next_view(n, parse_spec(store_line(k, v))), parse_spec(get_line(k))) == Some(
            v,
        ),
{
    reveal_strlit("STORE ");
    reveal_strlit(" ");
    reveal_strlit("STORE");
    reveal_strlit("GET ");
    reveal_strlit("GET");
    let store = "STORE"@;
    let line = store_line(k, v);
    assert(line =~= (store + seq![' '] + k) + seq![' '] + v);
    assert(line[0] == 'S');
    assert(line.last() == v.last());
    lemma_trim_keeps(line);
    lemma_split_single(store);
    lemma_split_append(store, k);
    lemma_split_append(store + seq![' '] + k, v);
    assert(split_spaces(line) =~= seq![store, k, v]);
    let get = "GET"@;
    let gline = get_line(k);
    assert(gline =~= get + seq![' '] + k);
    assert(gline[0] == 'G');
    assert(gline.last() == k.last());
    lemma_trim_keeps(gline);
    lemma_split_single(get);
    lemma_split_append(get, k);
    assert(split_spaces(gline) =~= seq![get, k]);
}

/// A line whose first piece is neither `STORE` nor `GET` is answered with
/// `Invalid command` and leaves the node as it was.
pub proof fn unknown_command_is_invalid(n: NodeView, line: Seq<char>)
    requires
        split_spaces(trim(line))[0] != "STORE"@,
        split_spaces(trim(line))[0] != "GET"@,
    ensures
        parse_spec(line) == Request::Invalid,
        local_answer(n, parse_spec(line)) == Some(invalid()),
        next_view(n, parse_spec(line)) == n,
{
    lemma_split_nonempty(trim(line));
}

/// `GET terminate` stops the node's accept loop, with no reply and no change to
/// the node.
pub proof fn terminate_stops(n: NodeView)
    ensures
        parse_spec("GET terminate"@) == Request::Terminate,
        local_answer(n, parse_spec("GET terminate"@)) is None,
        next_view(n, parse_spec("GET terminate"@)) == n,
{
    reveal_strlit("GET terminate");
    reveal_strlit("GET");
    reveal_strlit("terminate");
    let line = "GET terminate"@;
    let get = "GET"@;
    let t = "terminate"@;
    assert(line =~= get + seq![' '] + t);
    lemma_trim_keeps(line);
    lemma_split_single(get);
    lemma_split_append(get, t);
    assert(split_spaces(line) =~= seq![get, t]);
}

/// A value that a peer answers with is relayed as it stands.
proof fn lemma_value_reply(v: Seq<char>)
    requires
        is_token(v),
        !is_blank_spec(v[0]),
        v != not_found(),
    ensures
        hit(Some(v)) == Some(v),
{
    lemma_trim_keeps(v);
}

/// Where only peer `j` holds the key and answers its value `v`, while every
/// other peer answers `Key not found` or cannot be reached, the node answers `v`.
pub proof fn only_holder_answers(replies: Seq<Option<Seq<char>>>, j: int, v: Seq<char>)
    requires
        0 <= j < replies.len(),
        replies[j] == Some(v),
        is_token(v),
        !is_blank_spec(v[0]),
        v != not_found(),
        forall|i: int|
            0 <= i < replies.len() && i != j ==> #[trigger] replies[i] is None || replies[i]
                == Some(not_found()),
    ensures
        relayed(replies) == v,
    decreases j,
{
    lemma_not_found_misses();
    lemma_value_reply(v);
    if j > 0 {
        let rest = replies.drop_first();
        assert(rest[j - 1] == replies[j]);
        assert forall|i: int| 0 <= i < rest.len() && i != j - 1 implies #[trigger] rest[i] is None
            || rest[i] == Some(not_found()) by {
            assert(rest[i] == replies[i + 1]);
        }
        assert(replies[0] is None || replies[0] == Some(not_found()));
        only_holder_answers(rest, j - 1, v);
    }
}

/// `Key not found` from a peer is no hit.
proof fn lemma_not_found_misses()
    ensures
        hit(Some(not_found())) is None,
{
    reveal_strlit("Key not found");
    lemma_trim_keeps(not_found());
}

/// Where every peer answers `Key not found` or cannot be reached, the node
/// answers `Key not found`.
pub proof fn no_holder_not_found(replies: Seq<Option<Seq<char>>>)
    requires
        forall|i: int| 0 <= i < replies.len() ==> #[trigger] replies[i] is None || replies[i] == Some(not_found()),
    ensures
        relayed(replies) == not_found(),
    decreases replies.len(),
{
    lemma_not_found_misses();
    if replies.len() > 0 {
        let rest = replies.drop_first();
        assert forall|i: int| 0 <= i < rest.len() implies #[trigger] rest[i] is None || rest[i]
            == Some(not_found()) by {
            assert(rest[i] == replies[i + 1]);
        }
        assert(replies[0] is None || replies[0] == Some(not_found()));
        no_holder_not_found(rest);
    }
}

/// Where the first peer answers a value `v1`, the node answers `v1`, whatever the
/// later peers hold.
pub proof fn first_peer_wins(replies: Seq<Option<Seq<char>>>, v1: Seq<char>, v2: Seq<char>)
    requires
        replies.len() >= 2,
        replies[0] == Some(v1),
        replies[1] == Some(v2),
        is_token(v1),
        !is_blank_spec(v1[0]),
        v1 != not_found(),
    ensures
        relayed(replies) == v1,
{
    lemma_value_reply(v1);
}

} // verus!
