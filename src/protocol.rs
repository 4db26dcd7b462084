use vstd::prelude::*;

verus! {

/// Whitespace as Unicode's White_Space property has it: the characters that a
/// request line loses at either end.
pub open spec fn is_blank_spec(c: char) -> bool {
    ('\u{9}' <= c && c <= '\u{d}') || c == ' ' || c == '\u{85}' || c == '\u{a0}'
        || c == '\u{1680}' || ('\u{2000}' <= c && c <= '\u{200a}') || c == '\u{2028}'
        || c == '\u{2029}' || c == '\u{202f}' || c == '\u{205f}' || c == '\u{3000}'
}

/// `s` without its leading whitespace.
pub open spec fn trim_start(s: Seq<char>) -> Seq<char>
    decreases s.len(),
{
    if s.len() > 0 && is_blank_spec(s[0]) {
        trim_start(s.drop_first())
    } else {
        s
    }
}

/// `s` without its trailing whitespace.
pub open spec fn trim_end(s: Seq<char>) -> Seq<char>
    decreases s.len(),
{
    if s.len() > 0 && is_blank_spec(s.last()) {
        trim_end(s.drop_last())
    } else {
        s
    }
}

/// `s` without whitespace at either end.
pub open spec fn trim(s: Seq<char>) -> Seq<char> {
    trim_end(trim_start(s))
}

/// The pieces of `s` between single spaces: `"a  b"` gives `a`, the empty
/// piece and `b`; the empty line gives one empty piece.
pub open spec fn split_spaces(s: Seq<char>) -> Seq<Seq<char>>
    decreases s.len(),
{
    if s.len() == 0 {
        seq![Seq::empty()]
    } else {
        let t = split_spaces(s.drop_last());
        if s.last() == ' ' {
            t.push(Seq::empty())
        } else {
            t.update(t.len() - 1, t.last().push(s.last()))
        }
    }
}

/// Whether `c` is whitespace.
pub fn is_blank(c: char) -> (r: bool)
    ensures
        r == is_blank_spec(c),
{
    ('\u{9}' <= c && c <= '\u{d}') || c == ' ' || c == '\u{85}' || c == '\u{a0}'
        || c == '\u{1680}' || ('\u{2000}' <= c && c <= '\u{200a}') || c == '\u{2028}'
        || c == '\u{2029}' || c == '\u{202f}' || c == '\u{205f}' || c == '\u{3000}'
}

proof fn lemma_trim_start_from(s: Seq<char>, i: int)
    requires
        0 <= i < s.len(),
        forall|j: int| 0 <= j < i ==> is_blank_spec(#[trigger] s[j]),
    ensures
        trim_start(s) == trim_start(s.subrange(i, s.len() as int)),
    decreases i,
{
    if i > 0 {
        assert(s.drop_first() =~= s.subrange(1, s.len() as int));
        lemma_trim_start_from(s.drop_first(), i - 1);
        assert(s.drop_first().subrange(i - 1, s.len() - 1) =~= s.subrange(i, s.len() as int));
        assert(is_blank_spec(s[0]));
    } else {
        assert(s.subrange(0, s.len() as int) =~= s);
    }
}

proof fn lemma_trim_end_to(s: Seq<char>, e: int)
    requires
        0 <= e <= s.len(),
        forall|j: int| e <= j < s.len() ==> is_blank_spec(#[trigger] s[j]),
    ensures
        trim_end(s) == trim_end(s.subrange(0, e)),
    decreases s.len() - e,
{
    if e < s.len() {
        lemma_trim_end_to(s.drop_last(), e);
        assert(s.drop_last().subrange(0, e) =~= s.subrange(0, e));
    } else {
        assert(s.subrange(0, e) =~= s);
    }
}

/// The request line `line` without whitespace at either end.
pub fn trim_line(line: &str) -> (r: &str)
    ensures
        r@ == trim(line@),
{
    let n = line.unicode_len();
    let mut start: usize = 0;
    while start < n && is_blank(line.get_char(start))
        invariant
            n == line@.len(),
            0 <= start <= n,
            forall|j: int| 0 <= j < start ==> is_blank_spec(#[trigger] line@[j]),
        decreases n - start,
    {
        start = start + 1;
    }
    let ghost s = line@;
    proof {
        if start < n {
            lemma_trim_start_from(s, start as int);
        } else {
            assert forall|k: int| 0 <= k <= s.len() implies trim_start(s.subrange(k, s.len() as int))
                =~= Seq::<char>::empty() by {
                lemma_trim_start_empty(s, k);
            }
        }
    }
    let mut end: usize = n;
    while end > start && is_blank(line.get_char(end - 1))
        invariant
            n == line@.len(),
            0 <= start <= end <= n,
            forall|j: int| end <= j < n ==> is_blank_spec(#[trigger] line@[j]),
        decreases end,
    {
        end = end - 1;
    }
    let r = line.substring_char(start, end);
    proof {
        let t = s.subrange(start as int, n as int);
        if start < n {
            assert(trim_start(t) == t);
            lemma_trim_end_to(t, end - start);
            assert(t.subrange(0, end - start) =~= r@);
            assert(trim_end(r@) == r@);
        } else {
            assert(t =~= Seq::<char>::empty());
            assert(r@ =~= Seq::<char>::empty());
            lemma_trim_start_empty(s, 0);
            assert(s.subrange(0, s.len() as int) =~= s);
        }
    }
    r
}

proof fn lemma_trim_start_empty(s: Seq<char>, k: int)
    requires
        0 <= k <= s.len(),
        forall|j: int| 0 <= j < s.len() ==> is_blank_spec(#[trigger] s[j]),
    ensures
        trim_start(s.subrange(k, s.len() as int)) =~= Seq::<char>::empty(),
    decreases s.len() - k,
{
    let t = s.subrange(k, s.len() as int);
    if k < s.len() {
        assert(t.drop_first() =~= s.subrange(k + 1, s.len() as int));
        lemma_trim_start_empty(s, k + 1);
    }
}

/// The pieces of `line` between single spaces, as `split_spaces` gives them.
pub fn split_line(line: &str) -> (r: Vec<String>)
    ensures
        r@.map_values(|t: String| t@) == split_spaces(line@),
{
    let n = line.unicode_len();
    let mut tokens: Vec<String> = Vec::new();
    let mut start: usize = 0;
    let mut i: usize = 0;
    assert(line@.take(0) =~= Seq::<char>::empty());
    assert(tokens@.map_values(|t: String| t@).push(line@.subrange(0, 0)) =~= seq![
        Seq::<char>::empty(),
    ]);
    while i < n
        invariant
            n == line@.len(),
            0 <= start <= i <= n,
            split_spaces(line@.take(i as int)) == tokens@.map_values(|t: String| t@).push(
                line@.subrange(start as int, i as int),
            ),
        decreases n - i,
    {
        let ghost before = tokens@.map_values(|t: String| t@);
        assert(line@.take(i + 1).drop_last() =~= line@.take(i as int));
        if line.get_char(i) == ' ' {
            let piece = line.substring_char(start, i);
            tokens.push(String::from_str(piece));
            start = i + 1;
            assert(tokens@.map_values(|t: String| t@) =~= before.push(piece@));
            assert(line@.subrange(start as int, i + 1) =~= Seq::<char>::empty());
        } else {
            assert(line@.subrange(start as int, i as int).push(line@[i as int]) =~= line@.subrange(
                start as int,
                i + 1,
            ));
        }
        i = i + 1;
        assert(split_spaces(line@.take(i as int)) =~= tokens@.map_values(|t: String| t@).push(
            line@.subrange(start as int, i as int),
        ));
    }
    let ghost before = tokens@.map_values(|t: String| t@);
    let piece = line.substring_char(start, n);
    tokens.push(String::from_str(piece));
    assert(line@.take(n as int) =~= line@);
    assert(tokens@.map_values(|t: String| t@) =~= before.push(piece@));
    tokens
}

/// `s` can stand as one piece of a request line: it is not empty, holds no
/// space, and does not end in whitespace.
pub open spec fn is_token(s: Seq<char>) -> bool {
    &&& s.len() > 0
    &&& forall|i: int| 0 <= i < s.len() ==> #[trigger] s[i] != ' '
    &&& !is_blank_spec(s.last())
}

/// A line that starts and ends with other characters than whitespace is its own trim.
pub proof fn lemma_trim_keeps(s: Seq<char>)
    requires
        s.len() > 0,
        !is_blank_spec(s[0]),
        !is_blank_spec(s.last()),
    ensures
        trim(s) == s,
{
}

/// Splitting never gives an empty list of pieces.
pub proof fn lemma_split_nonempty(s: Seq<char>)
    ensures
        split_spaces(s).len() > 0,
    decreases s.len(),
{
    if s.len() > 0 {
        lemma_split_nonempty(s.drop_last());
    }
}

/// A piece without spaces after a space adds one piece.
pub proof fn lemma_split_append(a: Seq<char>, b: Seq<char>)
    requires
        forall|i: int| 0 <= i < b.len() ==> #[trigger] b[i] != ' ',
    ensures
        split_spaces(a + seq![' '] + b) == split_spaces(a).push(b),
    decreases b.len(),
{
    let s = a + seq![' '] + b;
    if b.len() == 0 {
        assert(s.drop_last() =~= a);
        assert(b =~= Seq::<char>::empty());
    } else {
        let b0 = b.drop_last();
        assert(s.drop_last() =~= a + seq![' '] + b0);
        lemma_split_append(a, b0);
        assert(b0.push(b.last()) =~= b);
        assert(split_spaces(s) =~= split_spaces(a).push(b));
    }
}

/// A line without spaces is a single piece.
pub proof fn lemma_split_single(b: Seq<char>)
    requires
        forall|i: int| 0 <= i < b.len() ==> #[trigger] b[i] != ' ',
    ensures
        split_spaces(b) == seq![b],
    decreases b.len(),
{
    if b.len() > 0 {
        let b0 = b.drop_last();
        lemma_split_single(b0);
        assert(b0.push(b.last()) =~= b);
        assert(split_spaces(b) =~= seq![b]);
    } else {
        assert(b =~= Seq::<char>::empty());
    }
}

/// What a request line asks of a node.
pub enum Request {
    Store { key: Seq<char>, value: Seq<char> },
    Get { key: Seq<char> },
    Terminate,
    Invalid,
}

/// The request that the pieces of a line make: `STORE key value`, `GET key`, and
/// `GET terminate`, the reserved key that stops a node; anything else is invalid.
pub open spec fn request_of(tokens: Seq<Seq<char>>) -> Request {
    if tokens.len() == 3 && tokens[0] == "STORE"@ {
        Request::Store { key: tokens[1], value: tokens[2] }
    } else if tokens.len() == 2 && tokens[0] == "GET"@ {
        if tokens[1] == "terminate"@ {
            Request::Terminate
        } else {
            Request::Get { key: tokens[1] }
        }
    } else {
        Request::Invalid
    }
}

/// The request that `line` holds.
pub open spec fn parse_spec(line: Seq<char>) -> Request {
    request_of(split_spaces(trim(line)))
}

/// A parsed request line.
pub enum Command {
    Store { key: String, value: String },
    Get { key: String },
    Terminate,
    Invalid,
}

impl View for Command {
    type V = Request;

    open spec fn view(&self) -> Request {
        match self {
            Command::Store { key, value } => Request::Store { key: key@, value: value@ },
            Command::Get { key } => Request::Get { key: key@ },
            Command::Terminate => Request::Terminate,
            Command::Invalid => Request::Invalid,
        }
    }
}

impl Command {
    /// Reads one request line.
    pub fn parse(line: &str) -> (r: Command)
        ensures
            r@ == parse_spec(line@),
    {
        let mut tokens = split_line(trim_line(line));
        let ghost t = tokens@.map_values(|t: String| t@);
        assert(tokens@.len() == t.len());
        if tokens.len() == 3 && tokens[0] == String::from_str("STORE") {
            assert(t[0] == tokens@[0]@);
            let value = tokens.pop().unwrap();
            let key = tokens.pop().unwrap();
            assert(t[1] == key@ && t[2] == value@);
            Command::Store { key, value }
        } else if tokens.len() == 2 && tokens[0] == String::from_str("GET") {
            assert(t[0] == tokens@[0]@);
            let key = tokens.pop().unwrap();
            assert(t[1] == key@);
            if key == String::from_str("terminate") {
                Command::Terminate
            } else {
                Command::Get { key }
            }
        } else {
            proof {
                if tokens@.len() == 3 || tokens@.len() == 2 {
                    assert(t[0] == tokens@[0]@);
                }
            }
            Command::Invalid
        }
    }
}

} // verus!
