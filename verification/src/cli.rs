//! What the command line tool decides.

use vstd::prelude::*;
use vstd::string::*;

use crate::chars;
use crate::chars::{space, split, trim};
use crate::json_text;
use crate::json_text::laid_out;
use crate::readings::{Readings, ReadingsView};
use crate::text::{from_chars, to_chars};
use crate::types::Embedding;

verus! {

// ---------------------------------------------------------------------------
// Peers
// ---------------------------------------------------------------------------

/// A peer that was named on the command line.
#[derive(Debug)]
pub struct Peer {
    pub node_id: u64,
    pub addr: String,
}

/// Peers as mathematical values.
pub open spec fn peer_views(peers: Seq<Peer>) -> Seq<(u64, Seq<char>)> {
    Seq::new(peers.len(), |i: int| (peers[i].node_id, peers[i].addr@))
}

/// The peers that addresses stand for: nodes are numbered from 1 on in the
/// order of the addresses, and the node's own number is passed over.
pub open spec fn numbered(addrs: Seq<Seq<char>>, node_id: u64) -> Seq<(u64, Seq<char>)>
    decreases addrs.len(),
{
    if addrs.len() == 0 {
        Seq::empty()
    } else {
        let before = numbered(addrs.drop_last(), node_id);
        if addrs.len() == node_id {
            before
        } else {
            before.push((addrs.len() as u64, chars::trimmed(addrs.last())))
        }
    }
}

/// The peers of a list of addresses with commas between them.
pub open spec fn peers_of(list: Seq<char>, node_id: u64) -> Seq<(u64, Seq<char>)> {
    if list.len() == 0 {
        Seq::empty()
    } else {
        numbered(chars::pieces(list, ','), node_id)
    }
}

/// The peers of a list of addresses with commas between them.
pub fn parse_peers(peers: &str, node_id: u64) -> (r: Vec<Peer>)
    ensures
        peer_views(r@) == peers_of(peers@, node_id),
{
    let list: Vec<char> = to_chars(peers);
    let mut r: Vec<Peer> = Vec::new();
    assert(peer_views(r@) =~= Seq::empty());
    if list.len() == 0 {
        return r;
    }
    let addrs: Vec<Vec<char>> = split(&list, ',');
    let ghost all = chars::char_views(addrs@);
    let mut i: usize = 0;
    assert(all.take(0) =~= Seq::empty());
    while i < addrs.len()
        invariant
            i <= addrs.len(),
            all == chars::char_views(addrs@),
            peer_views(r@) == numbered(all.take(i as int), node_id),
        decreases addrs.len() - i,
    {
        let ghost before = peer_views(r@);
        proof {
            assert(all.take(i + 1).drop_last() =~= all.take(i as int));
            assert(all.take(i + 1).last() == addrs@[i as int]@);
        }
        let peer_id: u64 = i as u64 + 1;
        if peer_id != node_id {
            let addr: Vec<char> = trim(&addrs[i]);
            let p = Peer { node_id: peer_id, addr: from_chars(addr.as_slice()) };
            let ghost view = (p.node_id, p.addr@);
            r.push(p);
            assert(peer_views(r@) =~= before.push(view));
        }
        i += 1;
    }
    assert(all.take(i as int) =~= all);
    r
}

/// Where the leader is that a node follows: none for the first node and for a
/// node without peers.
pub open spec fn leader_of(list: Seq<char>, node_id: u64) -> Option<Seq<char>> {
    if list.len() == 0 || node_id == 1 {
        None
    } else {
        Some(chars::trimmed(chars::pieces(list, ',')[0]))
    }
}

/// Where the leader is that a node follows.
pub fn leader_url(peers: &str, node_id: u64) -> (r: Option<String>)
    ensures
        match r {
            Some(u) => leader_of(peers@, node_id) == Some(u@),
            None => leader_of(peers@, node_id) is None,
        },
{
    let list: Vec<char> = to_chars(peers);
    if list.len() == 0 || node_id == 1 {
        return None;
    }
    let addrs: Vec<Vec<char>> = split(&list, ',');
    proof {
        assert(chars::char_views(addrs@)[0] == addrs@[0]@);
    }
    let addr: Vec<char> = trim(&addrs[0]);
    Some(from_chars(addr.as_slice()))
}

/// Where a follower looks for the leader, the peer of number 1: the peer of
/// that number is the one that the list names first.
pub proof fn the_leader_is_the_first_peer(list: Seq<char>, node_id: u64)
    requires
        list.len() > 0,
        node_id != 1,
    ensures
        peers_of(list, node_id).len() > 0,
        peers_of(list, node_id)[0] == (1u64, leader_of(list, node_id)->0),
{
    chars::lemma_pieces(list, ',');
    lemma_first(chars::pieces(list, ','), node_id);
}

proof fn lemma_first(addrs: Seq<Seq<char>>, node_id: u64)
    requires
        addrs.len() > 0,
        node_id != 1,
    ensures
        numbered(addrs, node_id).len() > 0,
        numbered(addrs, node_id)[0] == (1u64, chars::trimmed(addrs[0])),
    decreases addrs.len(),
{
    if addrs.len() > 1 {
        lemma_first(addrs.drop_last(), node_id);
        assert(addrs.drop_last()[0] == addrs[0]);
    } else {
        assert(numbered(addrs.drop_last(), node_id) =~= Seq::empty());
    }
}

/// Whether the report of a failed start says that the cluster was already
/// there.
pub fn already_initialized(report: &str) -> (r: bool)
    ensures
        r == (chars::found(report@, "AlreadyInitialized"@) is Some || chars::found(report@, "leader"@) is Some),
{
    let t: Vec<char> = to_chars(report);
    chars::find(&t, &to_chars("AlreadyInitialized")).is_some() || chars::find(&t, &to_chars("leader")).is_some()
}

// ---------------------------------------------------------------------------
// Requests and answers
// ---------------------------------------------------------------------------

/// An action on the records of a collection.
#[derive(Debug, Clone, Copy, PartialEq, Eq, Structural)]
pub enum RecordAction {
    Add,
    Upsert,
    Update,
    Delete,
    Query,
    Get,
    Count,
}

impl RecordAction {
    /// The name of the action in a path.
    pub open spec fn label(self) -> Seq<char> {
        match self {
            RecordAction::Add => "add"@,
            RecordAction::Upsert => "upsert"@,
            RecordAction::Update => "update"@,
            RecordAction::Delete => "delete"@,
            RecordAction::Query => "query"@,
            RecordAction::Get => "get"@,
            RecordAction::Count => "count"@,
        }
    }

    /// The name of the action in a path.
    pub fn name(&self) -> (r: &'static str)
        ensures
            r@ == self.label(),
    {
        match self {
            RecordAction::Add => "add",
            RecordAction::Upsert => "upsert",
            RecordAction::Update => "update",
            RecordAction::Delete => "delete",
            RecordAction::Query => "query",
            RecordAction::Get => "get",
            RecordAction::Count => "count",
        }
    }
}

/// Where collections are listed and created.
pub fn collections_url(url: &str) -> (r: String)
    ensures
        r@ == url@ + "/api/v2/collections"@,
{
    let mut s: String = url.to_owned();
    s.append("/api/v2/collections");
    s
}

/// Where a collection is.
pub fn collection_url(url: &str, id: &str) -> (r: String)
    ensures
        r@ == url@ + "/api/v2/collections"@ + "/"@ + id@,
{
    let mut s: String = collections_url(url);
    s.append("/");
    s.append(id);
    s
}

/// Where an action on the records of a collection is asked for.
pub fn record_url(url: &str, id: &str, action: RecordAction) -> (r: String)
    ensures
        r@ == url@ + "/api/v2/collections"@ + "/"@ + id@ + "/"@ + action.label(),
{
    let mut s: String = collection_url(url, id);
    s.append("/");
    s.append(action.name());
    s
}

/// What is printed of an answer: the body, laid out where it is JSON, or a
/// report of the error.
pub fn response_text(success: bool, status: &str, body: &str) -> (r: Result<String, String>)
    ensures
        success ==> (r matches Ok(t) && t@ == (match json_text::json_reading(body@) {
            Ok(v) => json_text::pretty_text(v),
            Err(_) => body@,
        })),
        !success ==> (r matches Err(t) && t@ == "Error ("@ + status@ + "): "@ + body@),
{
    if success {
        Ok(laid_out(body))
    } else {
        let mut s: String = "Error (".to_owned();
        s.append(status);
        s.append("): ");
        s.append(body);
        Err(s)
    }
}

// ---------------------------------------------------------------------------
// Vectors
// ---------------------------------------------------------------------------

/// The words of a text, between white space.
pub open spec fn words(s: Seq<char>) -> Seq<Seq<char>>
    decreases s.len(),
{
    if s.len() == 0 {
        Seq::empty()
    } else {
        let before = words(s.drop_last());
        if chars::is_space(s.last()) {
            before
        } else if s.len() == 1 || chars::is_space(s[s.len() - 2]) {
            before.push(seq![s.last()])
        } else {
            before.drop_last().push(before.last().push(s.last()))
        }
    }
}

/// The numbers among words, by their bit patterns, given how words were read.
/// Words that are no numbers are passed over; the first that was not read yet is
/// told.
pub open spec fn numbers(words: Seq<Seq<char>>, n: ReadingsView) -> Result<Seq<u32>, Seq<char>>
    decreases words.len(),
{
    if words.len() == 0 {
        Ok(Seq::empty())
    } else {
        match numbers(words.drop_last(), n) {
            Err(word) => Err(word),
            Ok(before) => if !n.singles.contains_key(words.last()) {
                Err(words.last())
            } else {
                match n.singles[words.last()] {
                    Ok(x) => Ok(before.push(x.bits)),
                    Err(_) => Ok(before),
                }
            },
        }
    }
}

/// The first word that was not read decides.
proof fn lemma_unread_word(words: Seq<Seq<char>>, n: ReadingsView, k: int)
    requires
        0 <= k <= words.len(),
        numbers(words.take(k), n) is Err,
    ensures
        numbers(words, n) == numbers(words.take(k), n),
    decreases words.len(),
{
    if k == words.len() {
        assert(words.take(k) =~= words);
    } else {
        assert(words.drop_last().take(k) =~= words.take(k));
        lemma_unread_word(words.drop_last(), n, k);
    }
}

/// The words of a text, between white space.
pub fn split_words(s: &Vec<char>) -> (r: Vec<Vec<char>>)
    ensures
        chars::char_views(r@) == words(s@),
{
    let mut out: Vec<Vec<char>> = Vec::new();
    let mut word: Vec<char> = Vec::new();
    let mut i: usize = 0;
    assert(s@.take(0) =~= Seq::empty());
    assert(chars::char_views(out@) =~= Seq::empty());
    while i < s.len()
        invariant
            i <= s.len(),
            i == 0 ==> word@.len() == 0,
            i > 0 ==> (word@.len() == 0 <==> chars::is_space(s@[i - 1])),
            word@.len() == 0 ==> chars::char_views(out@) == words(s@.take(i as int)),
            word@.len() > 0 ==> chars::char_views(out@).push(word@) == words(s@.take(i as int)),
        decreases s.len() - i,
    {
        let ghost before = chars::char_views(out@);
        let ghost tail = word@;
        proof {
            assert(s@.take(i + 1).drop_last() =~= s@.take(i as int));
            assert(s@.take(i + 1).last() == s@[i as int]);
            assert(before.push(tail).drop_last() =~= before);
        }
        if space(s[i]) {
            if word.len() > 0 {
                out.push(word);
                word = Vec::new();
                assert(chars::char_views(out@) =~= before.push(tail));
            }
        } else {
            word.push(s[i]);
            proof {
                if tail.len() == 0 {
                    assert(word@ =~= seq![s@[i as int]]);
                }
            }
        }
        i += 1;
    }
    assert(s@.take(i as int) =~= s@);
    if word.len() > 0 {
        let ghost before = chars::char_views(out@);
        let ghost tail = word@;
        out.push(word);
        assert(chars::char_views(out@) =~= before.push(tail));
    }
    out
}

/// The numbers of a text, in their order. Words that are no numbers are passed
/// over. Where a word has not been read yet, it is told.
pub fn read_vectors(input: &str, known: &Readings) -> (r: Result<Embedding, String>)
    requires
        known.wf(),
    ensures
        match (r, numbers(words(input@), known@)) {
            (Ok(v), Ok(w)) => v@ == w,
            (Err(word), Err(w)) => word@ == w,
            _ => false,
        },
{
    let all: Vec<Vec<char>> = split_words(&to_chars(input));
    let ghost views = chars::char_views(all@);
    let mut r: Vec<u32> = Vec::new();
    let mut i: usize = 0;
    assert(views.take(0) =~= Seq::empty());
    while i < all.len()
        invariant
            i <= all.len(),
            known.wf(),
            views == chars::char_views(all@),
            views == words(input@),
            numbers(views.take(i as int), known@) == Result::<Seq<u32>, Seq<char>>::Ok(r@),
        decreases all.len() - i,
    {
        proof {
            assert(views.take(i + 1).drop_last() =~= views.take(i as int));
            assert(views.take(i + 1).last() == all@[i as int]@);
        }
        let word: String = from_chars(all[i].as_slice());
        match known.single(word.as_str()) {
            Some(Ok(x)) => {
                r.push(x.bits);
            },
            Some(Err(_)) => {},
            None => {
                proof {
                    lemma_unread_word(views, known@, i + 1);
                }
                return Err(word);
            },
        }
        i += 1;
    }
    assert(views.take(i as int) =~= views);
    Ok(r)
}

/// Each address of the list is a peer with the number of its place, counted
/// from 1, but for the node's own; there are no other peers, and they stand in
/// the order of the list.
pub proof fn peers_are_numbered_by_place(addrs: Seq<Seq<char>>, node_id: u64, i: int)
    requires
        addrs.len() <= u64::MAX,
    ensures
        0 <= i < addrs.len() && i + 1 != node_id ==> numbered(addrs, node_id).contains(
            ((i + 1) as u64, chars::trimmed(addrs[i])),
        ),
        0 <= i < numbered(addrs, node_id).len() ==> {
            let p = numbered(addrs, node_id)[i];
            1 <= p.0 <= addrs.len() && p.0 != node_id && p.1 == chars::trimmed(addrs[p.0 - 1])
        },
        forall|a: int, b: int|
            0 <= a < b < numbered(addrs, node_id).len() ==> (#[trigger] numbered(addrs, node_id)[a]).0 < (
            #[trigger] numbered(addrs, node_id)[b]).0,
    decreases addrs.len(),
{
    if addrs.len() > 0 {
        let rest = addrs.drop_last();
        let before = numbered(rest, node_id);
        let all = numbered(addrs, node_id);
        peers_are_numbered_by_place(rest, node_id, i);
        if 0 <= i < rest.len() && i + 1 != node_id {
            let p = ((i + 1) as u64, chars::trimmed(rest[i]));
            let k = choose|k: int| 0 <= k < before.len() && before[k] == p;
            assert(all[k] == p);
        }
        if i == rest.len() && i + 1 != node_id {
            assert(all[before.len() as int] == ((i + 1) as u64, chars::trimmed(addrs[i])));
        }
        assert forall|a: int, b: int| 0 <= a < b < all.len() implies (#[trigger] all[a]).0 < (#[trigger] all[b]).0 by {
            assert(all[a] == before[a]);
            peers_are_numbered_by_place(rest, node_id, a);
            if b < before.len() {
                assert(all[b] == before[b]);
            }
        }
    }
}

/// Words one behind the other.
pub open spec fn run_on(w: Seq<Seq<char>>) -> Seq<char>
    decreases w.len(),
{
    if w.len() == 0 {
        Seq::empty()
    } else {
        run_on(w.drop_last()) + w.last()
    }
}

/// A text without its white space.
pub open spec fn without_space(s: Seq<char>) -> Seq<char>
    decreases s.len(),
{
    if s.len() == 0 {
        Seq::empty()
    } else if chars::is_space(s.last()) {
        without_space(s.drop_last())
    } else {
        without_space(s.drop_last()).push(s.last())
    }
}

/// The words of a text hold all that is no white space, in its order and nothing
/// else; none of them is empty.
pub proof fn words_hold_the_text(s: Seq<char>)
    ensures
        run_on(words(s)) == without_space(s),
        forall|i: int| 0 <= i < words(s).len() ==> (#[trigger] words(s)[i]).len() > 0,
        s.len() > 0 && !chars::is_space(s.last()) ==> words(s).len() > 0,
    decreases s.len(),
{
    if s.len() > 0 {
        let r = s.drop_last();
        let w = words(r);
        words_hold_the_text(r);
        if !chars::is_space(s.last()) {
            if s.len() == 1 || chars::is_space(s[s.len() - 2]) {
                assert(words(s).drop_last() =~= w);
                assert(run_on(words(s)) =~= without_space(s));
            } else {
                assert(r.last() == s[s.len() - 2]);
                assert(words(s).drop_last() =~= w.drop_last());
                assert(run_on(words(s)) =~= without_space(s));
            }
        }
    }
}

/// White space and nothing else parts words: the words of a text, white space
/// and a word are those of the text and the word.
pub proof fn white_space_parts_words(s: Seq<char>, space: char, word: Seq<char>)
    requires
        chars::is_space(space),
        word.len() > 0,
        forall|i: int| 0 <= i < word.len() ==> !chars::is_space(#[trigger] word[i]),
    ensures
        words(s.push(space)) == words(s),
        words(s.push(space) + word) == words(s).push(word),
    decreases word.len(),
{
    let t = s.push(space) + word;
    assert(s.push(space).drop_last() =~= s);
    let rest = word.drop_last();
    assert(t.drop_last() =~= s.push(space) + rest);
    assert(t.last() == word[word.len() - 1]);
    if rest.len() == 0 {
        assert(t.drop_last() =~= s.push(space));
        assert(t[t.len() - 2] == space);
        assert(seq![t.last()] =~= word);
    } else {
        white_space_parts_words(s, space, rest);
        assert(t[t.len() - 2] == word[word.len() - 2]);
        assert(rest.push(word.last()) =~= word);
        assert(words(s).push(rest).drop_last() =~= words(s));
    }
}

/// Words that are all known as numbers make a vector of as many components,
/// each in its place; the first that is not known is asked for.
pub proof fn words_are_read_as_numbers(w: Seq<Seq<char>>, n: ReadingsView, i: int)
    requires
        0 <= i < w.len(),
    ensures
        (forall|k: int|
            0 <= k < w.len() ==> n.singles.contains_key(#[trigger] w[k]) && n.singles[w[k]] is Ok) ==> (numbers(w, n)
            matches Ok(v) && v.len() == w.len() && v[i] == (n.singles[w[i]]->Ok_0).bits),
        !n.singles.contains_key(w[i]) && (forall|k: int| 0 <= k < i ==> n.singles.contains_key(#[trigger] w[k]))
            ==> numbers(w, n) == Result::<Seq<u32>, Seq<char>>::Err(w[i]),
    decreases w.len(),
{
    let rest = w.drop_last();
    assert(w.last() == w[w.len() - 1]);
    assert forall|k: int| 0 <= k < rest.len() implies #[trigger] rest[k] == w[k] by {}
    if forall|k: int| 0 <= k < w.len() ==> n.singles.contains_key(#[trigger] w[k]) && n.singles[w[k]] is Ok {
        if rest.len() > 0 {
            words_are_read_as_numbers(rest, n, if i < rest.len() {
                i
            } else {
                0
            });
        }
    }
    if !n.singles.contains_key(w[i]) && (forall|k: int| 0 <= k < i ==> n.singles.contains_key(#[trigger] w[k])) {
        if i < rest.len() {
            words_are_read_as_numbers(rest, n, i);
        } else {
            lemma_known_words(rest, n);
        }
    }
}

proof fn lemma_known_words(w: Seq<Seq<char>>, n: ReadingsView)
    requires
        forall|k: int| 0 <= k < w.len() ==> n.singles.contains_key(#[trigger] w[k]),
    ensures
        numbers(w, n) is Ok,
    decreases w.len(),
{
    if w.len() > 0 {
        assert(w.last() == w[w.len() - 1]);
        assert forall|k: int| 0 <= k < w.drop_last().len() implies n.singles.contains_key(
            #[trigger] w.drop_last()[k],
        ) by {
            assert(w.drop_last()[k] == w[k]);
        }
        lemma_known_words(w.drop_last(), n);
    }
}

} // verus!
