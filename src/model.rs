use vstd::prelude::*;

use crate::protocol::{chat_line_spec, default_nick_spec, parse_spec, welcome_spec, CommandModel};
use mio::Token;

verus! {

/// One connection as the model sees it.
pub struct ConnModel {
    pub id: Token,
    pub nick: Seq<u8>,
    pub outbound: Seq<u8>,
}

/// The whole server state: the registry, in order of admission, the next
/// identifier to hand out, and the two configured bounds.
pub struct ChatModel {
    pub conns: Seq<ConnModel>,
    pub next_id: Token,
    pub capacity: nat,
    pub queue_bound: nat,
}

/// Why a new connection was not admitted.
#[derive(Clone, Copy, Debug, PartialEq, Eq, Structural)]
pub enum AdmitError {
    /// The registry already holds as many connections as it may.
    CapacityExceeded,
    /// Every identifier has been handed out.
    IdsExhausted,
}

/// What one non-blocking read on a connection produced.
pub enum ReadModel {
    Data(Seq<u8>),
    WouldBlock,
    Failed,
}

/// What one non-blocking write on a connection produced.
pub enum WriteModel {
    Wrote(nat),
    WouldBlock,
    Failed,
}

/// What the event loop must do with a connection's registration after a
/// write event.
#[derive(Clone, Copy, Debug, PartialEq, Eq, Structural)]
pub enum Drain {
    /// The queue is empty: keep read interest only.
    Idle,
    /// Bytes are still queued: keep write interest.
    Pending,
    /// The connection failed and was removed: deregister it.
    Closed,
    /// No such connection (a stale event): nothing to do.
    Absent,
}

/// The result of an event: the next state and the registration changes it
/// asks for.
pub struct Step {
    pub state: ChatModel,
    pub removed: Seq<Token>,
    pub woken: Seq<Token>,
}

/// The connection with identifier `id`, if the registry holds one.
pub open spec fn lookup(s: Seq<ConnModel>, id: Token) -> Option<ConnModel>
    decreases s.len(),
{
    if s.len() == 0 {
        None
    } else if s.last().id == id {
        Some(s.last())
    } else {
        lookup(s.drop_last(), id)
    }
}

/// Identifiers strictly increase along the registry; in particular no two
/// connections share one.
pub open spec fn ids_ordered(s: Seq<ConnModel>) -> bool {
    forall|i: int, j: int| 0 <= i < j < s.len() ==> s[i].id.0 < s[j].id.0
}

/// The invariant of the server state.
pub open spec fn model_wf(m: ChatModel) -> bool {
    &&& m.conns.len() <= m.capacity
    &&& ids_ordered(m.conns)
    &&& m.next_id.0 >= 1
    &&& forall|i: int| 0 <= i < m.conns.len() ==> 1 <= #[trigger] m.conns[i].id.0 < m.next_id.0
}

/// The state before any connection: identifier 0 stays with the listener.
pub open spec fn initial_model(capacity: nat, queue_bound: nat) -> ChatModel {
    ChatModel { conns: Seq::empty(), next_id: Token(1), capacity, queue_bound }
}

/// The registry without the connection `id`.
pub open spec fn remove_seq(s: Seq<ConnModel>, id: Token) -> Seq<ConnModel>
    decreases s.len(),
{
    if s.len() == 0 {
        s
    } else if s.last().id == id {
        remove_seq(s.drop_last(), id)
    } else {
        remove_seq(s.drop_last(), id).push(s.last())
    }
}

/// The registry with the connection that has `c`'s identifier replaced by `c`.
pub open spec fn replace_seq(s: Seq<ConnModel>, c: ConnModel) -> Seq<ConnModel>
    decreases s.len(),
{
    if s.len() == 0 {
        s
    } else if s.last().id == c.id {
        replace_seq(s.drop_last(), c).push(c)
    } else {
        replace_seq(s.drop_last(), c).push(s.last())
    }
}

/// The connection admitted under identifier `id`: default nickname, greeting
/// queued.
pub open spec fn fresh_conn(id: Token) -> ConnModel {
    ConnModel { id, nick: default_nick_spec(id.0 as nat), outbound: welcome_spec() }
}

/// Whether an accepted socket is admitted, and under which identifier.
pub open spec fn admit_outcome(m: ChatModel) -> Result<Token, AdmitError> {
    if m.conns.len() >= m.capacity {
        Err(AdmitError::CapacityExceeded)
    } else if m.next_id.0 == usize::MAX {
        Err(AdmitError::IdsExhausted)
    } else {
        Ok(m.next_id)
    }
}

/// The state after an accepted socket is offered to the registry.
pub open spec fn admit_spec(m: ChatModel) -> ChatModel {
    match admit_outcome(m) {
        Ok(id) => ChatModel {
            conns: m.conns.push(fresh_conn(id)),
            next_id: Token((id.0 + 1) as usize),
            ..m
        },
        Err(_) => m,
    }
}

/// The state after connection `id` is removed; nothing changes if it is absent.
pub open spec fn remove_spec(m: ChatModel, id: Token) -> ChatModel {
    ChatModel { conns: remove_seq(m.conns, id), ..m }
}

/// Whether `line` still fits in a queue that holds `c`'s pending bytes.
pub open spec fn fits(c: ConnModel, line: Seq<u8>, bound: nat) -> bool {
    c.outbound.len() + line.len() <= bound
}

/// What becomes of connection `c` when `line` is broadcast past `excluded`:
/// the sender is untouched, a recipient whose queue would pass the bound is
/// dropped, any other gets the line queued.
pub open spec fn deliver(c: ConnModel, line: Seq<u8>, excluded: Token, bound: nat) -> Option<ConnModel> {
    if c.id == excluded {
        Some(c)
    } else if fits(c, line, bound) {
        Some(ConnModel { outbound: c.outbound + line, ..c })
    } else {
        None
    }
}

/// What a broadcast over a registry leaves: the connections that remain, in
/// order, those dropped for backpressure, and those whose queue was empty and
/// now is not.
pub struct Fanout {
    pub kept: Seq<ConnModel>,
    pub removed: Seq<Token>,
    pub woken: Seq<Token>,
}

/// A broadcast of `line` over the registry `s`, past `excluded`.
pub open spec fn fanout(s: Seq<ConnModel>, line: Seq<u8>, excluded: Token, bound: nat) -> Fanout
    decreases s.len(),
{
    if s.len() == 0 {
        Fanout { kept: s, removed: Seq::empty(), woken: Seq::empty() }
    } else {
        let f = fanout(s.drop_last(), line, excluded, bound);
        let c = s.last();
        match deliver(c, line, excluded, bound) {
            Some(d) => Fanout {
                kept: f.kept.push(d),
                woken: if c.id != excluded && c.outbound.len() == 0 {
                    f.woken.push(c.id)
                } else {
                    f.woken
                },
                ..f
            },
            None => Fanout { removed: f.removed.push(c.id), ..f },
        }
    }
}

/// The event that broadcasts `line` to everyone but `excluded`.
pub open spec fn broadcast_step(m: ChatModel, line: Seq<u8>, excluded: Token) -> Step {
    let f = fanout(m.conns, line, excluded, m.queue_bound);
    Step { state: ChatModel { conns: f.kept, ..m }, removed: f.removed, woken: f.woken }
}

/// An event that changes the state and asks for no registration change.
pub open spec fn quiet(m: ChatModel) -> Step {
    Step { state: m, removed: Seq::empty(), woken: Seq::empty() }
}

/// An event that removes connection `id`.
pub open spec fn close_step(m: ChatModel, id: Token) -> Step {
    Step { state: remove_spec(m, id), removed: seq![id], woken: Seq::empty() }
}

/// The event of a read on connection `id`: a stale event or a read that would
/// block changes nothing; zero bytes or a failure remove the connection; bytes
/// read are one unit of the protocol.
pub open spec fn read_step(m: ChatModel, id: Token, input: ReadModel) -> Step {
    match lookup(m.conns, id) {
        None => quiet(m),
        Some(c) => match input {
            ReadModel::WouldBlock => quiet(m),
            ReadModel::Failed => close_step(m, id),
            ReadModel::Data(b) => if b.len() == 0 {
                close_step(m, id)
            } else {
                match parse_spec(b) {
                    CommandModel::Rename(n) => quiet(
                        ChatModel { conns: replace_seq(m.conns, ConnModel { nick: n, ..c }), ..m },
                    ),
                    CommandModel::Ignored => quiet(m),
                    CommandModel::Chat(t) => broadcast_step(m, chat_line_spec(c.nick, t), id),
                }
            },
        },
    }
}

/// The queue after `n` of its bytes were written; a count past its end
/// empties it.
pub open spec fn after_write(q: Seq<u8>, n: nat) -> Seq<u8> {
    if n >= q.len() {
        Seq::empty()
    } else {
        q.subrange(n as int, q.len() as int)
    }
}

/// The event of a write on connection `id`, and what becomes of its
/// registration.
pub open spec fn write_step(m: ChatModel, id: Token, out: WriteModel) -> (ChatModel, Drain) {
    match lookup(m.conns, id) {
        None => (m, Drain::Absent),
        Some(c) => match out {
            WriteModel::Failed => (remove_spec(m, id), Drain::Closed),
            WriteModel::WouldBlock => (m, if c.outbound.len() == 0 { Drain::Idle } else { Drain::Pending }),
            WriteModel::Wrote(n) => {
                let q = after_write(c.outbound, n);
                (
                    ChatModel { conns: replace_seq(m.conns, ConnModel { outbound: q, ..c }), ..m },
                    if q.len() == 0 { Drain::Idle } else { Drain::Pending },
                )
            },
        },
    }
}

/// In an ordered registry, looking up the identifier at position `i` finds
/// that connection.
pub proof fn lemma_lookup_at(s: Seq<ConnModel>, i: int)
    requires
        ids_ordered(s),
        0 <= i < s.len(),
    ensures
        lookup(s, s[i].id) == Some(s[i]),
    decreases s.len(),
{
    if i < s.len() - 1 {
        assert(s.last().id.0 > s[i].id.0);
        lemma_lookup_at(s.drop_last(), i);
    }
}

/// An identifier that no connection carries is not found.
pub proof fn lemma_lookup_absent(s: Seq<ConnModel>, id: Token)
    requires
        forall|i: int| 0 <= i < s.len() ==> s[i].id != id,
    ensures
        lookup(s, id) == None::<ConnModel>,
    decreases s.len(),
{
    if s.len() > 0 {
        lemma_lookup_absent(s.drop_last(), id);
    }
}

/// A connection that is found carries the identifier it was looked up by and
/// stands in the registry.
pub proof fn lemma_lookup_found(s: Seq<ConnModel>, id: Token)
    requires
        lookup(s, id) is Some,
    ensures
        lookup(s, id).unwrap().id == id,
        exists|i: int| 0 <= i < s.len() && s[i] == lookup(s, id).unwrap(),
    decreases s.len(),
{
    if s.last().id != id {
        lemma_lookup_found(s.drop_last(), id);
        let i = choose|i: int| 0 <= i < s.drop_last().len() && s.drop_last()[i] == lookup(s, id).unwrap();
        assert(s[i] == s.drop_last()[i]);
    } else {
        assert(s[s.len() - 1] == s.last());
    }
}

/// Removing an identifier that no connection carries changes nothing.
pub proof fn lemma_remove_absent(s: Seq<ConnModel>, id: Token)
    requires
        forall|i: int| 0 <= i < s.len() ==> s[i].id != id,
    ensures
        remove_seq(s, id) == s,
    decreases s.len(),
{
    if s.len() > 0 {
        lemma_remove_absent(s.drop_last(), id);
        assert(s.drop_last().push(s.last()) =~= s);
    }
}

/// In an ordered registry, removing the identifier at position `i` removes
/// that position.
pub proof fn lemma_remove_at(s: Seq<ConnModel>, i: int)
    requires
        ids_ordered(s),
        0 <= i < s.len(),
    ensures
        remove_seq(s, s[i].id) == s.remove(i),
    decreases s.len(),
{
    let id = s[i].id;
    if i == s.len() - 1 {
        assert forall|k: int| 0 <= k < s.drop_last().len() implies s.drop_last()[k].id != id by {
            assert(s[k].id.0 < s[i].id.0);
        }
        lemma_remove_absent(s.drop_last(), id);
        assert(s.remove(i) =~= s.drop_last());
    } else {
        assert(s.last().id.0 > id.0);
        lemma_remove_at(s.drop_last(), i);
        assert(s.drop_last().remove(i).push(s.last()) =~= s.remove(i));
    }
}

/// Replacing by an identifier that no connection carries changes nothing.
pub proof fn lemma_replace_absent(s: Seq<ConnModel>, c: ConnModel)
    requires
        forall|i: int| 0 <= i < s.len() ==> s[i].id != c.id,
    ensures
        replace_seq(s, c) == s,
    decreases s.len(),
{
    if s.len() > 0 {
        lemma_replace_absent(s.drop_last(), c);
        assert(s.drop_last().push(s.last()) =~= s);
    }
}

/// In an ordered registry, replacing the connection at position `i` by one
/// with the same identifier updates that position.
pub proof fn lemma_replace_at(s: Seq<ConnModel>, i: int, c: ConnModel)
    requires
        ids_ordered(s),
        0 <= i < s.len(),
        c.id == s[i].id,
    ensures
        replace_seq(s, c) == s.update(i, c),
    decreases s.len(),
{
    if i == s.len() - 1 {
        assert forall|k: int| 0 <= k < s.drop_last().len() implies s.drop_last()[k].id != c.id by {
            assert(s[k].id.0 < s[i].id.0);
        }
        lemma_replace_absent(s.drop_last(), c);
        assert(s.drop_last().push(c) =~= s.update(i, c));
    } else {
        assert(s.last().id.0 > c.id.0);
        lemma_replace_at(s.drop_last(), i, c);
        assert(s.drop_last().update(i, c).push(s.last()) =~= s.update(i, c));
    }
}

/// The connections left by a broadcast are, in order, some of those it
/// started from, each with its identifier.
pub proof fn lemma_fanout_ids(s: Seq<ConnModel>, line: Seq<u8>, excluded: Token, bound: nat)
    requires
        ids_ordered(s),
    ensures
        ids_ordered(fanout(s, line, excluded, bound).kept),
        fanout(s, line, excluded, bound).kept.len() <= s.len(),
        forall|j: int|
            0 <= j < fanout(s, line, excluded, bound).kept.len() ==> exists|k: int|
                0 <= k < s.len() && s[k].id == #[trigger] fanout(s, line, excluded, bound).kept[j].id,
    decreases s.len(),
{
    if s.len() > 0 {
        let p = s.drop_last();
        lemma_fanout_ids(p, line, excluded, bound);
        let fc = fanout(p, line, excluded, bound).kept;
        let gc = fanout(s, line, excluded, bound).kept;
        assert forall|j: int| 0 <= j < fc.len() implies fc[j].id.0 < s.last().id.0 by {
            let k = choose|k: int| 0 <= k < p.len() && p[k].id == fc[j].id;
            assert(s[k] == p[k]);
        }
        assert forall|j: int| 0 <= j < gc.len() implies exists|k: int|
            0 <= k < s.len() && s[k].id == #[trigger] gc[j].id by {
            if j < fc.len() {
                assert(gc[j] == fc[j]);
                let k = choose|k: int| 0 <= k < p.len() && p[k].id == fc[j].id;
                assert(s[k] == p[k]);
            } else {
                assert(s[s.len() - 1] == s.last());
            }
        }
    }
}

/// Looking up after a removal: the removed identifier is gone, every other
/// lookup is as before.
pub proof fn lemma_lookup_remove(s: Seq<ConnModel>, id: Token, x: Token)
    ensures
        lookup(remove_seq(s, id), x) == (if x == id { None } else { lookup(s, x) }),
    decreases s.len(),
{
    if s.len() > 0 {
        lemma_lookup_remove(s.drop_last(), id, x);
        let r = remove_seq(s.drop_last(), id);
        if s.last().id != id {
            assert(r.push(s.last()).drop_last() =~= r);
        }
    }
}

/// Looking up after a replacement: the replaced connection is found as its
/// replacement, every other lookup is as before.
pub proof fn lemma_lookup_replace(s: Seq<ConnModel>, c: ConnModel, x: Token)
    ensures
        lookup(replace_seq(s, c), x) == (if x == c.id && lookup(s, x) is Some {
            Some(c)
        } else {
            lookup(s, x)
        }),
    decreases s.len(),
{
    if s.len() > 0 {
        lemma_lookup_replace(s.drop_last(), c, x);
        let r = replace_seq(s.drop_last(), c);
        if s.last().id == c.id {
            assert(r.push(c).drop_last() =~= r);
        } else {
            assert(r.push(s.last()).drop_last() =~= r);
        }
    }
}

/// A replacement keeps the length and every identifier in place.
pub proof fn lemma_replace_ids(s: Seq<ConnModel>, c: ConnModel)
    ensures
        replace_seq(s, c).len() == s.len(),
        forall|j: int| 0 <= j < s.len() ==> #[trigger] replace_seq(s, c)[j].id == s[j].id,
    decreases s.len(),
{
    if s.len() > 0 {
        lemma_replace_ids(s.drop_last(), c);
        assert forall|j: int| 0 <= j < s.len() implies #[trigger] replace_seq(s, c)[j].id == s[j].id by {
            if j < s.len() - 1 {
                assert(replace_seq(s, c)[j] == replace_seq(s.drop_last(), c)[j]);
                assert(s[j] == s.drop_last()[j]);
            }
        }
    }
}

/// Replacing twice by the same connection is replacing once.
pub proof fn lemma_replace_twice(s: Seq<ConnModel>, c: ConnModel)
    ensures
        replace_seq(replace_seq(s, c), c) == replace_seq(s, c),
    decreases s.len(),
{
    if s.len() > 0 {
        lemma_replace_twice(s.drop_last(), c);
        let r = replace_seq(s.drop_last(), c);
        if s.last().id == c.id {
            assert(r.push(c).drop_last() =~= r);
        } else {
            assert(r.push(s.last()).drop_last() =~= r);
        }
    }
}

/// Looking up after a broadcast finds each connection as `deliver` leaves it:
/// the sender untouched, a recipient with room with the line queued, and a
/// recipient without room gone.
pub proof fn lemma_lookup_fanout(s: Seq<ConnModel>, line: Seq<u8>, excluded: Token, bound: nat, x: Token)
    requires
        ids_ordered(s),
    ensures
        lookup(fanout(s, line, excluded, bound).kept, x) == (match lookup(s, x) {
            Some(c) => deliver(c, line, excluded, bound),
            None => None,
        }),
    decreases s.len(),
{
    if s.len() > 0 {
        let p = s.drop_last();
        assert(ids_ordered(p));
        lemma_lookup_fanout(p, line, excluded, bound, x);
        let fc = fanout(p, line, excluded, bound).kept;
        let c = s.last();
        if c.id == x {
            assert forall|i: int| 0 <= i < p.len() implies p[i].id != x by {
                assert(s[i] == p[i]);
            }
            lemma_lookup_absent(p, x);
        }
        match deliver(c, line, excluded, bound) {
            Some(d) => {
                assert(fc.push(d).drop_last() =~= fc);
            },
            None => {},
        }
    }
}

} // verus!
