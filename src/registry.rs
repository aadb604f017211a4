use vstd::prelude::*;

use crate::model::{
    admit_outcome, admit_spec, fresh_conn, initial_model, lemma_lookup_absent, lemma_lookup_at,
    lemma_remove_absent, lemma_remove_at, lemma_fanout_ids, fanout, broadcast_step, deliver, fits, read_step, write_step,
    after_write, lemma_replace_at, Drain, lookup, model_wf, remove_spec, AdmitError, ChatModel,
    ConnModel, ReadModel, WriteModel,
};
use crate::protocol::{append_bytes, chat_line, copy_range, parse_command, Command, default_nick, welcome_message};
use mio::Token;

verus! {

/// The most connections a server holds unless configured otherwise.
pub const MAX_CLIENTS: usize = 1000;

/// The most bytes a connection may have queued unless configured otherwise.
pub const DEFAULT_QUEUE_BOUND: usize = 65536;

/// The port the server listens on.
pub const SERVER_PORT: u16 = 7711;

/// Hands out the identifier in `current` and advances it by one.
pub fn next(current: &mut Token) -> (r: Token)
    requires
        old(current).0 < usize::MAX,
    ensures
        r == *old(current),
        final(current).0 == old(current).0 + 1,
{
    let r = Token(current.0);
    current.0 = current.0 + 1;
    r
}

/// The state of one admitted connection.
pub struct Connection {
    token: Token,
    nick: Vec<u8>,
    outbound: Vec<u8>,
}

impl View for Connection {
    type V = ConnModel;

    closed spec fn view(&self) -> ConnModel {
        ConnModel { id: self.token, nick: self.nick@, outbound: self.outbound@ }
    }
}

/// The models of a run of connections.
pub closed spec fn conn_views(v: Seq<Connection>) -> Seq<ConnModel> {
    v.map_values(|c: Connection| c@)
}

/// What one non-blocking read on a connection produced.
pub enum ReadOutcome {
    /// The bytes read; none means the peer closed its side.
    Data(Vec<u8>),
    /// Nothing to read yet.
    WouldBlock,
    /// Any other error.
    Failed,
}

impl View for ReadOutcome {
    type V = ReadModel;

    open spec fn view(&self) -> ReadModel {
        match self {
            ReadOutcome::Data(b) => ReadModel::Data(b@),
            ReadOutcome::WouldBlock => ReadModel::WouldBlock,
            ReadOutcome::Failed => ReadModel::Failed,
        }
    }
}

/// What one non-blocking write on a connection produced.
pub enum WriteOutcome {
    /// The number of bytes the socket took.
    Wrote(usize),
    /// The socket took nothing for now.
    WouldBlock,
    /// Any other error.
    Failed,
}

impl View for WriteOutcome {
    type V = WriteModel;

    open spec fn view(&self) -> WriteModel {
        match self {
            WriteOutcome::Wrote(n) => WriteModel::Wrote(*n as nat),
            WriteOutcome::WouldBlock => WriteModel::WouldBlock,
            WriteOutcome::Failed => WriteModel::Failed,
        }
    }
}

/// The registration changes an event asks of the event loop.
pub struct Effects {
    /// Connections removed from the registry: deregister and close them.
    pub removed: Vec<Token>,
    /// Connections whose queue was empty and now holds bytes: add write
    /// interest.
    pub woken: Vec<Token>,
}

/// The registry of connections together with the identifier allocator and
/// the configured bounds.
pub struct ChatServer {
    conns: Vec<Connection>,
    next_id: Token,
    capacity: usize,
    queue_bound: usize,
}

impl View for ChatServer {
    type V = ChatModel;

    closed spec fn view(&self) -> ChatModel {
        ChatModel {
            conns: conn_views(self.conns@),
            next_id: self.next_id,
            capacity: self.capacity as nat,
            queue_bound: self.queue_bound as nat,
        }
    }
}

impl ChatServer {
    /// An empty registry that admits at most `capacity` connections and lets
    /// none queue more than `queue_bound` bytes.
    pub fn new(capacity: usize, queue_bound: usize) -> (r: ChatServer)
        ensures
            r@ == initial_model(capacity as nat, queue_bound as nat),
            model_wf(r@),
    {
        let r = ChatServer { conns: Vec::new(), next_id: Token(1), capacity, queue_bound };
        assert(conn_views(r.conns@) =~= Seq::<ConnModel>::empty());
        r
    }

    /// An empty registry with the default bounds.
    pub fn with_defaults() -> (r: ChatServer)
        ensures
            r@ == initial_model(MAX_CLIENTS as nat, DEFAULT_QUEUE_BOUND as nat),
            model_wf(r@),
    {
        ChatServer::new(MAX_CLIENTS, DEFAULT_QUEUE_BOUND)
    }

    /// The number of connections held.
    pub fn len(&self) -> (r: usize)
        ensures
            r == self@.conns.len(),
    {
        self.conns.len()
    }

    /// The most connections this registry holds.
    pub fn capacity(&self) -> (r: usize)
        ensures
            r == self@.capacity,
    {
        self.capacity
    }

    /// The most bytes a connection may have queued.
    pub fn queue_bound(&self) -> (r: usize)
        ensures
            r == self@.queue_bound,
    {
        self.queue_bound
    }

    /// The position of connection `id`, if held.
    fn find(&self, id: Token) -> (r: Option<usize>)
        requires
            model_wf(self@),
        ensures
            match r {
                Some(i) => i < self@.conns.len() && self@.conns[i as int].id == id
                    && lookup(self@.conns, id) == Some(self@.conns[i as int]),
                None => lookup(self@.conns, id) == None::<ConnModel>,
            },
    {
        let ghost s = self@.conns;
        let mut i: usize = 0;
        while i < self.conns.len()
            invariant
                s == self@.conns,
                s == conn_views(self.conns@),
                model_wf(self@),
                i <= self.conns@.len() == s.len(),
                forall|k: int| 0 <= k < i ==> s[k].id != id,
            decreases self.conns@.len() - i,
        {
            assert(s[i as int] == self.conns@[i as int]@);
            if self.conns[i].token.0 == id.0 {
                proof { lemma_lookup_at(s, i as int); }
                return Some(i);
            }
            i = i + 1;
        }
        proof { lemma_lookup_absent(s, id); }
        None
    }

    /// Whether connection `id` is held.
    pub fn contains(&self, id: Token) -> (r: bool)
        requires
            model_wf(self@),
        ensures
            r == lookup(self@.conns, id) is Some,
    {
        self.find(id).is_some()
    }

    /// The nickname of connection `id`, if held.
    pub fn nick(&self, id: Token) -> (r: Option<&[u8]>)
        requires
            model_wf(self@),
        ensures
            match r {
                Some(n) => lookup(self@.conns, id) is Some && n@ == lookup(self@.conns, id).unwrap().nick,
                None => lookup(self@.conns, id) is None,
            },
    {
        match self.find(id) {
            Some(i) => {
                assert(self@.conns[i as int] == self.conns@[i as int]@);
                Some(self.conns[i].nick.as_slice())
            },
            None => None,
        }
    }

    /// The bytes queued for connection `id`, if held.
    pub fn pending(&self, id: Token) -> (r: Option<&[u8]>)
        requires
            model_wf(self@),
        ensures
            match r {
                Some(q) => lookup(self@.conns, id) is Some && q@ == lookup(self@.conns, id).unwrap().outbound,
                None => lookup(self@.conns, id) is None,
            },
    {
        match self.find(id) {
            Some(i) => {
                assert(self@.conns[i as int] == self.conns@[i as int]@);
                Some(self.conns[i].outbound.as_slice())
            },
            None => None,
        }
    }

    /// Offers a newly accepted socket to the registry. On success the
    /// connection gets the next identifier, the default nickname and the
    /// greeting queued; when the registry is full nothing is admitted and the
    /// caller closes the socket.
    pub fn admit_client(&mut self) -> (r: Result<Token, AdmitError>)
        requires
            model_wf(old(self)@),
        ensures
            r == admit_outcome(old(self)@),
            final(self)@ == admit_spec(old(self)@),
            model_wf(final(self)@),
    {
        if self.conns.len() >= self.capacity {
            return Err(AdmitError::CapacityExceeded);
        }
        if self.next_id.0 == usize::MAX {
            return Err(AdmitError::IdsExhausted);
        }
        let id = next(&mut self.next_id);
        let nick = default_nick(id.0);
        let outbound = welcome_message();
        let c = Connection { token: id, nick, outbound };
        assert(c@ == fresh_conn(id));
        let ghost before = self.conns@;
        self.conns.push(c);
        assert(conn_views(self.conns@) =~= conn_views(before).push(fresh_conn(id)));
        Ok(id)
    }

    /// Removes connection `id`; removing one that is not held does nothing.
    /// Returns whether it was held.
    pub fn remove(&mut self, id: Token) -> (r: bool)
        requires
            model_wf(old(self)@),
        ensures
            r == lookup(old(self)@.conns, id) is Some,
            final(self)@ == remove_spec(old(self)@, id),
            model_wf(final(self)@),
    {
        let ghost s = self@.conns;
        match self.find(id) {
            Some(i) => {
                proof { lemma_remove_at(s, i as int); }
                let ghost before = self.conns@;
                self.conns.remove(i);
                assert(conn_views(self.conns@) =~= s.remove(i as int));
                true
            },
            None => {
                assert forall|k: int| 0 <= k < s.len() implies s[k].id != id by {
                    if s[k].id == id {
                        lemma_lookup_at(s, k);
                    }
                }
                proof { lemma_remove_absent(s, id); }
                false
            },
        }
    }
    /// Queues `line` for every connection but `excluded`. A recipient whose
    /// queue would pass the bound is removed instead, and the others are
    /// served all the same. Never writes to a socket.
    pub fn broadcast(&mut self, line: &[u8], excluded: Token) -> (r: Effects)
        requires
            model_wf(old(self)@),
        ensures
            final(self)@ == broadcast_step(old(self)@, line@, excluded).state,
            r.removed@ == broadcast_step(old(self)@, line@, excluded).removed,
            r.woken@ == broadcast_step(old(self)@, line@, excluded).woken,
            model_wf(final(self)@),
    {
        let ghost m = self@;
        let ghost s = m.conns;
        let ghost bound = m.queue_bound;
        let mut removed: Vec<Token> = Vec::new();
        let mut woken: Vec<Token> = Vec::new();
        let mut i: usize = 0;
        let ghost mut k: int = 0;
        assert(s.subrange(0, 0) =~= Seq::<ConnModel>::empty());
        assert(conn_views(self.conns@).subrange(0, 0) =~= fanout(s.subrange(0, 0), line@, excluded, bound).kept);
        assert(conn_views(self.conns@).subrange(0, self.conns@.len() as int) =~= s);
        while i < self.conns.len()
            invariant
                0 <= k <= s.len(),
                i <= self.conns@.len(),
                self.conns@.len() - i == s.len() - k,
                self.next_id == m.next_id,
                self.capacity == m.capacity,
                self.queue_bound == bound,
                conn_views(self.conns@).subrange(0, i as int) == fanout(s.subrange(0, k), line@, excluded, bound).kept,
                conn_views(self.conns@).subrange(i as int, self.conns@.len() as int) == s.subrange(k, s.len() as int),
                removed@ == fanout(s.subrange(0, k), line@, excluded, bound).removed,
                woken@ == fanout(s.subrange(0, k), line@, excluded, bound).woken,
            decreases self.conns@.len() - i,
        {
            let ghost v0 = conn_views(self.conns@);
            let ghost c = s[k];
            let ghost f = fanout(s.subrange(0, k), line@, excluded, bound);
            assert(s.subrange(0, k + 1).drop_last() =~= s.subrange(0, k));
            assert(s.subrange(0, k + 1).last() == c);
            assert(v0[i as int] == v0.subrange(i as int, v0.len() as int)[0]);
            assert(c == v0[i as int]);
            assert(v0[i as int] == self.conns@[i as int]@);
            assert(v0.subrange(i + 1, v0.len() as int) =~= v0.subrange(i as int, v0.len() as int).drop_first());
            assert(s.subrange(k + 1, s.len() as int) =~= s.subrange(k, s.len() as int).drop_first());
            let tok = self.conns[i].token;
            if tok.0 == excluded.0 {
                i = i + 1;
                assert(conn_views(self.conns@).subrange(0, i as int) =~= f.kept.push(c));
                assert(conn_views(self.conns@).subrange(i as int, self.conns@.len() as int) =~= s.subrange(k + 1, s.len() as int));
            } else {
                let qlen = self.conns[i].outbound.len();
                if qlen > self.queue_bound || line.len() > self.queue_bound - qlen {
                    assert(!fits(c, line@, bound));
                    self.conns.remove(i);
                    removed.push(tok);
                    assert(conn_views(self.conns@) =~= v0.remove(i as int));
                    assert(conn_views(self.conns@).subrange(0, i as int) =~= f.kept);
                    assert(conn_views(self.conns@).subrange(i as int, self.conns@.len() as int) =~= s.subrange(k + 1, s.len() as int));
                } else {
                    assert(fits(c, line@, bound));
                    if qlen == 0 {
                        woken.push(tok);
                    }
                    append_bytes(&mut self.conns[i].outbound, line);
                    let ghost d = deliver(c, line@, excluded, bound).unwrap();
                    assert(self.conns@[i as int]@ == d);
                    assert(conn_views(self.conns@) =~= v0.update(i as int, d));
                    i = i + 1;
                    assert(conn_views(self.conns@).subrange(0, i as int) =~= f.kept.push(d));
                    assert(conn_views(self.conns@).subrange(i as int, self.conns@.len() as int) =~= s.subrange(k + 1, s.len() as int));
                }
            }
            proof { k = k + 1; }
        }
        assert(s.subrange(0, k) =~= s);
        assert(conn_views(self.conns@) =~= conn_views(self.conns@).subrange(0, i as int));
        proof {
            lemma_fanout_ids(s, line@, excluded, bound);
            let g = fanout(s, line@, excluded, bound).kept;
            assert forall|j: int| 0 <= j < g.len() implies 1 <= #[trigger] g[j].id.0 < m.next_id.0 by {
                let q = choose|q: int| 0 <= q < s.len() && s[q].id == g[j].id;
                assert(1 <= s[q].id.0 < m.next_id.0);
            }
        }
        Effects { removed, woken }
    }
    /// Applies one read event on connection `id`: a stale event or a read
    /// that would block changes nothing; zero bytes or a failure remove the
    /// connection; a unit of input renames the sender, is ignored, or is
    /// broadcast to the others under the sender's nickname.
    pub fn on_read(&mut self, id: Token, input: ReadOutcome) -> (r: Effects)
        requires
            model_wf(old(self)@),
        ensures
            final(self)@ == read_step(old(self)@, id, input@).state,
            r.removed@ == read_step(old(self)@, id, input@).removed,
            r.woken@ == read_step(old(self)@, id, input@).woken,
            model_wf(final(self)@),
    {
        let ghost m = self@;
        let none = Effects { removed: Vec::new(), woken: Vec::new() };
        let i = match self.find(id) {
            Some(i) => i,
            None => {
                return none;
            },
        };
        assert(m.conns[i as int] == self.conns@[i as int]@);
        let closed = match &input {
            ReadOutcome::Data(bytes) => bytes.len() == 0,
            ReadOutcome::WouldBlock => false,
            ReadOutcome::Failed => true,
        };
        if closed {
            self.remove(id);
            return Effects { removed: vec![id], woken: Vec::new() };
        }
        let bytes = match input {
            ReadOutcome::Data(bytes) => bytes,
            _ => {
                return none;
            },
        };
        match parse_command(bytes.as_slice()) {
            Command::Rename(n) => {
                let ghost c = m.conns[i as int];
                let ghost d = ConnModel { nick: n@, ..c };
                let ghost before = self.conns@;
                self.conns[i].nick = n;
                proof { lemma_replace_at(m.conns, i as int, d); }
                assert(conn_views(self.conns@) =~= m.conns.update(i as int, d));
                none
            },
            Command::Ignored => none,
            Command::Chat(t) => {
                let line = chat_line(self.conns[i].nick.as_slice(), t.as_slice());
                self.broadcast(line.as_slice(), id)
            },
        }
    }

    /// Applies one write event on connection `id` and says what becomes of
    /// its registration: bytes the socket took leave the queue; a failure
    /// removes the connection.
    pub fn on_write(&mut self, id: Token, out: WriteOutcome) -> (r: Drain)
        requires
            model_wf(old(self)@),
        ensures
            (final(self)@, r) == write_step(old(self)@, id, out@),
            model_wf(final(self)@),
    {
        let ghost m = self@;
        let i = match self.find(id) {
            Some(i) => i,
            None => {
                return Drain::Absent;
            },
        };
        assert(m.conns[i as int] == self.conns@[i as int]@);
        match out {
            WriteOutcome::Failed => {
                self.remove(id);
                Drain::Closed
            },
            WriteOutcome::WouldBlock => {
                if self.conns[i].outbound.len() == 0 {
                    Drain::Idle
                } else {
                    Drain::Pending
                }
            },
            WriteOutcome::Wrote(n) => {
                let len = self.conns[i].outbound.len();
                let rest = if n >= len {
                    Vec::new()
                } else {
                    copy_range(self.conns[i].outbound.as_slice(), n, len)
                };
                let idle = rest.len() == 0;
                let ghost c = m.conns[i as int];
                let ghost d = ConnModel { outbound: after_write(c.outbound, n as nat), ..c };
                assert(rest@ =~= after_write(c.outbound, n as nat));
                self.conns[i].outbound = rest;
                proof { lemma_replace_at(m.conns, i as int, d); }
                assert(conn_views(self.conns@) =~= m.conns.update(i as int, d));
                if idle {
                    Drain::Idle
                } else {
                    Drain::Pending
                }
            },
        }
    }
}

} // verus!
