use vstd::prelude::*;

use crate::model::{
    admit_outcome, admit_spec, deliver, fits, fresh_conn, ids_ordered, initial_model,
    lemma_lookup_absent, lemma_lookup_at, lemma_lookup_fanout, lemma_lookup_found,
    lemma_lookup_remove, lemma_lookup_replace, lemma_remove_at, lemma_replace_ids,
    lemma_replace_twice, lookup, model_wf, quiet, read_step, remove_spec,
    write_step, AdmitError, ChatModel, ConnModel, Drain, ReadModel, WriteModel,
};
use crate::protocol::{
    chat_line_spec, nick_command, parse_spec, strip_line_end, trim, trim_end,
    trim_start, CommandModel,
};
use mio::Token;

verus! {

/// `n` connections offered one after another to the state `m`.
pub open spec fn admit_n(m: ChatModel, n: nat) -> ChatModel
    decreases n,
{
    if n == 0 {
        m
    } else {
        admit_spec(admit_n(m, (n - 1) as nat))
    }
}

/// Admission keeps the invariant. While there is room, an offered socket is
/// admitted under a fresh identifier and the registry grows by exactly one;
/// once the registry is full, the offer is refused and nothing changes.
pub proof fn lemma_admit_counts(m: ChatModel)
    requires
        model_wf(m),
    ensures
        model_wf(admit_spec(m)),
        m.conns.len() < m.capacity && m.next_id.0 < usize::MAX ==> {
            &&& admit_outcome(m) == Ok::<Token, AdmitError>(m.next_id)
            &&& lookup(m.conns, m.next_id) is None
            &&& admit_spec(m).conns.len() == m.conns.len() + 1
            &&& lookup(admit_spec(m).conns, m.next_id) == Some(fresh_conn(m.next_id))
        },
        m.conns.len() >= m.capacity ==> admit_outcome(m) == Err::<Token, AdmitError>(
            AdmitError::CapacityExceeded,
        ) && admit_spec(m) == m,
{
    assert forall|i: int| 0 <= i < m.conns.len() implies m.conns[i].id != m.next_id by {
        assert(m.conns[i].id.0 < m.next_id.0);
    }
    lemma_lookup_absent(m.conns, m.next_id);
}

/// Removal keeps the invariant and takes out exactly the connection named:
/// the registry shrinks by one if it held it and is unchanged otherwise.
pub proof fn lemma_remove_counts(m: ChatModel, id: Token)
    requires
        model_wf(m),
    ensures
        model_wf(remove_spec(m, id)),
        lookup(remove_spec(m, id).conns, id) is None,
        lookup(m.conns, id) is Some ==> remove_spec(m, id).conns.len() == m.conns.len() - 1,
        lookup(m.conns, id) is None ==> remove_spec(m, id) == m,
        forall|x: Token| x != id ==> lookup(#[trigger] remove_spec(m, id).conns, x) == lookup(m.conns, x),
{
    let s = m.conns;
    assert forall|x: Token| x != id implies lookup(#[trigger] remove_spec(m, id).conns, x) == lookup(m.conns, x) by {
        lemma_lookup_remove(s, id, x);
    }
    lemma_lookup_remove(s, id, id);
    if lookup(s, id) is Some {
        lemma_lookup_found(s, id);
        let i = choose|i: int| 0 <= i < s.len() && s[i] == lookup(s, id).unwrap();
        lemma_remove_at(s, i);
        let r = s.remove(i);
        assert forall|j: int| 0 <= j < r.len() implies 1 <= #[trigger] r[j].id.0 < m.next_id.0 by {
            if j < i {
                assert(r[j] == s[j]);
            } else {
                assert(r[j] == s[j + 1]);
            }
        }
        assert forall|a: int, b: int| 0 <= a < b < r.len() implies r[a].id.0 < r[b].id.0 by {
            let a1 = if a < i { a } else { a + 1 };
            let b1 = if b < i { b } else { b + 1 };
            assert(r[a] == s[a1] && r[b] == s[b1]);
        }
    } else {
        assert forall|k: int| 0 <= k < s.len() implies s[k].id != id by {
            if s[k].id == id {
                lemma_lookup_at(s, k);
            }
        }
        crate::model::lemma_remove_absent(s, id);
    }
}

/// Starting from an empty registry, `n` offers up to the capacity admit all
/// `n` connections, so the registry holds exactly the `n` open ones; when `n`
/// is the capacity the next offer is refused and changes nothing.
pub proof fn lemma_admit_up_to_capacity(capacity: nat, queue_bound: nat, n: nat)
    requires
        n <= capacity,
        capacity < usize::MAX,
    ensures
        model_wf(admit_n(initial_model(capacity, queue_bound), n)),
        admit_n(initial_model(capacity, queue_bound), n).conns.len() == n,
        admit_n(initial_model(capacity, queue_bound), n).next_id.0 == n + 1,
        admit_n(initial_model(capacity, queue_bound), n).capacity == capacity,
        n == capacity ==> admit_outcome(admit_n(initial_model(capacity, queue_bound), n))
            == Err::<Token, AdmitError>(AdmitError::CapacityExceeded),
        n == capacity ==> admit_spec(admit_n(initial_model(capacity, queue_bound), n)) == admit_n(
            initial_model(capacity, queue_bound),
            n,
        ),
    decreases n,
{
    let m0 = initial_model(capacity, queue_bound);
    if n > 0 {
        lemma_admit_up_to_capacity(capacity, queue_bound, (n - 1) as nat);
        lemma_admit_counts(admit_n(m0, (n - 1) as nat));
    }
}

/// The unit `/nick <name>\n`.
pub open spec fn nick_line(name: Seq<u8>) -> Seq<u8> {
    nick_command() + seq![0x20u8] + name + seq![0x0au8]
}

/// A name that the rename command takes as it is: not empty and without
/// whitespace at either end.
pub open spec fn clean_name(name: Seq<u8>) -> bool {
    name.len() > 0 && trim(name) == name
}

/// A text that reads as chat when sent with a line end: it does not start
/// with `/` and does not end with `\r`.
pub open spec fn chat_text(text: Seq<u8>) -> bool {
    text.len() > 0 ==> text[0] != 0x2fu8 && text.last() != 0x0du8
}

proof fn lemma_trim_keeps_end(name: Seq<u8>)
    requires
        clean_name(name),
    ensures
        !crate::protocol::is_blank(name.last()),
        !crate::protocol::is_blank(name[0]),
{
    let t = trim_start(name);
    if crate::protocol::is_blank(name[0]) {
        lemma_trim_start_shorter(name);
        lemma_trim_end_shorter(t);
    }
    if crate::protocol::is_blank(name.last()) {
        lemma_trim_start_shape(name);
        lemma_trim_end_shorter(t);
        if t.len() == name.len() {
            assert(t == name);
        }
    }
}

proof fn lemma_trim_start_shorter(s: Seq<u8>)
    requires
        s.len() > 0,
        crate::protocol::is_blank(s[0]),
    ensures
        trim_start(s).len() < s.len(),
    decreases s.len(),
{
    lemma_trim_start_len(s.drop_first());
}

proof fn lemma_trim_start_len(s: Seq<u8>)
    ensures
        trim_start(s).len() <= s.len(),
    decreases s.len(),
{
    if s.len() > 0 && crate::protocol::is_blank(s[0]) {
        lemma_trim_start_len(s.drop_first());
    }
}

proof fn lemma_trim_start_shape(s: Seq<u8>)
    ensures
        trim_start(s).len() <= s.len(),
        trim_start(s).len() == s.len() ==> trim_start(s) == s,
    decreases s.len(),
{
    if s.len() > 0 && crate::protocol::is_blank(s[0]) {
        lemma_trim_start_shape(s.drop_first());
    }
}

proof fn lemma_trim_end_shorter(s: Seq<u8>)
    ensures
        trim_end(s).len() <= s.len(),
        s.len() > 0 && crate::protocol::is_blank(s.last()) ==> trim_end(s).len() < s.len(),
    decreases s.len(),
{
    if s.len() > 0 && crate::protocol::is_blank(s.last()) {
        lemma_trim_end_shorter(s.drop_last());
    }
}

/// `/nick <name>\n` is read as a rename to `name`.
pub proof fn lemma_parse_nick_line(name: Seq<u8>)
    requires
        clean_name(name),
    ensures
        parse_spec(nick_line(name)) == CommandModel::Rename(name),
{
    lemma_trim_keeps_end(name);
    let l = nick_line(name);
    let u = nick_command() + seq![0x20u8] + name;
    assert(l.drop_last() =~= u);
    assert(u.last() == name.last());
    assert(strip_line_end(l) == u);
    assert(u[5] == 0x20u8);
    crate::protocol::lemma_first_space_at(u, 5);
    assert(u.subrange(0, 5) =~= nick_command());
    assert(u.subrange(6, u.len() as int) =~= name);
}

/// `<text>\n` is read as chat carrying `text`.
pub proof fn lemma_parse_chat_line(text: Seq<u8>)
    requires
        chat_text(text),
    ensures
        parse_spec(text + seq![0x0au8]) == CommandModel::Chat(text),
{
    let l = text + seq![0x0au8];
    assert(l.drop_last() =~= text);
}

/// Renaming to `name` and then saying `text` on connection `id` queues exactly
/// `<name>> <text>\n` for every other connection with room for it, drops
/// those without room, and queues nothing for the sender, whose nickname is
/// now `name`.
pub proof fn lemma_rename_then_chat(m: ChatModel, id: Token, name: Seq<u8>, text: Seq<u8>, x: Token)
    requires
        model_wf(m),
        lookup(m.conns, id) is Some,
        clean_name(name),
        chat_text(text),
    ensures
        ({
            let m1 = read_step(m, id, ReadModel::Data(nick_line(name))).state;
            let after = read_step(m1, id, ReadModel::Data(text + seq![0x0au8])).state;
            let line = chat_line_spec(name, text);
            &&& x == id ==> lookup(after.conns, id) == Some(
                ConnModel { nick: name, ..lookup(m.conns, id).unwrap() },
            )
            &&& x != id && lookup(m.conns, x) is Some && fits(lookup(m.conns, x).unwrap(), line, m.queue_bound)
                ==> lookup(after.conns, x) == Some(
                ConnModel { outbound: lookup(m.conns, x).unwrap().outbound + line, ..lookup(m.conns, x).unwrap() },
            )
            &&& x != id && lookup(m.conns, x) is Some && !fits(lookup(m.conns, x).unwrap(), line, m.queue_bound)
                ==> lookup(after.conns, x) is None
            &&& lookup(m.conns, x) is None ==> lookup(after.conns, x) is None
        }),
{
    lemma_parse_nick_line(name);
    lemma_parse_chat_line(text);
    let c = lookup(m.conns, id).unwrap();
    let d = ConnModel { nick: name, ..c };
    let l1 = nick_line(name);
    assert(l1.len() > 0);
    let m1 = read_step(m, id, ReadModel::Data(l1)).state;
    lemma_lookup_found(m.conns, id);
    assert(m1.conns == crate::model::replace_seq(m.conns, d));
    lemma_replace_ids(m.conns, d);
    assert(ids_ordered(m1.conns));
    lemma_lookup_replace(m.conns, d, id);
    lemma_lookup_replace(m.conns, d, x);
    let line = chat_line_spec(name, text);
    lemma_lookup_fanout(m1.conns, line, id, m1.queue_bound, x);
    lemma_lookup_fanout(m1.conns, line, id, m1.queue_bound, id);
    let l2 = text + seq![0x0au8];
    assert(l2.len() > 0);
    assert(lookup(m1.conns, id) == Some(d));
    assert(m1.queue_bound == m.queue_bound);
    let after = read_step(m1, id, ReadModel::Data(l2));
    assert(after == crate::model::broadcast_step(m1, line, id));
    assert(d.id == id);
    if x != id {
        assert(lookup(m1.conns, x) == lookup(m.conns, x));
        if lookup(m.conns, x) is Some {
            let e = lookup(m.conns, x).unwrap();
            lemma_lookup_found(m.conns, x);
            assert(lookup(after.state.conns, x) == deliver(e, line, id, m.queue_bound));
        }
    }
}

/// Sending the same rename twice leaves the state as sending it once, and a
/// rename touches no other connection and no queued bytes.
pub proof fn lemma_rename_idempotent(m: ChatModel, id: Token, unit: Seq<u8>, n: Seq<u8>, x: Token)
    requires
        model_wf(m),
        unit.len() > 0,
        parse_spec(unit) == CommandModel::Rename(n),
    ensures
        ({
            let once = read_step(m, id, ReadModel::Data(unit));
            let twice = read_step(once.state, id, ReadModel::Data(unit));
            &&& twice.state == once.state
            &&& once.removed.len() == 0 && once.woken.len() == 0
            &&& twice.removed.len() == 0 && twice.woken.len() == 0
            &&& x != id ==> lookup(once.state.conns, x) == lookup(m.conns, x)
            &&& lookup(m.conns, id) is Some ==> lookup(once.state.conns, id) == Some(
                ConnModel { nick: n, ..lookup(m.conns, id).unwrap() },
            )
        }),
{
    if lookup(m.conns, id) is Some {
        let c = lookup(m.conns, id).unwrap();
        let d = ConnModel { nick: n, ..c };
        lemma_lookup_found(m.conns, id);
        lemma_lookup_replace(m.conns, d, x);
        lemma_lookup_replace(m.conns, d, id);
        lemma_replace_twice(m.conns, d);
        let m1 = read_step(m, id, ReadModel::Data(unit)).state;
        assert(ConnModel { nick: n, ..d } == d);
        assert(m1.conns == crate::model::replace_seq(m.conns, d));
    }
}

/// A read of zero bytes removes the connection once: it is reported removed,
/// the registry shrinks by one, no other connection changes, and any later
/// event for the same identifier is ignored.
pub proof fn lemma_close_once(m: ChatModel, id: Token, x: Token, later: ReadModel, w: WriteModel)
    requires
        model_wf(m),
        lookup(m.conns, id) is Some,
    ensures
        ({
            let st = read_step(m, id, ReadModel::Data(Seq::empty()));
            &&& st.removed == seq![id]
            &&& st.woken.len() == 0
            &&& st.state.conns.len() == m.conns.len() - 1
            &&& model_wf(st.state)
            &&& x != id ==> lookup(st.state.conns, x) == lookup(m.conns, x)
            &&& read_step(st.state, id, later) == quiet(st.state)
            &&& write_step(st.state, id, w) == (st.state, Drain::Absent)
        }),
{
    lemma_remove_counts(m, id);
}

/// A recipient without room for a broadcast line is removed and reported,
/// and a later broadcast no longer reaches it; every other connection is
/// served as `deliver` says.
pub proof fn lemma_backpressure(m: ChatModel, line: Seq<u8>, excluded: Token, x: Token)
    requires
        model_wf(m),
    ensures
        ({
            let st = crate::model::broadcast_step(m, line, excluded);
            &&& model_wf(st.state)
            &&& lookup(st.state.conns, x) == (match lookup(m.conns, x) {
                Some(c) => deliver(c, line, excluded, m.queue_bound),
                None => None,
            })
        }),
{
    crate::model::lemma_fanout_ids(m.conns, line, excluded, m.queue_bound);
    lemma_lookup_fanout(m.conns, line, excluded, m.queue_bound, x);
    let g = crate::model::fanout(m.conns, line, excluded, m.queue_bound).kept;
    assert forall|j: int| 0 <= j < g.len() implies 1 <= #[trigger] g[j].id.0 < m.next_id.0 by {
        let q = choose|q: int| 0 <= q < m.conns.len() && m.conns[q].id == g[j].id;
        assert(1 <= m.conns[q].id.0 < m.next_id.0);
    }
}

} // verus!
