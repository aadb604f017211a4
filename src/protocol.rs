//! The line protocol: how one unit of input is read, and the bytes the
//! server sends.
//!
//! Framing policy: the bytes of one read are one unit. A read is not aligned
//! with line boundaries on a stream socket, so a line split over two reads is
//! taken as two units, and two lines in one read as one unit whose line end
//! alone is stripped. Nicknames and text are kept as the bytes received.

use vstd::prelude::*;
use vstd::string::StringSliceAdditionalSpecFns;

verus! {

/// Whether a byte is ASCII whitespace (space, tab, line feed, form feed,
/// carriage return).
pub open spec fn is_blank(b: u8) -> bool {
    b == 0x20u8 || b == 0x09u8 || b == 0x0au8 || b == 0x0cu8 || b == 0x0du8
}

/// `s` without its leading whitespace.
pub open spec fn trim_start(s: Seq<u8>) -> Seq<u8>
    decreases s.len(),
{
    if s.len() > 0 && is_blank(s[0]) {
        trim_start(s.drop_first())
    } else {
        s
    }
}

/// `s` without its trailing whitespace.
pub open spec fn trim_end(s: Seq<u8>) -> Seq<u8>
    decreases s.len(),
{
    if s.len() > 0 && is_blank(s.last()) {
        trim_end(s.drop_last())
    } else {
        s
    }
}

/// `s` without whitespace at either end.
pub open spec fn trim(s: Seq<u8>) -> Seq<u8> {
    trim_end(trim_start(s))
}

/// One unit as read: a trailing `\n`, and a `\r` just before it, are not part
/// of what the client said.
pub open spec fn strip_line_end(s: Seq<u8>) -> Seq<u8> {
    if s.len() > 0 && s.last() == 0x0au8 {
        let t = s.drop_last();
        if t.len() > 0 && t.last() == 0x0du8 {
            t.drop_last()
        } else {
            t
        }
    } else {
        s
    }
}

/// The position of the first space in `s`, if there is one.
pub open spec fn first_space(s: Seq<u8>) -> Option<int>
    decreases s.len(),
{
    if s.len() == 0 {
        None
    } else if s[0] == 0x20u8 {
        Some(0)
    } else {
        match first_space(s.drop_first()) {
            Some(i) => Some(i + 1),
            None => None,
        }
    }
}

/// The name of the rename command, slash included.
pub open spec fn nick_command() -> Seq<u8> {
    seq![0x2fu8, 0x6eu8, 0x69u8, 0x63u8, 0x6bu8]
}

/// The meaning of one unit of input, in the model.
pub enum CommandModel {
    Rename(Seq<u8>),
    Chat(Seq<u8>),
    Ignored,
}

/// How a unit is understood: a line that starts with `/` is a command, split
/// at its first space into a name and an argument; `/nick` with an argument
/// that is not blank renames, every other command is ignored; any other line
/// is chat.
pub open spec fn parse_spec(raw: Seq<u8>) -> CommandModel {
    let u = strip_line_end(raw);
    if u.len() > 0 && u[0] == 0x2fu8 {
        match first_space(u) {
            Some(i) => {
                let arg = trim(u.subrange(i + 1, u.len() as int));
                if u.subrange(0, i) == nick_command() && arg.len() > 0 {
                    CommandModel::Rename(arg)
                } else {
                    CommandModel::Ignored
                }
            },
            None => CommandModel::Ignored,
        }
    } else {
        CommandModel::Chat(u)
    }
}

/// What one unit of input asks for.
pub enum Command {
    /// Set the sender's nickname to the given bytes.
    Rename(Vec<u8>),
    /// Broadcast the given text under the sender's nickname.
    Chat(Vec<u8>),
    /// A command that is malformed or not known: nothing happens.
    Ignored,
}

impl View for Command {
    type V = CommandModel;

    open spec fn view(&self) -> CommandModel {
        match self {
            Command::Rename(n) => CommandModel::Rename(n@),
            Command::Chat(t) => CommandModel::Chat(t@),
            Command::Ignored => CommandModel::Ignored,
        }
    }
}

proof fn lemma_trim_start_from(s: Seq<u8>, i: int)
    requires
        0 <= i < s.len(),
        is_blank(s[i]),
    ensures
        trim_start(s.subrange(i, s.len() as int)) == trim_start(s.subrange(i + 1, s.len() as int)),
{
    let t = s.subrange(i, s.len() as int);
    assert(t.drop_first() == s.subrange(i + 1, s.len() as int));
}

proof fn lemma_trim_end_to(s: Seq<u8>, j: int)
    requires
        0 < j <= s.len(),
        is_blank(s[j - 1]),
    ensures
        trim_end(s.subrange(0, j)) == trim_end(s.subrange(0, j - 1)),
{
    let t = s.subrange(0, j);
    assert(t.drop_last() == s.subrange(0, j - 1));
}

/// The bytes of `s` from `lo` up to `hi`, copied.
pub fn copy_range(s: &[u8], lo: usize, hi: usize) -> (r: Vec<u8>)
    requires
        lo <= hi <= s@.len(),
    ensures
        r@ == s@.subrange(lo as int, hi as int),
{
    let mut r: Vec<u8> = Vec::new();
    let mut k: usize = lo;
    while k < hi
        invariant
            lo <= k <= hi <= s@.len(),
            r@ == s@.subrange(lo as int, k as int),
        decreases hi - k,
    {
        r.push(s[k]);
        k = k + 1;
        assert(r@ == s@.subrange(lo as int, k as int));
    }
    r
}

/// `s[lo..hi]` with whitespace removed from both ends.
pub fn trim_range(s: &[u8], lo: usize, hi: usize) -> (r: Vec<u8>)
    requires
        lo <= hi <= s@.len(),
    ensures
        r@ == trim(s@.subrange(lo as int, hi as int)),
{
    let ghost w = s@.subrange(lo as int, hi as int);
    let mut i: usize = lo;
    while i < hi && is_blank_byte(s[i])
        invariant
            lo <= i <= hi <= s@.len(),
            w == s@.subrange(lo as int, hi as int),
            trim_start(w) == trim_start(s@.subrange(i as int, hi as int)),
        decreases hi - i,
    {
        proof {
            lemma_trim_start_from(s@.subrange(0, hi as int), i as int);
            assert(s@.subrange(0, hi as int).subrange(i as int, hi as int) == s@.subrange(i as int, hi as int));
            assert(s@.subrange(0, hi as int).subrange(i + 1, hi as int) == s@.subrange(i + 1, hi as int));
        }
        i = i + 1;
    }
    let ghost v = s@.subrange(i as int, hi as int);
    assert(trim_start(v) == v) by {
        if v.len() > 0 {
            assert(v[0] == s@[i as int]);
        }
    }
    let mut j: usize = hi;
    while j > i && is_blank_byte(s[j - 1])
        invariant
            lo <= i <= j <= hi <= s@.len(),
            v == s@.subrange(i as int, hi as int),
            trim_end(v) == trim_end(s@.subrange(i as int, j as int)),
        decreases j - i,
    {
        proof {
            let u = s@.subrange(i as int, hi as int);
            lemma_trim_end_to(u, j - i);
            assert(u.subrange(0, j - i) == s@.subrange(i as int, j as int));
            assert(u.subrange(0, j - i - 1) == s@.subrange(i as int, j - 1));
        }
        j = j - 1;
    }
    let ghost x = s@.subrange(i as int, j as int);
    assert(trim_end(x) == x) by {
        if x.len() > 0 {
            assert(x.last() == s@[j - 1]);
        }
    }
    copy_range(s, i, j)
}

/// Whether a byte is ASCII whitespace.
pub fn is_blank_byte(b: u8) -> (r: bool)
    ensures
        r == is_blank(b),
{
    b == 0x20u8 || b == 0x09u8 || b == 0x0au8 || b == 0x0cu8 || b == 0x0du8
}

/// The length of a unit once its line end is stripped.
fn stripped_len(s: &[u8]) -> (n: usize)
    ensures
        n <= s@.len(),
        strip_line_end(s@) == s@.subrange(0, n as int),
{
    let len = s.len();
    if len > 0 && s[len - 1] == 0x0au8 {
        if len > 1 && s[len - 2] == 0x0du8 {
            assert(s@.drop_last().drop_last() == s@.subrange(0, len - 2));
            len - 2
        } else {
            assert(s@.drop_last() == s@.subrange(0, len - 1));
            len - 1
        }
    } else {
        assert(s@ == s@.subrange(0, len as int));
        len
    }
}

proof fn lemma_first_space_none(s: Seq<u8>)
    requires
        forall|k: int| 0 <= k < s.len() ==> s[k] != 0x20u8,
    ensures
        first_space(s) == None::<int>,
    decreases s.len(),
{
    if s.len() > 0 {
        lemma_first_space_none(s.drop_first());
    }
}

pub proof fn lemma_first_space_at(s: Seq<u8>, i: int)
    requires
        0 <= i < s.len(),
        s[i] == 0x20u8,
        forall|k: int| 0 <= k < i ==> s[k] != 0x20u8,
    ensures
        first_space(s) == Some(i),
    decreases s.len(),
{
    if i > 0 {
        lemma_first_space_at(s.drop_first(), i - 1);
    }
}

/// Whether `s[0..hi]` reads `/nick`.
fn is_nick_command(s: &[u8], hi: usize) -> (r: bool)
    requires
        hi <= s@.len(),
    ensures
        r == (s@.subrange(0, hi as int) == nick_command()),
{
    let r = hi == 5 && s[0] == 0x2fu8 && s[1] == 0x6eu8 && s[2] == 0x69u8 && s[3] == 0x63u8
        && s[4] == 0x6bu8;
    let ghost w = s@.subrange(0, hi as int);
    if r {
        assert(w =~= nick_command());
    } else {
        assert(w != nick_command()) by {
            if w == nick_command() {
                assert(w.len() == 5);
                assert(w[0] == s@[0] && w[1] == s@[1] && w[2] == s@[2] && w[3] == s@[3] && w[4] == s@[4]);
            }
        }
    }
    r
}

/// Reads one unit of input as a command or a chat line.
pub fn parse_command(raw: &[u8]) -> (r: Command)
    ensures
        r@ == parse_spec(raw@),
{
    let n = stripped_len(raw);
    let ghost u = raw@.subrange(0, n as int);
    if n > 0 && raw[0] == 0x2fu8 {
        let mut i: usize = 0;
        while i < n && raw[i] != 0x20u8
            invariant
                i <= n <= raw@.len(),
                u == raw@.subrange(0, n as int),
                forall|k: int| 0 <= k < i ==> u[k] != 0x20u8,
            decreases n - i,
        {
            i = i + 1;
        }
        if i == n {
            proof { lemma_first_space_none(u); }
            Command::Ignored
        } else {
            proof {
                lemma_first_space_at(u, i as int);
                assert(u.subrange(0, i as int) == raw@.subrange(0, i as int));
                assert(u.subrange(i + 1, u.len() as int) == raw@.subrange(i + 1, n as int));
            }
            let arg = trim_range(raw, i + 1, n);
            if is_nick_command(raw, i) && arg.len() > 0 {
                Command::Rename(arg)
            } else {
                Command::Ignored
            }
        }
    } else {
        Command::Chat(copy_range(raw, 0, n))
    }
}

/// The decimal digits of `n`, most significant first.
pub open spec fn decimal(n: nat) -> Seq<u8>
    decreases n,
{
    if n < 10 {
        seq![(0x30 + n) as u8]
    } else {
        decimal(n / 10).push((0x30 + n % 10) as u8)
    }
}

/// The nickname a connection starts with: `user:<id>`.
pub open spec fn default_nick_spec(id: nat) -> Seq<u8> {
    seq![0x75u8, 0x73u8, 0x65u8, 0x72u8, 0x3au8] + decimal(id)
}

/// The line every other connection receives for a chat unit:
/// `<nickname>> <text>\n`.
pub open spec fn chat_line_spec(nick: Seq<u8>, text: Seq<u8>) -> Seq<u8> {
    nick + seq![0x3eu8, 0x20u8] + text + seq![0x0au8]
}

/// The greeting queued for every admitted connection.
pub const WELCOME_TEXT: &'static str = "Welcome to Simple Chat! Use /nick <nick> to set your nick.\n";

/// The notice written to a connection that is refused for want of room.
pub const REJECT_TEXT: &'static str = "Sorry, the chat is full. Please try again later.\n";

/// The bytes of the greeting.
pub open spec fn welcome_spec() -> Seq<u8> {
    WELCOME_TEXT.spec_bytes()
}

/// Appends the decimal digits of `n` to `out`.
pub fn push_decimal(n: usize, out: &mut Vec<u8>)
    ensures
        final(out)@ == old(out)@ + decimal(n as nat),
    decreases n,
{
    if n >= 10 {
        push_decimal(n / 10, out);
    }
    out.push((0x30 + n % 10) as u8);
}

/// The nickname a connection with identifier `id` starts with.
pub fn default_nick(id: usize) -> (r: Vec<u8>)
    ensures
        r@ == default_nick_spec(id as nat),
{
    let mut r: Vec<u8> = vec![0x75u8, 0x73u8, 0x65u8, 0x72u8, 0x3au8];
    let ghost head = r@;
    assert(head == seq![0x75u8, 0x73u8, 0x65u8, 0x72u8, 0x3au8]);
    push_decimal(id, &mut r);
    r
}

/// Appends the contents of `src` to `dst`.
pub fn append_bytes(dst: &mut Vec<u8>, src: &[u8])
    ensures
        final(dst)@ == old(dst)@ + src@,
{
    let mut k: usize = 0;
    while k < src.len()
        invariant
            k <= src@.len(),
            dst@ == old(dst)@ + src@.subrange(0, k as int),
        decreases src@.len() - k,
    {
        dst.push(src[k]);
        k = k + 1;
        assert(dst@ == old(dst)@ + src@.subrange(0, k as int));
    }
    assert(src@.subrange(0, src@.len() as int) == src@);
}

/// The line broadcast for `text` said by `nick`.
pub fn chat_line(nick: &[u8], text: &[u8]) -> (r: Vec<u8>)
    ensures
        r@ == chat_line_spec(nick@, text@),
{
    let mut r: Vec<u8> = Vec::new();
    append_bytes(&mut r, nick);
    r.push(0x3eu8);
    r.push(0x20u8);
    append_bytes(&mut r, text);
    r.push(0x0au8);
    assert(r@ =~= chat_line_spec(nick@, text@));
    r
}

/// The bytes of the greeting.
pub fn welcome_message() -> (r: Vec<u8>)
    ensures
        r@ == welcome_spec(),
{
    vstd::slice::slice_to_vec(WELCOME_TEXT.as_bytes())
}

} // verus!
