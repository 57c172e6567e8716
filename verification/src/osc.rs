//! OSC encoding for the scsynth commands Ginger dispatches, and decoding of the replies the
//! engine sends back. No I/O and no transport: the caller owns the socket.
use vstd::prelude::*;
use vstd::slice::slice_subrange;
use vstd::std_specs::iter::IteratorSpec;
use vstd::utf8::{decode_utf8, encode_utf8, encode_utf8_decode_utf8, valid_utf8};
use crate::wire::{
    ArgView, DecodeFailure, MessageView, ReplyView, be_bytes, bundle_header, is_bundle, be_value, control_values,
    decode_message, encode_arg, encode_args, encode_message, failure_text, int_at,
    lemma_encode_args_aligned, lemma_nul_index_at, lemma_padded_aligned, next_entry, nul_index, padded_at,
    parse_reply, read_arg, read_args, read_str, read_word, tag_byte, text_at, tree_ids_from,
    tree_node_ids, type_tags, zeros,
};

verus! {

/// An OSC argument. A `float32` is carried as its IEEE-754 bit pattern (`f32::to_bits`).
#[derive(Clone, Debug, PartialEq)]
pub enum Arg {
    Int(i32),
    Float(u32),
    Str(String),
}

impl View for Arg {
    type V = ArgView;

    open spec fn view(&self) -> ArgView {
        match self {
            Arg::Int(v) => ArgView::Int(*v),
            Arg::Float(b) => ArgView::Float(*b),
            Arg::Str(s) => ArgView::Str(s@),
        }
    }
}

/// The values of a run of arguments.
pub open spec fn arg_views(args: Seq<Arg>) -> Seq<ArgView> {
    args.map_values(|a: Arg| a@)
}

/// One OSC message: an address pattern and its arguments.
#[derive(Clone, Debug, PartialEq)]
pub struct Message {
    pub address: String,
    pub args: Vec<Arg>,
}

impl View for Message {
    type V = MessageView;

    open spec fn view(&self) -> MessageView {
        MessageView { address: self.address@, args: arg_views(self.args@) }
    }
}

/// Why bytes could not be decoded as a message; the text names the first problem met.
#[derive(Clone, Copy, Debug, PartialEq, Eq)]
pub struct DecodeError(pub &'static str);

/// The error that reports `f`.
fn failure(f: DecodeFailure) -> (e: DecodeError)
    ensures
        e.0@ == failure_text(f),
{
    match f {
        DecodeFailure::TruncatedMessage => DecodeError("truncated message"),
        DecodeFailure::UnterminatedString => DecodeError("unterminated string"),
        DecodeFailure::NonUtf8String => DecodeError("non-utf8 string"),
        DecodeFailure::TruncatedArgument => DecodeError("truncated argument"),
        DecodeFailure::MissingTypeTags => DecodeError("missing type tag string"),
        DecodeFailure::UnsupportedTypeTag => DecodeError("unsupported type tag"),
        DecodeFailure::Bundle => DecodeError("unsupported bundle"),
    }
}

/// `std::str::from_utf8`: the bytes as a string slice when they are valid UTF-8, which the
/// contract states with vstd's UTF-8 model (`valid_utf8`, `decode_utf8`).
#[verifier::external_body]
fn utf8_str(v: &[u8]) -> (r: Option<&str>)
    ensures
        r is Some <==> valid_utf8(v@),
        r matches Some(s) ==> s@ == decode_utf8(v@),
{
    std::str::from_utf8(v).ok()
}

/// Read the string field at `*pos` and move `*pos` past its padding.
pub fn take_str<'a>(bytes: &'a [u8], pos: &mut usize) -> (r: Result<&'a str, DecodeError>)
    requires
        bytes@.len() <= isize::MAX,
    ensures
        match read_str(bytes@, *old(pos) as int) {
            Ok((s, next)) => r matches Ok(t) && t@ == s && *final(pos) == next,
            Err(f) => r matches Err(e) && e.0@ == failure_text(f) && *final(pos) == *old(pos),
        },
        r is Ok ==> *final(pos) <= bytes@.len() + 3,
{
    let ghost b = bytes@;
    let start = *pos;
    let len = bytes.len();
    if start > len {
        assert(read_str(b, start as int) == Err::<(Seq<char>, int), DecodeFailure>(
            DecodeFailure::TruncatedMessage,
        )) by {
            reveal(read_str);
        }
        return Err(failure(DecodeFailure::TruncatedMessage));
    }
    let ghost rest = bytes@.subrange(start as int, len as int);
    let mut i: usize = start;
    while i < len && bytes[i] != 0
        invariant
            start <= i <= len,
            len == bytes@.len(),
            rest == bytes@.subrange(start as int, len as int),
            forall|j: int| 0 <= j < i - start ==> rest[j] != 0,
        decreases len - i,
    {
        i = i + 1;
    }
    if i == len {
        assert(nul_index(rest) is None) by {
            assert forall|k: int| 0 <= k < rest.len() implies rest[k] != 0 by {}
        }
        assert(read_str(b, start as int) == Err::<(Seq<char>, int), DecodeFailure>(
            DecodeFailure::UnterminatedString,
        )) by {
            reveal(read_str);
        }
        return Err(failure(DecodeFailure::UnterminatedString));
    }
    let n: usize = i - start;
    proof {
        lemma_nul_index_at(rest, n as int);
    }
    let field = slice_subrange(bytes, start, i);
    assert(field@ =~= rest.take(n as int));
    match utf8_str(field) {
        None => {
            assert(read_str(b, start as int) == Err::<(Seq<char>, int), DecodeFailure>(
                DecodeFailure::NonUtf8String,
            )) by {
                reveal(read_str);
            }
            Err(failure(DecodeFailure::NonUtf8String))
        },
        Some(text) => {
            let end: usize = i + 1;
            *pos = end + (4 - end % 4) % 4;
            assert(read_str(b, start as int) == Ok::<(Seq<char>, int), DecodeFailure>(
                (text@, *pos as int),
            )) by {
                reveal(read_str);
            }
            Ok(text)
        },
    }
}

/// Whether the bytes begin with the bundle header `#bundle\0`.
fn starts_bundle(bytes: &[u8]) -> (r: bool)
    ensures
        r == is_bundle(bytes@),
{
    if bytes.len() < 8 {
        return false;
    }
    let r = bytes[0] == 0x23u8 && bytes[1] == 0x62u8 && bytes[2] == 0x75u8 && bytes[3] == 0x6eu8
        && bytes[4] == 0x64u8 && bytes[5] == 0x6cu8 && bytes[6] == 0x65u8 && bytes[7] == 0x00u8;
    proof {
        if r {
            assert(bytes@.take(8) =~= bundle_header());
        } else if bytes@.take(8) == bundle_header() {
            assert(bytes@.take(8)[0] == bytes@[0]);
            assert(bytes@.take(8)[1] == bytes@[1]);
            assert(bytes@.take(8)[2] == bytes@[2]);
            assert(bytes@.take(8)[3] == bytes@[3]);
            assert(bytes@.take(8)[4] == bytes@[4]);
            assert(bytes@.take(8)[5] == bytes@[5]);
            assert(bytes@.take(8)[6] == bytes@[6]);
            assert(bytes@.take(8)[7] == bytes@[7]);
        }
    }
    r
}

/// Read the four bytes at `*pos` and move `*pos` past them.
pub fn take_4(bytes: &[u8], pos: &mut usize) -> (r: Result<[u8; 4], DecodeError>)
    ensures
        match read_word(bytes@, *old(pos) as int) {
            Ok(w) => r matches Ok(b) && be_value(b[0], b[1], b[2], b[3]) == w
                && *final(pos) == *old(pos) + 4,
            Err(f) => r matches Err(e) && e.0@ == failure_text(f) && *final(pos) == *old(pos),
        },
        r is Ok ==> *final(pos) <= bytes@.len(),
{
    reveal(read_word);
    let start = *pos;
    if start > bytes.len() || bytes.len() - start < 4 {
        return Err(failure(DecodeFailure::TruncatedArgument));
    }
    *pos = start + 4;
    Ok([bytes[start], bytes[start + 1], bytes[start + 2], bytes[start + 3]])
}

/// Read one argument of type `tag` at `*pos` and move `*pos` past it.
fn take_arg(bytes: &[u8], pos: &mut usize, tag: char) -> (r: Result<Arg, DecodeError>)
    requires
        bytes@.len() <= isize::MAX,
    ensures
        match read_arg(bytes@, *old(pos) as int, tag) {
            Ok((a, next)) => r matches Ok(x) && x@ == a && *final(pos) == next,
            Err(f) => r matches Err(e) && e.0@ == failure_text(f),
        },
        r is Ok ==> *final(pos) <= bytes@.len() + 3,
{
    broadcast use vstd::string::group_string_axioms;

    reveal(read_arg);
    if tag == 'i' {
        match take_4(bytes, pos) {
            Ok(b) => Ok(Arg::Int(from_be(b) as i32)),
            Err(e) => Err(e),
        }
    } else if tag == 'f' {
        match take_4(bytes, pos) {
            Ok(b) => Ok(Arg::Float(from_be(b))),
            Err(e) => Err(e),
        }
    } else if tag == 's' {
        match take_str(bytes, pos) {
            Ok(s) => Ok(Arg::Str(s.to_owned())),
            Err(e) => Err(e),
        }
    } else {
        Err(failure(DecodeFailure::UnsupportedTypeTag))
    }
}

/// Read the arguments that the remaining type tags announce, starting at `start`.
fn take_args(bytes: &[u8], start: usize, tags: std::str::Chars) -> (r: Result<Vec<Arg>, DecodeError>)
    requires
        bytes@.len() <= isize::MAX,
        start <= bytes@.len() + 3,
        tags.decrease() is Some,
    ensures
        match read_args(bytes@, start as int, tags.remaining()) {
            Ok(args) => r matches Ok(v) && arg_views(v@) == args,
            Err(f) => r matches Err(e) && e.0@ == failure_text(f),
        },
{
    broadcast use vstd::string::group_string_axioms;

    let ghost all = tags.remaining();
    let mut chars = tags;
    let mut pos = start;
    let mut args: Vec<Arg> = Vec::new();
    let ghost mut k: int = 0;
    loop
        invariant
            bytes@.len() <= isize::MAX,
            0 <= k <= all.len(),
            all == tags.remaining(),
            chars.remaining() == all.skip(k),
            chars.decrease() is Some,
            pos <= bytes@.len() + 3,
            read_args(bytes@, start as int, all) == (match read_args(bytes@, pos as int, all.skip(k)) {
                Ok(rest) => Ok(arg_views(args@) + rest),
                Err(e) => Err(e),
            }),
        decreases chars.decrease()->0,
    {
        let ghost before = pos;
        let ghost tail = all.skip(k);
        let ghost prev = arg_views(args@);
        match chars.next() {
            None => {
                assert(tail.len() == 0);
                assert(read_args(bytes@, pos as int, tail) == Ok::<Seq<ArgView>, DecodeFailure>(seq![]));
                assert(prev + seq![] =~= prev);
                return Ok(args);
            },
            Some(tag) => {
                assert(tag == tail[0]);
                assert(tail.drop_first() =~= all.skip(k + 1));
                match take_arg(bytes, &mut pos, tag) {
                    Ok(arg) => {
                        args.push(arg);
                        assert(arg_views(args@) =~= prev.push(arg@));
                        proof {
                            match read_args(bytes@, pos as int, all.skip(k + 1)) {
                                Ok(rest) => {
                                    assert(prev + (seq![arg@] + rest) =~= prev.push(arg@) + rest);
                                },
                                Err(_) => {},
                            }
                            k = k + 1;
                        }
                    },
                    Err(e) => {
                        proof {
                            let f = read_arg(bytes@, before as int, tag)->Err_0;
                            assert(read_args(bytes@, before as int, tail) == Err::<Seq<ArgView>, DecodeFailure>(f));
                        }
                        return Err(e);
                    },
                }
            },
        }
    }
}

/// The word whose big-endian bytes are `b`.
fn from_be(b: [u8; 4]) -> (w: u32)
    ensures
        w == be_value(b[0], b[1], b[2], b[3]),
{
    ((b[0] as u32) << 24u32) | ((b[1] as u32) << 16u32) | ((b[2] as u32) << 8u32) | (b[3] as u32)
}

/// Append `b` as an OSC string field: the bytes, a NUL, then zeros up to a multiple of four.
fn push_bytes(out: &mut Vec<u8>, b: &[u8])
    ensures
        final(out)@ == old(out)@ + padded_at(old(out)@.len() as int, b@),
{
    out.extend_from_slice(b);
    out.push(0);
    let pad: usize = (4 - out.len() % 4) % 4;
    let ghost before = out@;
    let mut k: usize = 0;
    while k < pad
        invariant
            k <= pad <= 3,
            out@ == before + zeros(k as nat),
        decreases pad - k,
    {
        out.push(0);
        k = k + 1;
        assert(out@ =~= before + zeros(k as nat));
    }
    assert(out@ =~= old(out)@ + padded_at(old(out)@.len() as int, b@));
}

/// Append `s` as an OSC string field: its UTF-8 bytes, a NUL, then zeros up to a multiple of four.
pub fn push_str(out: &mut Vec<u8>, s: &str)
    ensures
        final(out)@ == old(out)@ + padded_at(old(out)@.len() as int, encode_utf8(s@)),
{
    push_bytes(out, s.as_bytes());
}

/// Append the four big-endian bytes of `x`.
fn push_be32(out: &mut Vec<u8>, x: u32)
    ensures
        final(out)@ == old(out)@ + be_bytes(x),
{
    out.push((x >> 24u32) as u8);
    out.push((x >> 16u32) as u8);
    out.push((x >> 8u32) as u8);
    out.push(x as u8);
    assert(out@ =~= old(out)@ + be_bytes(x));
}

/// The ASCII type tag of an argument.
fn tag_of(arg: &Arg) -> (t: u8)
    ensures
        t == tag_byte(arg@),
{
    match arg {
        Arg::Int(_) => 0x69u8,
        Arg::Float(_) => 0x66u8,
        Arg::Str(_) => 0x73u8,
    }
}

impl Message {
    /// A message to `address` with `args`.
    pub fn new(address: &str, args: Vec<Arg>) -> (m: Message)
        ensures
            m@ == (MessageView { address: address@, args: arg_views(args@) }),
    {
        Message { address: address.to_owned(), args }
    }

    /// The `int32` argument at `index`, if the argument there is one.
    pub fn int_arg(&self, index: usize) -> (r: Option<i32>)
        ensures
            r == int_at(self@.args, index as int),
    {
        if index < self.args.len() {
            match &self.args[index] {
                Arg::Int(v) => Some(*v),
                _ => None,
            }
        } else {
            None
        }
    }

    /// The string argument at `index`, if the argument there is one.
    pub fn text(&self, index: usize) -> (r: Option<&str>)
        ensures
            match text_at(self@.args, index as int) {
                Some(t) => r matches Some(s) && s@ == t,
                None => r is None,
            },
    {
        if index < self.args.len() {
            match &self.args[index] {
                Arg::Str(s) => Some(s.as_str()),
                _ => None,
            }
        } else {
            None
        }
    }

    /// Decode a single OSC 1.0 message. Bundles (packets that begin with `#bundle` and a NUL)
    /// and argument types outside `i`, `f` and `s` are rejected rather than skipped: unread
    /// evidence must not look like read evidence.
    pub fn decode(bytes: &[u8]) -> (r: Result<Message, DecodeError>)
        requires
            bytes@.len() <= isize::MAX,
        ensures
            match decode_message(bytes@) {
                Ok(m) => r matches Ok(msg) && msg@ == m,
                Err(f) => r matches Err(e) && e.0@ == failure_text(f),
            },
    {
        broadcast use vstd::string::group_string_axioms;

        if starts_bundle(bytes) {
            return Err(failure(DecodeFailure::Bundle));
        }
        let mut pos: usize = 0;
        let address = match take_str(bytes, &mut pos) {
            Ok(s) => s.to_owned(),
            Err(e) => return Err(e),
        };
        let tags = match take_str(bytes, &mut pos) {
            Ok(s) => s,
            Err(e) => return Err(e),
        };
        let mut chars = tags.chars();
        match chars.next() {
            Some(c) => {
                if c != ',' {
                    return Err(failure(DecodeFailure::MissingTypeTags));
                }
            },
            None => {
                return Err(failure(DecodeFailure::MissingTypeTags));
            },
        }
        assert(chars.remaining() == tags@.drop_first());
        match take_args(bytes, pos, chars) {
            Ok(args) => Ok(Message { address, args }),
            Err(e) => Err(e),
        }
    }

    /// Encode to OSC 1.0 wire bytes (big endian, four-byte aligned).
    pub fn encode(&self) -> (out: Vec<u8>)
        ensures
            out@ == encode_message(self@),
            out@.len() % 4 == 0,
    {
        let ghost args = self@.args;
        let mut out: Vec<u8> = Vec::new();
        push_str(&mut out, self.address.as_str());
        proof {
            lemma_padded_aligned(0, encode_utf8(self@.address));
        }
        let ghost head = out@;
        let n = self.args.len();
        let mut tags: Vec<u8> = Vec::new();
        tags.push(0x2cu8);
        let mut i: usize = 0;
        while i < n
            invariant
                n == self.args@.len(),
                args == self@.args,
                i <= n,
                tags@ == type_tags(args.take(i as int)),
            decreases n - i,
        {
            tags.push(tag_of(&self.args[i]));
            i = i + 1;
            assert(tags@ =~= type_tags(args.take(i as int)));
        }
        assert(args.take(n as int) =~= args);
        push_bytes(&mut out, tags.as_slice());
        proof {
            lemma_padded_aligned(head.len() as int, type_tags(args));
        }
        let ghost fields = out@;
        assert(fields.len() % 4 == 0);
        let mut j: usize = 0;
        while j < n
            invariant
                n == self.args@.len(),
                args == self@.args,
                j <= n,
                fields.len() % 4 == 0,
                out@ == fields + encode_args(args.take(j as int)),
            decreases n - j,
        {
            proof {
                lemma_encode_args_aligned(args.take(j as int));
            }
            let ghost before = out@;
            match &self.args[j] {
                Arg::Int(v) => push_be32(&mut out, *v as u32),
                Arg::Float(b) => push_be32(&mut out, *b),
                Arg::Str(s) => {
                    push_str(&mut out, s.as_str());
                    proof {
                        lemma_padded_aligned(before.len() as int, encode_utf8(s@));
                    }
                },
            }
            assert(out@ == before + encode_arg(args[j as int]));
            assert(args.take(j + 1).drop_last() =~= args.take(j as int));
            j = j + 1;
            assert(out@ =~= fields + encode_args(args.take(j as int)));
        }
        proof {
            lemma_encode_args_aligned(args);
        }
        out
    }
}

/// Whether two strings hold the same characters.
pub(crate) fn same_text(a: &str, b: &str) -> (r: bool)
    ensures
        r == (a@ == b@),
{
    let x = a.as_bytes();
    let y = b.as_bytes();
    proof {
        encode_utf8_decode_utf8(a@);
        encode_utf8_decode_utf8(b@);
    }
    if x.len() != y.len() {
        return false;
    }
    let n = x.len();
    let mut i: usize = 0;
    while i < n
        invariant
            n == x@.len(),
            n == y@.len(),
            x@ == encode_utf8(a@),
            y@ == encode_utf8(b@),
            i <= n,
            forall|j: int| 0 <= j < i ==> x@[j] == y@[j],
        decreases n - i,
    {
        if x[i] != y[i] {
            return false;
        }
        i = i + 1;
    }
    assert(x@ =~= y@);
    true
}

/// A reply from scsynth, in the vocabulary the correlator reasons about.
#[derive(Clone, Debug, PartialEq)]
pub enum Reply {
    /// `/synced id`: the barrier only. Says nothing about any node.
    Synced(i32),
    /// `/n_go nodeID ...`: the node exists.
    NodeStarted(i32),
    /// `/fail command message [nodeID]`
    Failed { command: String, message: String, node_id: Option<i32> },
    /// The node ids a `/g_queryTree.reply` listed.
    QueryTreeReply(Vec<i32>),
}

impl View for Reply {
    type V = ReplyView;

    open spec fn view(&self) -> ReplyView {
        match self {
            Reply::Synced(id) => ReplyView::Synced(*id),
            Reply::NodeStarted(id) => ReplyView::NodeStarted(*id),
            Reply::Failed { command, message, node_id } => ReplyView::Failed {
                command: command@,
                message: message@,
                node_id: *node_id,
            },
            Reply::QueryTreeReply(ids) => ReplyView::QueryTreeReply(ids@),
        }
    }
}

/// `pos + step`, or `usize::MAX` where that sum does not fit.
fn saturating_step(pos: usize, step: u64) -> (r: usize)
    ensures
        r == (if pos + step > usize::MAX { usize::MAX as int } else { pos + step }),
{
    let room: usize = usize::MAX - pos;
    if step > room as u64 {
        usize::MAX
    } else {
        pos + step as usize
    }
}

/// Past `usize::MAX` every index lies outside a message's arguments.
proof fn lemma_int_at_saturated(args: Seq<ArgView>, i: int)
    requires
        args.len() <= usize::MAX,
    ensures
        int_at(args, if i > usize::MAX { usize::MAX as int } else { i }) == int_at(args, i),
{
}

/// Walk a `/g_queryTree.reply` body, collecting the node ids it lists.
fn query_tree_node_ids(msg: &Message) -> (r: Option<Vec<i32>>)
    ensures
        match tree_node_ids(msg@.args) {
            Some(ids) => r matches Some(v) && v@ == ids,
            None => r is None,
        },
{
    let ghost args = msg@.args;
    let flag = match msg.int_arg(0) {
        Some(f) => f,
        None => return None,
    };
    let with_controls = flag == 1;
    let len = msg.args.len();
    let mut ids: Vec<i32> = Vec::new();
    let mut i: usize = 1;
    let ghost mut at: int = 1;
    while i < len
        invariant
            args == msg@.args,
            len == args.len(),
            len <= usize::MAX,
            at >= 1,
            i == (if at > usize::MAX { usize::MAX as int } else { at }),
            tree_node_ids(args) == (match tree_ids_from(args, with_controls, at) {
                Some(rest) => Some(ids@ + rest),
                None => None,
            }),
        decreases usize::MAX - i,
    {
        assert(i == at);
        let id = match msg.int_arg(i) {
            Some(v) => v,
            None => return None,
        };
        let children = match msg.int_arg(i + 1) {
            Some(v) => v,
            None => return None,
        };
        let ghost next: int;
        if children == -1 {
            if with_controls {
                let count_at = saturating_step(i, 3);
                proof {
                    lemma_int_at_saturated(args, at + 3);
                }
                let count = match msg.int_arg(count_at) {
                    Some(v) => v,
                    None => return None,
                };
                if count < 0 {
                    return None;
                }
                proof {
                    next = at + 4 + 2 * count;
                }
                i = saturating_step(i, 4 + 2 * (count as u64));
            } else {
                proof {
                    next = at + 3;
                }
                i = saturating_step(i, 3);
            }
        } else {
            proof {
                next = at + 2;
            }
            i = saturating_step(i, 2);
        }
        assert(next_entry(args, with_controls, at, children) == Some(next));
        let ghost prev = ids@;
        ids.push(id);
        proof {
            match tree_ids_from(args, with_controls, next) {
                Some(rest) => {
                    assert(prev + (seq![id] + rest) =~= prev.push(id) + rest);
                },
                None => {},
            }
            at = next;
        }
    }
    assert(ids@ + seq![] =~= ids@);
    Some(ids)
}

impl Reply {
    /// Interpret a decoded message, or `None` when it is not a reply the correlator models.
    pub fn parse(msg: &Message) -> (r: Option<Reply>)
        ensures
            match parse_reply(msg@) {
                Some(v) => r matches Some(x) && x@ == v,
                None => r is None,
            },
    {
        let address = msg.address.as_str();
        if same_text(address, "/synced") {
            match msg.int_arg(0) {
                Some(id) => Some(Reply::Synced(id)),
                None => None,
            }
        } else if same_text(address, "/n_go") {
            match msg.int_arg(0) {
                Some(id) => Some(Reply::NodeStarted(id)),
                None => None,
            }
        } else if same_text(address, "/fail") {
            let command = match msg.text(0) {
                Some(c) => c.to_owned(),
                None => return None,
            };
            let message = match msg.text(1) {
                Some(t) => t.to_owned(),
                None => String::new(),
            };
            Some(Reply::Failed { command, message, node_id: msg.int_arg(2) })
        } else if same_text(address, "/g_queryTree.reply") {
            match query_tree_node_ids(msg) {
                Some(ids) => Some(Reply::QueryTreeReply(ids)),
                None => None,
            }
        } else {
            None
        }
    }
}

/// The names and float bits of control pairs, as values.
pub open spec fn control_pairs(controls: Seq<(&str, u32)>) -> Seq<(Seq<char>, u32)> {
    controls.map_values(|c: (&str, u32)| (c.0@, c.1))
}

/// Control pairs as arguments: each name as a string, then its value as a float.
fn control_args(controls: &[(&str, u32)]) -> (args: Vec<Arg>)
    ensures
        arg_views(args@) == control_values(control_pairs(controls@)),
{
    let ghost pairs = control_pairs(controls@);
    let mut args: Vec<Arg> = Vec::new();
    let n = controls.len();
    let mut i: usize = 0;
    while i < n
        invariant
            n == controls@.len(),
            pairs == control_pairs(controls@),
            i <= n,
            arg_views(args@) == control_values(pairs.take(i as int)),
        decreases n - i,
    {
        let (name, value) = controls[i];
        let ghost before = arg_views(args@);
        args.push(Arg::Str(name.to_owned()));
        args.push(Arg::Float(value));
        i = i + 1;
        proof {
            let now = control_values(pairs.take(i as int));
            let was = control_values(pairs.take(i - 1));
            assert(arg_views(args@) =~= before.push(ArgView::Str(name@)).push(ArgView::Float(value)));
            assert forall|j: int| 0 <= j < now.len() implies now[j] == arg_views(args@)[j] by {
                if j < 2 * (i - 1) {
                    assert(now[j] == was[j]);
                } else if j == 2 * (i - 1) {
                    assert(j / 2 == i - 1);
                } else {
                    assert(j / 2 == i - 1);
                }
            }
            assert(arg_views(args@) =~= now);
        }
    }
    assert(pairs.take(n as int) =~= pairs);
    args
}

/// `/s_new defName nodeID addAction targetID [control value]*`; each control value is the
/// bit pattern of a `float32`.
pub fn s_new(def: &str, node: i32, action: i32, target: i32, ctl: &[(&str, u32)]) -> (m: Message)
    ensures
        m@ == (MessageView {
            address: "/s_new"@,
            args: seq![ArgView::Str(def@), ArgView::Int(node), ArgView::Int(action), ArgView::Int(target)]
                + control_values(control_pairs(ctl@)),
        }),
{
    let mut args: Vec<Arg> = Vec::new();
    args.push(Arg::Str(def.to_owned()));
    args.push(Arg::Int(node));
    args.push(Arg::Int(action));
    args.push(Arg::Int(target));
    let mut controls = control_args(ctl);
    let ghost head = arg_views(args@);
    assert(head =~= seq![ArgView::Str(def@), ArgView::Int(node), ArgView::Int(action), ArgView::Int(target)]);
    let ghost tail = arg_views(controls@);
    args.append(&mut controls);
    assert(arg_views(args@) =~= head + tail);
    Message::new("/s_new", args)
}

/// `/n_set nodeID [control value]*`; each control value is the bit pattern of a `float32`.
pub fn n_set(node_id: i32, controls: &[(&str, u32)]) -> (m: Message)
    ensures
        m@ == (MessageView {
            address: "/n_set"@,
            args: seq![ArgView::Int(node_id)] + control_values(control_pairs(controls@)),
        }),
{
    let mut args: Vec<Arg> = Vec::new();
    args.push(Arg::Int(node_id));
    let mut rest = control_args(controls);
    let ghost head = arg_views(args@);
    assert(head =~= seq![ArgView::Int(node_id)]);
    let ghost tail = arg_views(rest@);
    args.append(&mut rest);
    assert(arg_views(args@) =~= head + tail);
    Message::new("/n_set", args)
}

/// `/sync id`: an ordering barrier, never operation-specific proof.
pub fn sync(id: i32) -> (m: Message)
    ensures
        m@ == (MessageView { address: "/sync"@, args: seq![ArgView::Int(id)] }),
{
    let mut args: Vec<Arg> = Vec::new();
    args.push(Arg::Int(id));
    let m = Message::new("/sync", args);
    assert(m@.args =~= seq![ArgView::Int(id)]);
    m
}

/// `/g_queryTree groupID flag`, where the flag asks for control values too.
pub fn g_query_tree(group_id: i32, with_controls: bool) -> (m: Message)
    ensures
        m@ == (MessageView {
            address: "/g_queryTree"@,
            args: seq![ArgView::Int(group_id), ArgView::Int(if with_controls { 1 } else { 0 })],
        }),
{
    let mut args: Vec<Arg> = Vec::new();
    args.push(Arg::Int(group_id));
    args.push(Arg::Int(if with_controls { 1 } else { 0 }));
    let m = Message::new("/g_queryTree", args);
    assert(m@.args =~= seq![ArgView::Int(group_id), ArgView::Int(if with_controls { 1 } else { 0 })]);
    m
}

} // verus!
