//! The mathematical model of the OSC 1.0 wire format used by [`crate::osc`]: what bytes a
//! message encodes to, and what a byte sequence decodes to.
use vstd::prelude::*;
use vstd::utf8::{decode_utf8, encode_utf8, valid_utf8};

verus! {

/// The value of an OSC argument: an `int32`, the IEEE-754 bits of a `float32`, or a string.
pub enum ArgView {
    Int(i32),
    Float(u32),
    Str(Seq<char>),
}

/// The value of a message: its address pattern and its arguments, in order.
pub struct MessageView {
    pub address: Seq<char>,
    pub args: Seq<ArgView>,
}

/// The `int32` argument at `i`, if the argument there is one.
pub open spec fn int_at(args: Seq<ArgView>, i: int) -> Option<i32> {
    if 0 <= i < args.len() {
        match args[i] {
            ArgView::Int(v) => Some(v),
            _ => None,
        }
    } else {
        None
    }
}

/// The string argument at `i`, if the argument there is one.
pub open spec fn text_at(args: Seq<ArgView>, i: int) -> Option<Seq<char>> {
    if 0 <= i < args.len() {
        match args[i] {
            ArgView::Str(s) => Some(s),
            _ => None,
        }
    } else {
        None
    }
}

/// Control pairs as arguments: each name, then its value's float bits.
pub open spec fn control_values(controls: Seq<(Seq<char>, u32)>) -> Seq<ArgView> {
    Seq::new(
        2 * controls.len(),
        |i: int|
            if i % 2 == 0 {
                ArgView::Str(controls[i / 2].0)
            } else {
                ArgView::Float(controls[i / 2].1)
            },
    )
}

/// A reply from scsynth, as the correlator reads it.
pub enum ReplyView {
    /// `/synced id`: the barrier only.
    Synced(i32),
    /// `/n_go nodeID ...`: the node exists.
    NodeStarted(i32),
    /// `/fail command message [nodeID]`.
    Failed { command: Seq<char>, message: Seq<char>, node_id: Option<i32> },
    /// The node ids a `/g_queryTree.reply` listed, in order.
    QueryTreeReply(Seq<i32>),
}

/// Where a walk of a `/g_queryTree.reply` body goes after the node entry at `i` whose child
/// count is `children`: past the pair, and for a synth (`-1` children) past its SynthDef name and,
/// when controls are listed, past its count and control pairs.
pub open spec fn next_entry(args: Seq<ArgView>, with_controls: bool, i: int, children: i32) -> Option<int> {
    if children == -1 {
        if with_controls {
            match int_at(args, i + 3) {
                Some(n) => if n >= 0 {
                    Some(i + 4 + 2 * n)
                } else {
                    None
                },
                None => None,
            }
        } else {
            Some(i + 3)
        }
    } else {
        Some(i + 2)
    }
}

/// The node ids listed from entry `i` of a `/g_queryTree.reply` body on.
pub open spec fn tree_ids_from(args: Seq<ArgView>, with_controls: bool, i: int) -> Option<Seq<i32>>
    decreases (if 0 <= i < args.len() { args.len() - i } else { 0 }),
{
    if i < 0 || i >= args.len() {
        Some(seq![])
    } else {
        match int_at(args, i) {
            None => None,
            Some(id) => match int_at(args, i + 1) {
                None => None,
                Some(children) => match next_entry(args, with_controls, i, children) {
                    None => None,
                    Some(next) => match tree_ids_from(args, with_controls, next) {
                        Some(rest) => Some(seq![id] + rest),
                        None => None,
                    },
                },
            },
        }
    }
}

/// The node ids a `/g_queryTree.reply` body lists: its first argument is the controls flag.
pub open spec fn tree_node_ids(args: Seq<ArgView>) -> Option<Seq<i32>> {
    match int_at(args, 0) {
        None => None,
        Some(flag) => tree_ids_from(args, flag == 1, 1),
    }
}

/// Each listed node takes at least two arguments (its id and its child count).
proof fn lemma_tree_ids_from_bounded(args: Seq<ArgView>, with_controls: bool, i: int)
    requires
        i >= 0,
    ensures
        tree_ids_from(args, with_controls, i) matches Some(ids) ==> 2 * ids.len() <= (if i
            < args.len() {
            args.len() - i
        } else {
            0
        }),
    decreases (if 0 <= i < args.len() { args.len() - i } else { 0 }),
{
    if 0 <= i < args.len() {
        if let Some(children) = int_at(args, i + 1) {
            if let Some(next) = next_entry(args, with_controls, i, children) {
                lemma_tree_ids_from_bounded(args, with_controls, next);
            }
        }
    }
}

/// A tree reply lists at most one node per two arguments, and only when its controls flag is
/// an `int32`.
pub proof fn lemma_tree_node_ids_bounded(args: Seq<ArgView>)
    ensures
        tree_node_ids(args) matches Some(ids) ==> int_at(args, 0) is Some && ids.len() <= args.len() / 2,
{
    if let Some(flag) = int_at(args, 0) {
        lemma_tree_ids_from_bounded(args, flag == 1, 1);
    }
}

/// The reply a decoded message is, or `None` when it is not one the correlator models.
pub open spec fn parse_reply(m: MessageView) -> Option<ReplyView> {
    if m.address == "/synced"@ {
        match int_at(m.args, 0) {
            Some(id) => Some(ReplyView::Synced(id)),
            None => None,
        }
    } else if m.address == "/n_go"@ {
        match int_at(m.args, 0) {
            Some(id) => Some(ReplyView::NodeStarted(id)),
            None => None,
        }
    } else if m.address == "/fail"@ {
        match text_at(m.args, 0) {
            Some(command) => Some(
                ReplyView::Failed {
                    command,
                    message: match text_at(m.args, 1) {
                        Some(t) => t,
                        None => Seq::empty(),
                    },
                    node_id: int_at(m.args, 2),
                },
            ),
            None => None,
        }
    } else if m.address == "/g_queryTree.reply"@ {
        match tree_node_ids(m.args) {
            Some(ids) => Some(ReplyView::QueryTreeReply(ids)),
            None => None,
        }
    } else {
        None
    }
}

/// `n` zero bytes.
pub open spec fn zeros(n: nat) -> Seq<u8> {
    Seq::new(n, |i: int| 0u8)
}

/// How many zero bytes bring a length of `n` up to the next multiple of four.
pub open spec fn pad4(n: int) -> nat {
    ((4 - n % 4) % 4) as nat
}

/// `b`, its terminating NUL, then the padding that ends a field begun at offset `at`
/// on a four-byte boundary.
pub open spec fn padded_at(at: int, b: Seq<u8>) -> Seq<u8> {
    b + seq![0u8] + zeros(pad4(at + b.len() + 1))
}

/// An OSC string field that starts on a four-byte boundary.
pub open spec fn padded(b: Seq<u8>) -> Seq<u8> {
    padded_at(0, b)
}

/// The four big-endian bytes of `x`.
pub open spec fn be_bytes(x: u32) -> Seq<u8> {
    seq![(x >> 24u32) as u8, (x >> 16u32) as u8, (x >> 8u32) as u8, x as u8]
}

/// The `u32` whose big-endian bytes are `b0 b1 b2 b3`.
pub open spec fn be_value(b0: u8, b1: u8, b2: u8, b3: u8) -> u32 {
    ((b0 as u32) << 24u32) | ((b1 as u32) << 16u32) | ((b2 as u32) << 8u32) | (b3 as u32)
}

/// The ASCII type tag of an argument.
pub open spec fn tag_byte(a: ArgView) -> u8 {
    match a {
        ArgView::Int(_) => 0x69u8,
        ArgView::Float(_) => 0x66u8,
        ArgView::Str(_) => 0x73u8,
    }
}

/// The type tag string: a comma, then one tag per argument.
pub open spec fn type_tags(args: Seq<ArgView>) -> Seq<u8> {
    seq![0x2cu8] + args.map_values(|a: ArgView| tag_byte(a))
}

/// The wire bytes of one argument.
pub open spec fn encode_arg(a: ArgView) -> Seq<u8> {
    match a {
        ArgView::Int(v) => be_bytes(v as u32),
        ArgView::Float(bits) => be_bytes(bits),
        ArgView::Str(s) => padded(encode_utf8(s)),
    }
}

/// The wire bytes of a run of arguments, in order.
pub open spec fn encode_args(args: Seq<ArgView>) -> Seq<u8>
    decreases args.len(),
{
    if args.len() == 0 {
        seq![]
    } else {
        encode_args(args.drop_last()) + encode_arg(args.last())
    }
}

/// The OSC 1.0 encoding of a message: address, type tags, then the arguments.
pub open spec fn encode_message(m: MessageView) -> Seq<u8> {
    padded(encode_utf8(m.address)) + padded(type_tags(m.args)) + encode_args(m.args)
}

/// Why a byte sequence is not a message this decoder reads.
pub enum DecodeFailure {
    /// A string field starts past the end of the bytes.
    TruncatedMessage,
    /// A string field has no terminating NUL.
    UnterminatedString,
    /// A string field is not valid UTF-8.
    NonUtf8String,
    /// A four-byte argument runs past the end of the bytes.
    TruncatedArgument,
    /// The type tag string does not begin with a comma.
    MissingTypeTags,
    /// A type tag other than `i`, `f` or `s`.
    UnsupportedTypeTag,
    /// The packet is a bundle (it begins with `#bundle` and a NUL), which this decoder does not
    /// read.
    Bundle,
}

/// The text a [`crate::osc::DecodeError`] carries for each failure.
pub open spec fn failure_text(f: DecodeFailure) -> Seq<char> {
    match f {
        DecodeFailure::TruncatedMessage => "truncated message"@,
        DecodeFailure::UnterminatedString => "unterminated string"@,
        DecodeFailure::NonUtf8String => "non-utf8 string"@,
        DecodeFailure::TruncatedArgument => "truncated argument"@,
        DecodeFailure::MissingTypeTags => "missing type tag string"@,
        DecodeFailure::UnsupportedTypeTag => "unsupported type tag"@,
        DecodeFailure::Bundle => "unsupported bundle"@,
    }
}

/// The index of the first NUL byte of `s`, if it has one.
pub open spec fn nul_index(s: Seq<u8>) -> Option<int> {
    if exists|i: int| 0 <= i < s.len() && s[i] == 0 {
        Some(
            choose|i: int|
                0 <= i < s.len() && s[i] == 0 && forall|j: int| 0 <= j < i ==> s[j] != 0,
        )
    } else {
        None
    }
}

/// The first NUL of `s` is at `n` when `s[n]` is NUL and nothing before it is.
pub proof fn lemma_nul_index_at(s: Seq<u8>, n: int)
    requires
        0 <= n < s.len(),
        s[n] == 0,
        forall|j: int| 0 <= j < n ==> s[j] != 0,
    ensures
        nul_index(s) == Some(n),
{
    let c = choose|k: int| 0 <= k < s.len() && s[k] == 0 && forall|j: int| 0 <= j < k ==> s[j] != 0;
    assert(c == n) by {
        if c < n {
            assert(s[c] != 0);
        }
        if c > n {
            assert(s[n] != 0);
        }
    }
}

/// What the first NUL is: a zero byte inside `s` with no zero byte before it.
pub proof fn lemma_nul_index_facts(s: Seq<u8>)
    ensures
        nul_index(s) matches Some(n) ==> 0 <= n < s.len() && s[n] == 0 && forall|j: int|
            0 <= j < n ==> s[j] != 0,
{
    if exists|i: int| 0 <= i < s.len() && s[i] == 0 {
        let i = choose|i: int| 0 <= i < s.len() && s[i] == 0;
        lemma_first_nul_exists(s, i);
    }
}

/// Where a zero byte exists, a first one does.
proof fn lemma_first_nul_exists(s: Seq<u8>, i: int)
    requires
        0 <= i < s.len(),
        s[i] == 0,
    ensures
        exists|k: int| 0 <= k < s.len() && s[k] == 0 && forall|j: int| 0 <= j < k ==> s[j] != 0,
    decreases i,
{
    if exists|j: int| 0 <= j < i && s[j] == 0 {
        let j = choose|j: int| 0 <= j < i && s[j] == 0;
        lemma_first_nul_exists(s, j);
    } else {
        assert(forall|j: int| 0 <= j < i ==> s[j] != 0);
    }
}

/// Read the string field that starts at `pos`: its characters and the position after its
/// padding.
#[verifier::opaque]
pub open spec fn read_str(bytes: Seq<u8>, pos: int) -> Result<(Seq<char>, int), DecodeFailure> {
    if pos > bytes.len() {
        Err(DecodeFailure::TruncatedMessage)
    } else {
        let rest = bytes.subrange(pos, bytes.len() as int);
        match nul_index(rest) {
            None => Err(DecodeFailure::UnterminatedString),
            Some(n) => if !valid_utf8(rest.take(n)) {
                Err(DecodeFailure::NonUtf8String)
            } else {
                let end = pos + n + 1;
                Ok((decode_utf8(rest.take(n)), end + pad4(end)))
            },
        }
    }
}

/// Read the big-endian word that starts at `pos`.
#[verifier::opaque]
pub open spec fn read_word(bytes: Seq<u8>, pos: int) -> Result<u32, DecodeFailure> {
    if pos + 4 > bytes.len() {
        Err(DecodeFailure::TruncatedArgument)
    } else {
        Ok(be_value(bytes[pos], bytes[pos + 1], bytes[pos + 2], bytes[pos + 3]))
    }
}

/// Read one argument of type `tag` at `pos`: its value and the position after it.
#[verifier::opaque]
pub open spec fn read_arg(bytes: Seq<u8>, pos: int, tag: char) -> Result<(ArgView, int), DecodeFailure> {
    if tag == 'i' {
        match read_word(bytes, pos) {
            Ok(w) => Ok((ArgView::Int(w as i32), pos + 4)),
            Err(e) => Err(e),
        }
    } else if tag == 'f' {
        match read_word(bytes, pos) {
            Ok(w) => Ok((ArgView::Float(w), pos + 4)),
            Err(e) => Err(e),
        }
    } else if tag == 's' {
        match read_str(bytes, pos) {
            Ok((s, next)) => Ok((ArgView::Str(s), next)),
            Err(e) => Err(e),
        }
    } else {
        Err(DecodeFailure::UnsupportedTypeTag)
    }
}

/// Read the arguments that `tags` announce, in order, starting at `pos`.
pub open spec fn read_args(bytes: Seq<u8>, pos: int, tags: Seq<char>) -> Result<Seq<ArgView>, DecodeFailure>
    decreases tags.len(),
{
    if tags.len() == 0 {
        Ok(seq![])
    } else {
        match read_arg(bytes, pos, tags[0]) {
            Err(e) => Err(e),
            Ok((a, next)) => match read_args(bytes, next, tags.drop_first()) {
                Ok(rest) => Ok(seq![a] + rest),
                Err(e) => Err(e),
            },
        }
    }
}

/// The eight bytes that open every OSC bundle: the string `#bundle` and its NUL.
pub open spec fn bundle_header() -> Seq<u8> {
    seq![0x23u8, 0x62u8, 0x75u8, 0x6eu8, 0x64u8, 0x6cu8, 0x65u8, 0x00u8]
}

/// Whether the bytes are an OSC bundle: they begin with the bundle header `#bundle\0`.
pub open spec fn is_bundle(bytes: Seq<u8>) -> bool {
    bytes.len() >= 8 && bytes.take(8) == bundle_header()
}

/// Decode a single OSC 1.0 message: the address, the type tag string (which must begin with a
/// comma), then one argument per tag. Bundles and other argument types are failures.
pub open spec fn decode_message(bytes: Seq<u8>) -> Result<MessageView, DecodeFailure> {
    if is_bundle(bytes) {
        Err(DecodeFailure::Bundle)
    } else {
        decode_plain(bytes)
    }
}

/// Decode bytes that are not a bundle as a single message.
pub open spec fn decode_plain(bytes: Seq<u8>) -> Result<MessageView, DecodeFailure> {
    match read_str(bytes, 0) {
        Err(e) => Err(e),
        Ok((address, p1)) => match read_str(bytes, p1) {
            Err(e) => Err(e),
            Ok((tags, p2)) => if tags.len() == 0 || tags[0] != ',' {
                Err(DecodeFailure::MissingTypeTags)
            } else {
                match read_args(bytes, p2, tags.drop_first()) {
                    Ok(args) => Ok(MessageView { address, args }),
                    Err(e) => Err(e),
                }
            },
        },
    }
}

/// A string field padded from a four-byte boundary is itself a multiple of four bytes long,
/// and padding from any aligned offset is the same as padding from zero.
pub proof fn lemma_padded_aligned(at: int, b: Seq<u8>)
    requires
        at % 4 == 0,
    ensures
        padded_at(at, b) == padded(b),
        padded(b).len() % 4 == 0,
{
    assert(pad4(at + b.len() + 1) == pad4(b.len() + 1int));
}

/// Every argument encodes to a multiple of four bytes.
pub proof fn lemma_encode_arg_aligned(a: ArgView)
    ensures
        encode_arg(a).len() % 4 == 0,
{
    match a {
        ArgView::Str(s) => lemma_padded_aligned(0, encode_utf8(s)),
        _ => {},
    }
}

/// A run of arguments encodes to a multiple of four bytes.
pub proof fn lemma_encode_args_aligned(args: Seq<ArgView>)
    ensures
        encode_args(args).len() % 4 == 0,
    decreases args.len(),
{
    if args.len() > 0 {
        lemma_encode_args_aligned(args.drop_last());
        lemma_encode_arg_aligned(args.last());
    }
}

/// The four bytes of a word are its base-256 digits, most significant first.
pub proof fn lemma_be_bytes_digits(x: u32)
    ensures
        be_bytes(x).len() == 4,
        be_bytes(x)[0] * 0x1000000 + be_bytes(x)[1] * 0x10000 + be_bytes(x)[2] * 0x100 + be_bytes(x)[3]
            == x,
{
    let b0 = (x >> 24u32) as u8;
    let b1 = (x >> 16u32) as u8;
    let b2 = (x >> 8u32) as u8;
    let b3 = x as u8;
    assert(b0 as u64 * 0x1000000 + b1 as u64 * 0x10000 + b2 as u64 * 0x100 + b3 as u64 == x as u64)
        by (bit_vector)
        requires
            b0 == (x >> 24u32) as u8,
            b1 == (x >> 16u32) as u8,
            b2 == (x >> 8u32) as u8,
            b3 == x as u8,
    ;
}

/// An `int32` argument is sent as four big-endian bytes of its two's complement: their base-256
/// value is the integer itself, plus 2^32 when it is negative.
pub proof fn lemma_int_arg_bytes(v: i32)
    ensures
        encode_arg(ArgView::Int(v)).len() == 4,
        ({
            let b = encode_arg(ArgView::Int(v));
            b[0] * 0x1000000 + b[1] * 0x10000 + b[2] * 0x100 + b[3] == if v < 0 {
                v + 0x1_0000_0000
            } else {
                v as int
            }
        }),
{
    lemma_be_bytes_digits(v as u32);
    assert((v as u32) as int == if v < 0 { v + 0x1_0000_0000 } else { v as int }) by (bit_vector);
}

/// A string field holds the bytes, then a NUL, then at most three more zeros, and ends on a
/// four-byte boundary counted from where it starts.
pub proof fn lemma_padded_shape(at: int, b: Seq<u8>)
    ensures
        padded_at(at, b).take(b.len() as int) == b,
        forall|i: int| b.len() <= i < padded_at(at, b).len() ==> #[trigger] padded_at(at, b)[i] == 0,
        b.len() < padded_at(at, b).len() <= b.len() + 4,
        (at + padded_at(at, b).len()) % 4 == 0,
{
    assert(padded_at(at, b).take(b.len() as int) =~= b);
}

/// The type tag string is a comma followed by one tag per argument, in order: `i` for an
/// `int32`, `f` for a `float32`, `s` for a string.
pub proof fn lemma_type_tags_shape(args: Seq<ArgView>)
    ensures
        type_tags(args).len() == args.len() + 1,
        type_tags(args)[0] == 0x2cu8,
        forall|k: int|
            0 <= k < args.len() ==> #[trigger] type_tags(args)[k + 1] == match args[k] {
                ArgView::Int(_) => 0x69u8,
                ArgView::Float(_) => 0x66u8,
                ArgView::Str(_) => 0x73u8,
            },
{
}

/// The arguments are written one after another, in order.
pub proof fn lemma_encode_args_concat(a: Seq<ArgView>, b: Seq<ArgView>)
    ensures
        encode_args(a + b) == encode_args(a) + encode_args(b),
    decreases b.len(),
{
    if b.len() == 0 {
        assert(a + b =~= a);
        assert(encode_args(a) + encode_args(b) =~= encode_args(a));
    } else {
        assert((a + b).drop_last() =~= a + b.drop_last());
        assert((a + b).last() == b.last());
        lemma_encode_args_concat(a, b.drop_last());
        assert(encode_args(a) + encode_args(b) =~= encode_args(a) + encode_args(b.drop_last()) + encode_arg(b.last()));
    }
}

} // verus!
