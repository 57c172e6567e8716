//! What decoding gives back of an encoding: the decoder reads every message the encoder writes,
//! as long as no string in it holds a NUL (which would end its field early).
use vstd::prelude::*;
use vstd::utf8::{
    decode_utf8_encode_utf8, valid_utf8,
    char_is_scalar, char_u32_cast, encode_scalar, encode_utf8, encode_utf8_decode_utf8, encode_utf8_valid_utf8,
    is_ascii_chars, is_ascii_chars_encode_utf8, is_scalar,
};
use crate::wire::{
    ArgView, MessageView, be_bytes, bundle_header, is_bundle, be_value, decode_message, encode_arg, encode_args,
    encode_message, lemma_encode_arg_aligned, lemma_encode_args_aligned, lemma_padded_aligned,
    lemma_nul_index_at, lemma_nul_index_facts, nul_index, padded, padded_at, read_arg, read_args, read_str, read_word, type_tags, tag_byte,
};

verus! {

/// A string argument holds no NUL character.
pub open spec fn arg_nul_free(a: ArgView) -> bool {
    match a {
        ArgView::Str(s) => !s.contains('\0'),
        _ => true,
    }
}

/// No string of the message, its address included, holds a NUL character.
pub open spec fn nul_free(m: MessageView) -> bool {
    &&& !m.address.contains('\0')
    &&& forall|i: int| 0 <= i < m.args.len() ==> #[trigger] arg_nul_free(m.args[i])
}

/// The character that tags an argument of this type.
pub open spec fn tag_char(a: ArgView) -> char {
    match a {
        ArgView::Int(_) => 'i',
        ArgView::Float(_) => 'f',
        ArgView::Str(_) => 's',
    }
}

/// The type tag string, as characters.
pub open spec fn tag_chars(args: Seq<ArgView>) -> Seq<char> {
    seq![','] + args.map_values(|a: ArgView| tag_char(a))
}

/// The type tag string is ASCII, so its UTF-8 bytes are the tag bytes.
proof fn lemma_tag_chars_encode(args: Seq<ArgView>)
    ensures
        encode_utf8(tag_chars(args)) == type_tags(args),
        !tag_chars(args).contains('\0'),
{
    let cs = tag_chars(args);
    assert(is_ascii_chars(cs));
    is_ascii_chars_encode_utf8(cs);
    assert(encode_utf8(cs) =~= type_tags(args)) by {
        assert forall|i: int| 0 <= i < cs.len() implies encode_utf8(cs)[i] == type_tags(args)[i] by {
            if i > 0 {
                assert(cs[i] == tag_char(args[i - 1]));
                assert(type_tags(args)[i] == tag_byte(args[i - 1]));
            }
        }
    }
    assert(!cs.contains('\0')) by {
        if cs.contains('\0') {
            let i = choose|i: int| 0 <= i < cs.len() && cs[i] == '\0';
            if i > 0 {
                assert(cs[i] == tag_char(args[i - 1]));
            }
        }
    }
}

/// The UTF-8 encoding of a scalar other than zero holds no zero byte.
proof fn lemma_scalar_bytes_nonzero(c: u32)
    requires
        is_scalar(c),
        c != 0,
    ensures
        forall|i: int| 0 <= i < encode_scalar(c).len() ==> encode_scalar(c)[i] != 0,
{
    assert(c != 0 && c <= 0x7f ==> (c & 0x7f) as u8 != 0) by (bit_vector);
    assert(forall|x: u32| #![auto] (0xC0u8 | ((x >> 6u32) & 0x1F) as u8) != 0) by (bit_vector);
    assert(forall|x: u32| #![auto] (0xE0u8 | ((x >> 12u32) & 0x0F) as u8) != 0) by (bit_vector);
    assert(forall|x: u32| #![auto] (0xF0u8 | ((x >> 18u32) & 0x7) as u8) != 0) by (bit_vector);
    assert(forall|x: u32| #![auto] (0x80u8 | (x & 0x3F) as u8) != 0) by (bit_vector);
    assert(forall|x: u32| #![auto] (0x80u8 | ((x >> 6u32) & 0x3F) as u8) != 0) by (bit_vector);
    assert(forall|x: u32| #![auto] (0x80u8 | ((x >> 12u32) & 0x3F) as u8) != 0) by (bit_vector);
}

/// The UTF-8 encoding of characters other than NUL holds no zero byte.
proof fn lemma_encode_nul_free(s: Seq<char>)
    requires
        !s.contains('\0'),
    ensures
        forall|i: int| 0 <= i < encode_utf8(s).len() ==> encode_utf8(s)[i] != 0,
    decreases s.len(),
{
    if s.len() > 0 {
        let c = s[0] as u32;
        assert(s[0] != '\0');
        char_is_scalar(s[0]);
        char_u32_cast(s[0], c);
        assert(c != 0) by {
            if c == 0 {
                assert((0u32 as char) == '\0');
            }
        }
        lemma_scalar_bytes_nonzero(c);
        assert(!s.drop_first().contains('\0')) by {
            if s.drop_first().contains('\0') {
                let i = choose|i: int| 0 <= i < s.drop_first().len() && s.drop_first()[i] == '\0';
                assert(s[i + 1] == '\0');
            }
        }
        lemma_encode_nul_free(s.drop_first());
        let head = encode_scalar(c);
        let tail = encode_utf8(s.drop_first());
        assert(encode_utf8(s) == head + tail);
        assert forall|i: int| 0 <= i < encode_utf8(s).len() implies encode_utf8(s)[i] != 0 by {
            if i < head.len() {
                assert(encode_utf8(s)[i] == head[i]);
            } else {
                assert(encode_utf8(s)[i] == tail[i - head.len()]);
            }
        }
    }
}

/// A string field written at `pos`, padded to the next four-byte boundary, reads back as its
/// characters, and the read ends where the field ends.
proof fn lemma_read_str_at(bytes: Seq<u8>, pos: int, s: Seq<char>)
    requires
        0 <= pos,
        !s.contains('\0'),
        pos + padded_at(pos, encode_utf8(s)).len() <= bytes.len(),
        bytes.subrange(pos, pos + padded_at(pos, encode_utf8(s)).len()) == padded_at(pos, encode_utf8(s)),
    ensures
        read_str(bytes, pos) == Ok::<(Seq<char>, int), crate::wire::DecodeFailure>(
            (s, pos + padded_at(pos, encode_utf8(s)).len()),
        ),
{
    reveal(read_str);
    let e = encode_utf8(s);
    let field = padded_at(pos, e);
    let n = e.len() as int;
    let rest = bytes.subrange(pos, bytes.len() as int);
    lemma_encode_nul_free(s);
    assert forall|i: int| 0 <= i < field.len() implies rest[i] == field[i] by {
        assert(rest[i] == bytes[pos + i]);
        assert(bytes.subrange(pos, pos + field.len())[i] == bytes[pos + i]);
    }
    assert(field[n] == 0);
    assert forall|j: int| 0 <= j < n implies rest[j] != 0 by {
        assert(field[j] == e[j]);
    }
    lemma_nul_index_at(rest, n);
    assert(rest.take(n) =~= e) by {
        assert forall|j: int| 0 <= j < n implies rest.take(n)[j] == e[j] by {
            assert(field[j] == e[j]);
        }
    }
    encode_utf8_valid_utf8(s);
    encode_utf8_decode_utf8(s);
}

/// A string field written at an aligned position reads back as its characters.
proof fn lemma_read_str_field(bytes: Seq<u8>, pos: int, s: Seq<char>)
    requires
        0 <= pos,
        pos % 4 == 0,
        !s.contains('\0'),
        pos + padded(encode_utf8(s)).len() <= bytes.len(),
        bytes.subrange(pos, pos + padded(encode_utf8(s)).len()) == padded(encode_utf8(s)),
    ensures
        read_str(bytes, pos) == Ok::<(Seq<char>, int), crate::wire::DecodeFailure>(
            (s, pos + padded(encode_utf8(s)).len()),
        ),
{
    lemma_padded_aligned(pos, encode_utf8(s));
    lemma_read_str_at(bytes, pos, s);
}

/// What `push_str` appends, `take_str` reads back: after appending a string without NUL to any
/// buffer, reading a string field where the append began gives the string and ends at the end
/// of the buffer.
pub proof fn lemma_take_str_after_push_str(out: Seq<u8>, s: Seq<char>)
    requires
        !s.contains('\0'),
    ensures
        ({
            let bytes = out + padded_at(out.len() as int, encode_utf8(s));
            read_str(bytes, out.len() as int) == Ok::<(Seq<char>, int), crate::wire::DecodeFailure>(
                (s, bytes.len() as int),
            )
        }),
{
    let field = padded_at(out.len() as int, encode_utf8(s));
    let bytes = out + field;
    assert(bytes.subrange(out.len() as int, (out.len() + field.len()) as int) =~= field);
    lemma_read_str_at(bytes, out.len() as int, s);
}

/// The four bytes of a word read back as the word.
proof fn lemma_read_word_field(bytes: Seq<u8>, pos: int, x: u32)
    requires
        0 <= pos,
        pos + 4 <= bytes.len(),
        bytes.subrange(pos, pos + 4) == be_bytes(x),
    ensures
        read_word(bytes, pos) == Ok::<u32, crate::wire::DecodeFailure>(x),
{
    reveal(read_word);
    assert(bytes[pos] == bytes.subrange(pos, pos + 4)[0]);
    assert(bytes[pos + 1] == bytes.subrange(pos, pos + 4)[1]);
    assert(bytes[pos + 2] == bytes.subrange(pos, pos + 4)[2]);
    assert(bytes[pos + 3] == bytes.subrange(pos, pos + 4)[3]);
    assert(be_value((x >> 24u32) as u8, (x >> 16u32) as u8, (x >> 8u32) as u8, x as u8) == x)
        by (bit_vector);
}

/// Encoding a run of arguments that starts with `a` writes `a` first.
proof fn lemma_encode_args_cons(a: ArgView, rest: Seq<ArgView>)
    ensures
        encode_args(seq![a] + rest) == encode_arg(a) + encode_args(rest),
    decreases rest.len(),
{
    if rest.len() == 0 {
        assert(seq![a] + rest =~= seq![a]);
        assert(seq![a].drop_last() =~= Seq::<ArgView>::empty());
        assert(encode_arg(a) + encode_args(rest) =~= encode_args(Seq::<ArgView>::empty()) + encode_arg(a));
    } else {
        let all = seq![a] + rest;
        assert(all.drop_last() =~= seq![a] + rest.drop_last());
        assert(all.last() == rest.last());
        lemma_encode_args_cons(a, rest.drop_last());
        assert(encode_arg(a) + encode_args(rest) =~= encode_arg(a) + encode_args(rest.drop_last()) + encode_arg(rest.last()));
    }
}

/// Arguments written at an aligned position read back, each by its own type tag.
proof fn lemma_read_args_field(bytes: Seq<u8>, pos: int, args: Seq<ArgView>)
    requires
        0 <= pos,
        pos % 4 == 0,
        forall|i: int| 0 <= i < args.len() ==> #[trigger] arg_nul_free(args[i]),
        pos + encode_args(args).len() <= bytes.len(),
        bytes.subrange(pos, pos + encode_args(args).len()) == encode_args(args),
    ensures
        read_args(bytes, pos, args.map_values(|a: ArgView| tag_char(a))) == Ok::<
            Seq<ArgView>,
            crate::wire::DecodeFailure,
        >(args),
    decreases args.len(),
{
    let tags = args.map_values(|a: ArgView| tag_char(a));
    if args.len() == 0 {
        assert(tags.len() == 0);
        assert(args =~= Seq::<ArgView>::empty());
    } else {
        let a = args[0];
        let rest = args.drop_first();
        assert(args =~= seq![a] + rest);
        lemma_encode_args_cons(a, rest);
        let head = encode_arg(a);
        let next = pos + head.len();
        lemma_encode_arg_aligned(a);
        assert(bytes.subrange(pos, next) =~= head) by {
            assert forall|i: int| 0 <= i < head.len() implies bytes.subrange(pos, next)[i] == head[i] by {
                assert(bytes.subrange(pos, pos + encode_args(args).len())[i] == encode_args(args)[i]);
            }
        }
        assert(bytes.subrange(next, next + encode_args(rest).len()) =~= encode_args(rest)) by {
            assert forall|i: int| 0 <= i < encode_args(rest).len() implies bytes.subrange(next, next + encode_args(rest).len())[i] == encode_args(rest)[i] by {
                assert(bytes.subrange(pos, pos + encode_args(args).len())[head.len() + i] == encode_args(args)[head.len() + i]);
            }
        }
        reveal(read_arg);
        assert(arg_nul_free(args[0]));
        match a {
            ArgView::Int(v) => {
                lemma_read_word_field(bytes, pos, v as u32);
                assert(((v as u32) as i32) == v) by (bit_vector);
            },
            ArgView::Float(b) => {
                lemma_read_word_field(bytes, pos, b);
            },
            ArgView::Str(s) => {
                lemma_read_str_field(bytes, pos, s);
            },
        }
        assert(read_arg(bytes, pos, tags[0]) == Ok::<(ArgView, int), crate::wire::DecodeFailure>((a, next)));
        assert forall|i: int| 0 <= i < rest.len() implies #[trigger] arg_nul_free(rest[i]) by {
            assert(arg_nul_free(args[i + 1]));
        }
        lemma_read_args_field(bytes, next, rest);
        assert(tags.drop_first() =~= rest.map_values(|a: ArgView| tag_char(a)));
        assert(seq![a] + rest =~= args);
    }
}

/// Nothing is skipped: when the arguments that `tags` announce all read, there is exactly one
/// argument per tag, of that tag's type, in order.
pub proof fn lemma_read_args_follow_tags(bytes: Seq<u8>, pos: int, tags: Seq<char>)
    ensures
        read_args(bytes, pos, tags) matches Ok(args) ==> tags == args.map_values(|a: ArgView| tag_char(a)),
    decreases tags.len(),
{
    reveal(read_arg);
    if tags.len() == 0 {
        if let Ok(args) = read_args(bytes, pos, tags) {
            assert(args.map_values(|a: ArgView| tag_char(a)) =~= tags);
        }
    } else {
        if let Ok((a, next)) = read_arg(bytes, pos, tags[0]) {
            lemma_read_args_follow_tags(bytes, next, tags.drop_first());
            if let Ok(rest) = read_args(bytes, next, tags.drop_first()) {
                let args = seq![a] + rest;
                assert(tag_char(a) == tags[0]);
                assert(args.map_values(|x: ArgView| tag_char(x)) =~= tags) by {
                    assert forall|i: int| 0 <= i < tags.len() implies args.map_values(|x: ArgView| tag_char(x))[i] == tags[i] by {
                        if i > 0 {
                            assert(args[i] == rest[i - 1]);
                            assert(rest.map_values(|x: ArgView| tag_char(x))[i - 1] == tags.drop_first()[i - 1]);
                        }
                    }
                }
            }
        }
    }
}

/// The UTF-8 bytes of the address `#bundle` are the bundle header without its NUL.
proof fn lemma_bundle_address_bytes()
    ensures
        encode_utf8("#bundle"@) == bundle_header().take(7),
{
    reveal_strlit("#bundle");
    let cs = "#bundle"@;
    assert(is_ascii_chars(cs));
    is_ascii_chars_encode_utf8(cs);
    assert(encode_utf8(cs) =~= bundle_header().take(7)) by {
        assert(encode_utf8(cs)[0] == cs[0] as u8);
        assert(encode_utf8(cs)[1] == cs[1] as u8);
        assert(encode_utf8(cs)[2] == cs[2] as u8);
        assert(encode_utf8(cs)[3] == cs[3] as u8);
        assert(encode_utf8(cs)[4] == cs[4] as u8);
        assert(encode_utf8(cs)[5] == cs[5] as u8);
        assert(encode_utf8(cs)[6] == cs[6] as u8);
    }
}

/// A message whose address is not `#bundle` never encodes to bytes that open with the bundle
/// header.
proof fn lemma_address_not_bundle(address: Seq<char>, rest: Seq<u8>)
    requires
        !address.contains('\0'),
        address != "#bundle"@,
    ensures
        !is_bundle(padded(encode_utf8(address)) + rest),
{
    let e = encode_utf8(address);
    let field = padded(e);
    let bytes = field + rest;
    let h = bundle_header();
    lemma_encode_nul_free(address);
    if is_bundle(bytes) {
        assert(bytes.take(8) == h);
        assert forall|i: int| 0 <= i < 8 implies bytes[i] == h[i] by {
            assert(bytes.take(8)[i] == bytes[i]);
        }
        assert(bytes[e.len() as int] == 0) by {
            assert(field[e.len() as int] == 0);
        }
        if e.len() < 7 {
            assert(h[e.len() as int] != 0);
        } else if e.len() > 7 {
            assert(bytes[7] == e[7]);
        }
        assert(e.len() == 7);
        assert(e =~= h.take(7)) by {
            assert forall|i: int| 0 <= i < 7 implies e[i] == h[i] by {
                assert(bytes[i] == field[i]);
            }
        }
        lemma_bundle_address_bytes();
        encode_utf8_decode_utf8(address);
        encode_utf8_decode_utf8("#bundle"@);
        assert(address == "#bundle"@);
    }
}

/// Bundles are rejected: bytes that begin with `#bundle` and a NUL never decode to a message.
pub proof fn lemma_bundles_rejected(bytes: Seq<u8>)
    requires
        bytes.len() >= 8,
        bytes.take(8) == bundle_header(),
    ensures
        decode_message(bytes) == Err::<MessageView, crate::wire::DecodeFailure>(
            crate::wire::DecodeFailure::Bundle,
        ),
{
}

/// Decoding what `encode_message` wrote gives back the message, whenever no string in it
/// holds a NUL character and its address is not `#bundle` (whose encoding is a bundle header).
pub proof fn lemma_decode_encode(m: MessageView)
    requires
        nul_free(m),
        m.address != "#bundle"@,
    ensures
        decode_message(encode_message(m)) == Ok::<MessageView, crate::wire::DecodeFailure>(m),
{
    let bytes = encode_message(m);
    lemma_address_not_bundle(m.address, padded(type_tags(m.args)) + encode_args(m.args));
    assert(bytes == padded(encode_utf8(m.address)) + (padded(type_tags(m.args)) + encode_args(m.args)));
    let a = padded(encode_utf8(m.address));
    let t = padded(type_tags(m.args));
    let r = encode_args(m.args);
    let la = a.len() as int;
    let lt = t.len() as int;
    let lr = r.len() as int;
    lemma_padded_aligned(0, encode_utf8(m.address));
    lemma_padded_aligned(0, type_tags(m.args));
    lemma_encode_args_aligned(m.args);
    assert(bytes.subrange(0, la) =~= a);
    lemma_read_str_field(bytes, 0, m.address);
    lemma_tag_chars_encode(m.args);
    let tc = tag_chars(m.args);
    assert(bytes.subrange(la, la + lt) =~= t);
    lemma_read_str_field(bytes, la, tc);
    assert(bytes.subrange(la + lt, la + lt + lr) =~= r);
    lemma_read_args_field(bytes, la + lt, m.args);
    assert(tc[0] == ',');
    assert(tc.drop_first() =~= m.args.map_values(|x: ArgView| tag_char(x)));
}

/// A string read is exactly the UTF-8 bytes from `pos` up to the first NUL: those bytes encode
/// the characters returned, none of them is zero, the NUL follows them, and the read ends after
/// the padding that brings the field to a four-byte boundary.
pub proof fn lemma_read_str_reads_field(bytes: Seq<u8>, pos: int)
    requires
        0 <= pos,
    ensures
        read_str(bytes, pos) matches Ok((s, next)) ==> {
            let e = encode_utf8(s);
            &&& pos + e.len() < bytes.len()
            &&& bytes.subrange(pos, pos + e.len()) == e
            &&& bytes[pos + e.len()] == 0
            &&& forall|j: int| pos <= j < pos + e.len() ==> #[trigger] bytes[j] != 0
            &&& next == pos + padded_at(pos, e).len()
        },
{
    reveal(read_str);
    if let Ok((s, next)) = read_str(bytes, pos) {
        let rest = bytes.subrange(pos, bytes.len() as int);
        let n = nul_index(rest)->0;
        let field = rest.take(n);
        assert(valid_utf8(field));
        decode_utf8_encode_utf8(field);
        let e = encode_utf8(s);
        assert(e == field);
        lemma_nul_index_facts(rest);
        assert(e.len() == n);
        assert forall|j: int| 0 <= j < n implies #[trigger] bytes.subrange(pos, pos + n)[j] == e[j] by {
            assert(bytes.subrange(pos, pos + n)[j] == bytes[pos + j]);
            assert(rest[j] == bytes[pos + j]);
            assert(field[j] == rest[j]);
        }
        assert(bytes.subrange(pos, pos + n) =~= e);
        assert(rest[n] == bytes[pos + n]);
        assert forall|j: int| pos <= j < pos + n implies #[trigger] bytes[j] != 0 by {
            assert(rest[j - pos] == bytes[j]);
        }
    }
}

/// A word read is the base-256 value of the four bytes at `pos`, most significant first.
pub proof fn lemma_read_word_reads_field(bytes: Seq<u8>, pos: int)
    requires
        0 <= pos,
    ensures
        read_word(bytes, pos) matches Ok(w) ==> pos + 4 <= bytes.len() && bytes[pos]
            * 0x1000000 + bytes[pos + 1] * 0x10000 + bytes[pos + 2] * 0x100 + bytes[pos + 3] == w,
{
    reveal(read_word);
    if let Ok(w) = read_word(bytes, pos) {
        let b0 = bytes[pos];
        let b1 = bytes[pos + 1];
        let b2 = bytes[pos + 2];
        let b3 = bytes[pos + 3];
        assert(b0 as u64 * 0x1000000 + b1 as u64 * 0x10000 + b2 as u64 * 0x100 + b3 as u64
            == be_value(b0, b1, b2, b3) as u64) by (bit_vector);
    }
}

/// What a successful decode read: the packet is no bundle, its first string field is the
/// address, and the next is the type tag string, a comma then one tag per argument, in order;
/// every tag was read, none skipped.
pub proof fn lemma_decode_reads(bytes: Seq<u8>)
    ensures
        decode_message(bytes) matches Ok(m) ==> {
            &&& !is_bundle(bytes)
            &&& read_str(bytes, 0) matches Ok((address, p1)) && address == m.address && (read_str(
                bytes,
                p1,
            ) matches Ok((tags, p2)) && tags == tag_chars(m.args))
        },
{
    if let Ok(m) = decode_message(bytes) {
        if let Ok((address, p1)) = read_str(bytes, 0) {
            if let Ok((tags, p2)) = read_str(bytes, p1) {
                lemma_read_args_follow_tags(bytes, p2, tags.drop_first());
                assert(tags =~= tag_chars(m.args)) by {
                    assert(tags.drop_first() == m.args.map_values(|a: ArgView| tag_char(a)));
                    assert forall|i: int| 0 <= i < tags.len() implies tags[i] == tag_chars(m.args)[i] by {
                        if i > 0 {
                            assert(tags[i] == tags.drop_first()[i - 1]);
                        }
                    }
                }
            }
        }
    }
}

} // verus!
