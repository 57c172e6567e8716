use ginger::osc::{
    g_query_tree, n_set, push_str, s_new, sync, take_4, take_str, Arg, DecodeError, Message, Reply,
};

#[test]
fn sync_encodes_to_exact_wire_bytes() {
    let bytes = sync(7).encode();
    assert_eq!(
        bytes,
        vec![
            b'/', b's', b'y', b'n', b'c', 0, 0, 0, b',', b'i', 0, 0, 0, 0, 0, 7
        ]
    );
}

#[test]
fn negative_int_and_float_bits_encode_big_endian() {
    let msg = Message::new("/a", vec![Arg::Int(-2), Arg::Float(1.5f32.to_bits())]);
    assert_eq!(
        msg.encode(),
        vec![
            b'/', b'a', 0, 0, b',', b'i', b'f', 0, 0xff, 0xff, 0xff, 0xfe, 0x3f, 0xc0, 0, 0
        ]
    );
}

#[test]
fn address_of_four_bytes_gets_a_full_word_of_padding() {
    let bytes = Message::new("/abc", vec![]).encode();
    assert_eq!(bytes, vec![b'/', b'a', b'b', b'c', 0, 0, 0, 0, b',', 0, 0, 0]);
    assert_eq!(bytes.len() % 4, 0);
}

#[test]
fn string_argument_encodes_utf8_then_padding() {
    let msg = Message::new("/s", vec![Arg::Str("é".to_string())]);
    assert_eq!(
        msg.encode(),
        vec![b'/', b's', 0, 0, b',', b's', 0, 0, 0xc3, 0xa9, 0, 0]
    );
}

#[test]
fn every_constructor_round_trips_through_the_decoder() {
    let msgs = [
        s_new("sine", 1001, 0, 1, &[("freq", 440.0f32.to_bits())]),
        n_set(5, &[("amp", 0.25f32.to_bits()), ("pan", (-1.0f32).to_bits())]),
        sync(-3),
        g_query_tree(0, true),
        Message::new("/ünï", vec![Arg::Str(String::new()), Arg::Str("abcd".to_string())]),
    ];
    for msg in msgs {
        assert_eq!(Message::decode(&msg.encode()), Ok(msg));
    }
}

#[test]
fn constructors_lay_out_their_arguments() {
    let msg = s_new("sine", 9, 1, 2, &[("freq", 7)]);
    assert_eq!(msg.address, "/s_new");
    assert_eq!(
        msg.args,
        vec![
            Arg::Str("sine".to_string()),
            Arg::Int(9),
            Arg::Int(1),
            Arg::Int(2),
            Arg::Str("freq".to_string()),
            Arg::Float(7),
        ]
    );
    assert_eq!(n_set(4, &[]).args, vec![Arg::Int(4)]);
    assert_eq!(g_query_tree(3, true).args, vec![Arg::Int(3), Arg::Int(1)]);
    assert_eq!(g_query_tree(3, false).args, vec![Arg::Int(3), Arg::Int(0)]);
}

#[test]
fn accessors_read_only_their_own_type() {
    let msg = Message::new("/x", vec![Arg::Int(4), Arg::Str("t".to_string())]);
    assert_eq!(msg.int_arg(0), Some(4));
    assert_eq!(msg.int_arg(1), None);
    assert_eq!(msg.int_arg(2), None);
    assert_eq!(msg.text(1), Some("t"));
    assert_eq!(msg.text(0), None);
    assert_eq!(msg.text(9), None);
}

#[test]
fn empty_input_is_unterminated() {
    assert_eq!(Message::decode(&[]), Err(DecodeError("unterminated string")));
}

#[test]
fn missing_second_string_is_truncated_message() {
    // The address field ends exactly at the end of the bytes plus padding beyond it.
    assert_eq!(
        Message::decode(&[b'/', b'a', 0]),
        Err(DecodeError("truncated message"))
    );
}

#[test]
fn invalid_utf8_is_rejected() {
    assert_eq!(
        Message::decode(&[0xff, 0, 0, 0, b',', 0, 0, 0]),
        Err(DecodeError("non-utf8 string"))
    );
}

#[test]
fn tags_without_comma_are_rejected() {
    assert_eq!(
        Message::decode(&[b'/', b'a', 0, 0, b'i', 0, 0, 0, 0, 0, 0, 1]),
        Err(DecodeError("missing type tag string"))
    );
}

#[test]
fn short_int_argument_is_truncated() {
    assert_eq!(
        Message::decode(&[b'/', b'a', 0, 0, b',', b'i', 0, 0, 0, 0]),
        Err(DecodeError("truncated argument"))
    );
}

#[test]
fn unsupported_tag_is_rejected_not_skipped() {
    assert_eq!(
        Message::decode(&[b'/', b'a', 0, 0, b',', b'b', 0, 0, 0, 0, 0, 0]),
        Err(DecodeError("unsupported type tag"))
    );
}

#[test]
fn bundle_is_rejected() {
    // An empty bundle whose timetag bytes would read as a type tag string ",i".
    let bytes = b"#bundle\0,i\0\0\0\0\0\x01";
    assert_eq!(Message::decode(bytes), Err(DecodeError("unsupported bundle")));
    // The immediate timetag, then one element holding a /sync message.
    let mut bundle = b"#bundle\0".to_vec();
    bundle.extend_from_slice(&[0, 0, 0, 0, 0, 0, 0, 1]);
    let element = sync(7).encode();
    bundle.extend_from_slice(&(element.len() as i32).to_be_bytes());
    bundle.extend_from_slice(&element);
    assert_eq!(Message::decode(&bundle), Err(DecodeError("unsupported bundle")));
}

#[test]
fn address_starting_with_hash_is_still_a_message() {
    for address in ["#", "#b", "#bundles", "#bundle/x"] {
        let msg = Message::new(address, vec![Arg::Int(1)]);
        assert_eq!(Message::decode(&msg.encode()), Ok(msg));
    }
    // The one address whose encoding is a bundle header.
    let header = Message::new("#bundle", vec![]);
    assert_eq!(
        Message::decode(&header.encode()),
        Err(DecodeError("unsupported bundle"))
    );
}

#[test]
fn take_str_reads_back_what_push_str_wrote() {
    for prefix in [0usize, 1, 2, 3, 5] {
        for text in ["", "a", "abc", "abcd", "ünï"] {
            let mut out = vec![7u8; prefix];
            push_str(&mut out, text);
            assert_eq!(out.len() % 4, 0);
            let mut pos = prefix;
            assert_eq!(take_str(&out, &mut pos), Ok(text));
            assert_eq!(pos, out.len());
        }
    }
}

#[test]
fn take_4_reads_four_bytes_and_advances() {
    let bytes = [9, 1, 2, 3, 4];
    let mut pos = 1;
    assert_eq!(take_4(&bytes, &mut pos), Ok([1, 2, 3, 4]));
    assert_eq!(pos, 5);
    assert_eq!(take_4(&bytes, &mut pos), Err(DecodeError("truncated argument")));
    assert_eq!(pos, 5);
}

#[test]
fn tree_reply_lists_at_most_one_node_per_two_arguments() {
    let args: Vec<Arg> = [0, 5, 0, 6, 0, 7, 0].into_iter().map(Arg::Int).collect();
    let n = args.len();
    match Reply::parse(&Message::new("/g_queryTree.reply", args)) {
        Some(Reply::QueryTreeReply(ids)) => {
            assert_eq!(ids, vec![5, 6, 7]);
            assert!(ids.len() <= n / 2);
        }
        other => panic!("unexpected {other:?}"),
    }
}

#[test]
fn decoding_reads_big_endian_words() {
    let msg = Message::decode(&[b'/', b'a', 0, 0, b',', b'i', b'f', 0, 0x80, 0, 0, 0, 0x3f, 0x80, 0, 0])
        .unwrap();
    assert_eq!(msg.args, vec![Arg::Int(i32::MIN), Arg::Float(1.0f32.to_bits())]);
}

#[test]
fn parse_ignores_unmodelled_and_malformed_replies() {
    assert_eq!(Reply::parse(&Message::new("/done", vec![])), None);
    assert_eq!(Reply::parse(&Message::new("/synced", vec![])), None);
    assert_eq!(
        Reply::parse(&Message::new("/n_go", vec![Arg::Str("x".to_string())])),
        None
    );
    assert_eq!(Reply::parse(&Message::new("/fail", vec![Arg::Int(1)])), None);
}

#[test]
fn fail_without_message_or_node_has_defaults() {
    let reply = Reply::parse(&Message::new("/fail", vec![Arg::Str("/quit".to_string())]));
    assert_eq!(
        reply,
        Some(Reply::Failed {
            command: "/quit".to_string(),
            message: String::new(),
            node_id: None,
        })
    );
}

#[test]
fn tree_reply_with_controls_skips_control_pairs() {
    let args = vec![
        Arg::Int(1),
        Arg::Int(0),
        Arg::Int(2),
        Arg::Int(100),
        Arg::Int(-1),
        Arg::Str("sine".to_string()),
        Arg::Int(2),
        Arg::Str("freq".to_string()),
        Arg::Float(0),
        Arg::Str("amp".to_string()),
        Arg::Float(0),
        Arg::Int(101),
        Arg::Int(-1),
        Arg::Str("saw".to_string()),
        Arg::Int(0),
    ];
    let reply = Reply::parse(&Message::new("/g_queryTree.reply", args));
    assert_eq!(reply, Some(Reply::QueryTreeReply(vec![0, 100, 101])));
}

#[test]
fn tree_reply_with_negative_control_count_is_not_modelled() {
    let args = vec![Arg::Int(1), Arg::Int(7), Arg::Int(-1), Arg::Str("s".to_string()), Arg::Int(-2)];
    assert_eq!(Reply::parse(&Message::new("/g_queryTree.reply", args)), None);
}

#[test]
fn tree_reply_with_missing_child_count_is_not_modelled() {
    let args = vec![Arg::Int(0), Arg::Int(7)];
    assert_eq!(Reply::parse(&Message::new("/g_queryTree.reply", args)), None);
}

#[test]
fn nul_inside_a_string_ends_the_field_early() {
    let msg = Message::new("/a", vec![Arg::Str("x\0y".to_string())]);
    let decoded = Message::decode(&msg.encode()).unwrap();
    assert_eq!(decoded.args, vec![Arg::Str("x".to_string())]);
    assert_ne!(decoded, msg);
}
