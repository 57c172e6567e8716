//! Engine tests against a deterministic, in-process stand-in for scsynth. It hands back encoded
//! reply packets according to a script: a normal reply, a failure, a dropped packet, or one
//! withheld until `deliver_pending`. Outgoing packets are recorded as the bytes the library
//! produced; replies are built with `rosc`, an independent implementation.

use ginger::osc::{self, Message, Reply};
use ginger::readback::{Correlator, Outcome};
use rosc::{OscMessage, OscPacket, OscType};
use std::collections::{BTreeMap, VecDeque};

const NODE: i32 = 1001;

/// How the mock answers one command.
enum Scripted {
    Reply(Vec<Vec<u8>>),
    /// Record the command and never answer it: a dropped packet.
    Drop,
    /// Withhold these packets until `deliver_pending` is called.
    Delayed(Vec<Vec<u8>>),
}

/// The scripted engine. A command with no script left for its address is dropped.
#[derive(Default)]
struct MockScsynth {
    script: BTreeMap<String, VecDeque<Scripted>>,
    sent: Vec<Vec<u8>>,
    pending: Vec<Vec<u8>>,
}

impl MockScsynth {
    fn new() -> Self {
        Self::default()
    }

    fn script(&mut self, address: &str, scripted: Scripted) -> &mut Self {
        let queue = self.script.entry(address.to_string()).or_default();
        queue.push_back(scripted);
        self
    }

    /// Send a command. Returns the reply packets available immediately, which may be none.
    fn send(&mut self, msg: &Message) -> Vec<Vec<u8>> {
        self.sent.push(msg.encode());
        let queue = self.script.get_mut(&msg.address);
        match queue.and_then(VecDeque::pop_front) {
            Some(Scripted::Reply(packets)) => packets,
            Some(Scripted::Delayed(packets)) => {
                self.pending.extend(packets);
                Vec::new()
            }
            Some(Scripted::Drop) | None => Vec::new(),
        }
    }

    fn deliver_pending(&mut self) -> Vec<Vec<u8>> {
        std::mem::take(&mut self.pending)
    }

    fn sent_packets(&self) -> &[Vec<u8>] {
        &self.sent
    }

    /// The outgoing packets decoded by `rosc`: the round-trip check on our encoder.
    fn sent_messages(&self) -> Vec<OscMessage> {
        self.sent
            .iter()
            .map(|bytes| match rosc::decoder::decode_udp(bytes) {
                Ok(([], OscPacket::Message(msg))) => msg,
                other => panic!("recorded packet is not a single OSC message: {other:?}"),
            })
            .collect()
    }
}

fn packet(address: &str, args: Vec<OscType>) -> Vec<u8> {
    let addr = address.to_string();
    rosc::encoder::encode(&OscPacket::Message(OscMessage { addr, args })).expect("encode reply")
}

/// `/synced id`
fn synced(id: i32) -> Vec<u8> {
    packet("/synced", vec![OscType::Int(id)])
}

/// `/n_go nodeID parentID prevID nextID isGroup`
fn n_go(node_id: i32) -> Vec<u8> {
    packet("/n_go", [node_id, 1, -1, -1, 0].map(OscType::Int).to_vec())
}

/// `/fail command message nodeID`
fn fail_node(command: &str, message: &str, node_id: i32) -> Vec<u8> {
    let text = |s: &str| OscType::String(s.to_string());
    packet("/fail", vec![text(command), text(message), OscType::Int(node_id)])
}

/// `/g_queryTree.reply` for a group holding `synths`, with controls omitted.
fn query_tree_reply(group_id: i32, synths: &[(i32, &str)]) -> Vec<u8> {
    let mut args = vec![
        OscType::Int(0),
        OscType::Int(group_id),
        OscType::Int(synths.len() as i32),
    ];
    for (node_id, def_name) in synths {
        args.push(OscType::Int(*node_id));
        args.push(OscType::Int(-1));
        args.push(OscType::String((*def_name).to_string()));
    }
    packet("/g_queryTree.reply", args)
}

fn feed(correlator: &mut Correlator, packets: Vec<Vec<u8>>) {
    for bytes in packets {
        let msg = Message::decode(&bytes).expect("reply decodes");
        let reply = Reply::parse(&msg).expect("reply is one we model");
        correlator.observe_reply(&reply);
    }
}

/// Dispatch a command through the mock, recording it as evidence-pending first.
fn dispatch(mock: &mut MockScsynth, correlator: &mut Correlator, msg: &Message) {
    correlator.observe_command(msg);
    let packets = mock.send(msg);
    feed(correlator, packets);
}

fn new_lead() -> Message {
    let controls = [("freq", 440.0f32.to_bits()), ("amp", 0.2f32.to_bits())];
    osc::s_new("sine", NODE, 0, 1, &controls)
}

#[test]
fn sync_barrier_alone_cannot_produce_verified_success() {
    let mut mock = MockScsynth::new();
    // The engine answers the barrier, but the node's readback never arrives.
    mock.script("/s_new", Scripted::Drop)
        .script("/sync", Scripted::Reply(vec![synced(7)]));
    let mut correlator = Correlator::new();

    dispatch(&mut mock, &mut correlator, &new_lead());
    dispatch(&mut mock, &mut correlator, &osc::sync(7));

    assert_eq!(correlator.barriers(), [7], "the barrier did come back");
    assert_eq!(
        correlator.outcome(NODE),
        Outcome::Unknown,
        "a /synced reply is ordering, not evidence about the node"
    );
    assert_eq!(correlator.unknown_nodes(), vec![NODE]);
    assert_eq!(mock.sent_packets().len(), 2, "both commands were recorded");
    // And a node nothing was ever observed about is unknown too, never applied.
    assert_eq!(correlator.outcome(4242), Outcome::Unknown);
}

#[test]
fn scripted_failure_marks_the_node_rejected() {
    let fail = fail_node("/s_new", "SynthDef not found", NODE);
    let mut mock = MockScsynth::new();
    mock.script("/s_new", Scripted::Reply(vec![fail]));
    let mut correlator = Correlator::new();
    dispatch(&mut mock, &mut correlator, &new_lead());
    assert_eq!(correlator.outcome(NODE), Outcome::Rejected);
    assert!(correlator.unknown_nodes().is_empty());
    // A later tree listing does not overturn an explicit failure.
    correlator.observe_reply(&Reply::QueryTreeReply(vec![NODE]));
    assert_eq!(correlator.outcome(NODE), Outcome::Rejected);
}

#[test]
fn delayed_readback_is_unknown_until_the_mock_is_advanced() {
    let mut mock = MockScsynth::new();
    mock.script("/s_new", Scripted::Delayed(vec![n_go(NODE)]))
        .script("/sync", Scripted::Reply(vec![synced(1)]));
    let mut correlator = Correlator::new();

    dispatch(&mut mock, &mut correlator, &new_lead());
    dispatch(&mut mock, &mut correlator, &osc::sync(1));
    assert_eq!(
        correlator.outcome(NODE),
        Outcome::Unknown,
        "the readback is still in flight; the barrier does not stand in for it"
    );
    let late = mock.deliver_pending();
    feed(&mut correlator, late);
    assert_eq!(correlator.outcome(NODE), Outcome::Applied);
    assert!(mock.deliver_pending().is_empty());
}

#[test]
fn tree_query_readback_marks_the_node_applied() {
    let tree = query_tree_reply(1, &[(NODE, "sine")]);
    let mut mock = MockScsynth::new();
    mock.script("/n_set", Scripted::Drop)
        .script("/g_queryTree", Scripted::Reply(vec![tree]));
    let mut correlator = Correlator::new();
    let set = osc::n_set(NODE, &[("amp", 0.4f32.to_bits())]);
    dispatch(&mut mock, &mut correlator, &set);
    assert_eq!(correlator.outcome(NODE), Outcome::Unknown);
    dispatch(&mut mock, &mut correlator, &osc::g_query_tree(1, false));
    assert_eq!(correlator.outcome(NODE), Outcome::Applied);
}

#[test]
fn recorded_packets_round_trip_through_an_independent_decoder() {
    let mut mock = MockScsynth::new();
    for msg in [
        new_lead(),
        osc::n_set(NODE, &[("amp", 0.4f32.to_bits())]),
        osc::sync(7),
        osc::g_query_tree(1, true),
    ] {
        mock.send(&msg);
    }
    let decoded = mock.sent_messages();
    let addresses: Vec<&str> = decoded.iter().map(|msg| msg.addr.as_str()).collect();
    assert_eq!(addresses, ["/s_new", "/n_set", "/sync", "/g_queryTree"]);
    // And our own decoder agrees with what we encoded.
    let ours = Message::decode(&mock.sent_packets()[0]).expect("decodes");
    assert_eq!(ours, new_lead());
}

#[test]
fn independent_decoder_reads_the_argument_values() {
    let mut mock = MockScsynth::new();
    mock.send(&new_lead());
    let decoded = mock.sent_messages();
    assert_eq!(
        decoded[0].args,
        vec![
            OscType::String("sine".to_string()),
            OscType::Int(NODE),
            OscType::Int(0),
            OscType::Int(1),
            OscType::String("freq".to_string()),
            OscType::Float(440.0),
            OscType::String("amp".to_string()),
            OscType::Float(0.2),
        ]
    );
}

#[test]
fn replies_built_independently_parse_as_modelled() {
    let parse = |bytes: Vec<u8>| Reply::parse(&Message::decode(&bytes).unwrap());
    assert_eq!(parse(synced(3)), Some(Reply::Synced(3)));
    assert_eq!(parse(n_go(12)), Some(Reply::NodeStarted(12)));
    assert_eq!(
        parse(fail_node("/s_new", "no", 5)),
        Some(Reply::Failed {
            command: "/s_new".to_string(),
            message: "no".to_string(),
            node_id: Some(5),
        })
    );
    assert_eq!(
        parse(query_tree_reply(1, &[(7, "a"), (8, "b")])),
        Some(Reply::QueryTreeReply(vec![1, 7, 8]))
    );
}
