//! What reading a reply and building a command's controls promise, over every message.
use vstd::prelude::*;
use crate::wire::{
    ArgView, MessageView, ReplyView, control_values, int_at, next_entry, parse_reply, text_at,
    tree_ids_from, tree_node_ids,
};

verus! {

/// The four reply addresses the correlator models are different strings.
pub proof fn lemma_reply_addresses_distinct()
    ensures
        "/synced"@ != "/n_go"@,
        "/synced"@ != "/fail"@,
        "/synced"@ != "/g_queryTree.reply"@,
        "/n_go"@ != "/fail"@,
        "/n_go"@ != "/g_queryTree.reply"@,
        "/fail"@ != "/g_queryTree.reply"@,
{
    broadcast use vstd::string::group_string_axioms;

    reveal_strlit("/synced");
    reveal_strlit("/n_go");
    reveal_strlit("/fail");
    reveal_strlit("/g_queryTree.reply");
    assert("/synced"@.len() != "/n_go"@.len());
    assert("/synced"@.len() != "/fail"@.len());
    assert("/synced"@.len() != "/g_queryTree.reply"@.len());
    assert("/n_go"@[1] != "/fail"@[1]);
    assert("/n_go"@.len() != "/g_queryTree.reply"@.len());
    assert("/fail"@.len() != "/g_queryTree.reply"@.len());
}

/// Only the four modelled replies parse, each from its own address: `/synced` gives a barrier,
/// `/n_go` a started node, `/fail` a failure, `/g_queryTree.reply` a node list, each read from
/// the arguments that reply carries. Any other address (`/n_end`, `/done`, ...) gives `None`.
pub proof fn lemma_parse_only_modelled(m: MessageView)
    ensures
        parse_reply(m) is Some ==> m.address == "/synced"@ || m.address == "/n_go"@ || m.address
            == "/fail"@ || m.address == "/g_queryTree.reply"@,
        parse_reply(m) matches Some(ReplyView::Synced(id)) ==> m.address == "/synced"@ && int_at(
            m.args,
            0,
        ) == Some(id),
        parse_reply(m) matches Some(ReplyView::NodeStarted(n)) ==> m.address == "/n_go"@ && int_at(
            m.args,
            0,
        ) == Some(n),
        parse_reply(m) matches Some(ReplyView::Failed { command, node_id, .. }) ==> m.address
            == "/fail"@ && text_at(m.args, 0) == Some(command) && node_id == int_at(m.args, 2),
        parse_reply(m) matches Some(ReplyView::QueryTreeReply(ids)) ==> m.address
            == "/g_queryTree.reply"@ && tree_node_ids(m.args) == Some(ids),
{
}

/// `/synced` with an `int32` first argument is the barrier with that id.
pub proof fn lemma_parse_synced(m: MessageView, id: i32)
    requires
        m.address == "/synced"@,
        int_at(m.args, 0) == Some(id),
    ensures
        parse_reply(m) == Some(ReplyView::Synced(id)),
{
}

/// Every `/n_go` whose first argument is an `int32` id is that node started, whatever else it
/// carries (parent, neighbours, whether it is a group).
pub proof fn lemma_parse_n_go(m: MessageView, id: i32)
    requires
        m.address == "/n_go"@,
        int_at(m.args, 0) == Some(id),
    ensures
        parse_reply(m) == Some(ReplyView::NodeStarted(id)),
{
    lemma_reply_addresses_distinct();
}

/// Every `/fail` whose first argument is a string is a failure of that command, with its
/// message (empty when absent) and the node id when the third argument is an `int32`.
pub proof fn lemma_parse_fail(m: MessageView, command: Seq<char>)
    requires
        m.address == "/fail"@,
        text_at(m.args, 0) == Some(command),
    ensures
        parse_reply(m) == Some(
            ReplyView::Failed {
                command,
                message: if text_at(m.args, 1) is Some {
                    text_at(m.args, 1)->0
                } else {
                    Seq::empty()
                },
                node_id: int_at(m.args, 2),
            },
        ),
{
    lemma_reply_addresses_distinct();
}

/// A tree listing parses to the node ids its body lists.
pub proof fn lemma_parse_tree(m: MessageView, ids: Seq<i32>)
    requires
        m.address == "/g_queryTree.reply"@,
        tree_node_ids(m.args) == Some(ids),
    ensures
        parse_reply(m) == Some(ReplyView::QueryTreeReply(ids)),
{
    lemma_reply_addresses_distinct();
}

/// A modelled reply missing its required first argument does not parse.
pub proof fn lemma_parse_needs_first_argument(m: MessageView)
    ensures
        (m.address == "/synced"@ || m.address == "/n_go"@) && int_at(m.args, 0) is None ==> parse_reply(m) is None,
        m.address == "/fail"@ && text_at(m.args, 0) is None ==> parse_reply(m) is None,
{
    lemma_reply_addresses_distinct();
}

/// Every control pair is sent, in order: the `k`-th pair becomes the name as a string at `2k`
/// and its value as a float at `2k + 1`, and nothing else is added.
pub proof fn lemma_control_values(controls: Seq<(Seq<char>, u32)>)
    ensures
        control_values(controls).len() == 2 * controls.len(),
        forall|k: int|
            0 <= k < controls.len() ==> #[trigger] control_values(controls)[2 * k] == ArgView::Str(
                controls[k].0,
            ) && control_values(controls)[2 * k + 1] == ArgView::Float(controls[k].1),
{
    assert forall|k: int| 0 <= k < controls.len() implies #[trigger] control_values(controls)[2 * k]
        == ArgView::Str(controls[k].0) && control_values(controls)[2 * k + 1] == ArgView::Float(
        controls[k].1,
    ) by {
        assert((2 * k) % 2 == 0 && (2 * k) / 2 == k);
        assert((2 * k + 1) % 2 == 1 && (2 * k + 1) / 2 == k);
    }
}

/// One synth as a `/g_queryTree.reply` lists it: its id, `-1` children, its SynthDef name, and,
/// when controls are listed, their count and the name/value pairs.
pub open spec fn synth_entry(
    id: i32,
    def_name: Seq<char>,
    controls: Seq<(Seq<char>, u32)>,
    with_controls: bool,
) -> Seq<ArgView> {
    seq![ArgView::Int(id), ArgView::Int(-1i32), ArgView::Str(def_name)] + if with_controls {
        seq![ArgView::Int(controls.len() as i32)] + control_values(controls)
    } else {
        Seq::empty()
    }
}

/// A run of synths, listed one after another.
pub open spec fn synth_entries(
    synths: Seq<(i32, Seq<char>, Seq<(Seq<char>, u32)>)>,
    with_controls: bool,
) -> Seq<ArgView>
    decreases synths.len(),
{
    if synths.len() == 0 {
        Seq::empty()
    } else {
        synth_entry(synths[0].0, synths[0].1, synths[0].2, with_controls) + synth_entries(
            synths.drop_first(),
            with_controls,
        )
    }
}

/// The body of a `/g_queryTree.reply` for one group holding `synths`: the controls flag, the
/// group id, its child count, then the synths.
pub open spec fn group_listing(
    group: i32,
    synths: Seq<(i32, Seq<char>, Seq<(Seq<char>, u32)>)>,
    with_controls: bool,
) -> Seq<ArgView> {
    seq![
        ArgView::Int(if with_controls { 1 } else { 0 }),
        ArgView::Int(group),
        ArgView::Int(synths.len() as i32),
    ] + synth_entries(synths, with_controls)
}

/// Arguments after a prefix read as they do on their own.
proof fn lemma_tree_ids_shift(a: Seq<ArgView>, b: Seq<ArgView>, with_controls: bool, i: int)
    requires
        i >= 0,
    ensures
        tree_ids_from(a + b, with_controls, a.len() + i) == tree_ids_from(b, with_controls, i),
    decreases (if i < b.len() { b.len() - i } else { 0 }),
{
    let ab = a + b;
    let k = a.len() + i;
    assert forall|j: int| j >= 0 implies #[trigger] int_at(ab, a.len() + j) == int_at(b, j) by {
        if j < b.len() {
            assert(ab[a.len() + j] == b[j]);
        }
    }
    if i < b.len() {
        assert(int_at(ab, k) == int_at(b, i));
        assert(int_at(ab, k + 1) == int_at(b, i + 1)) by {
            assert(k + 1 == a.len() + (i + 1));
        }
        assert(int_at(ab, k + 3) == int_at(b, i + 3)) by {
            assert(k + 3 == a.len() + (i + 3));
        }
        if let Some(children) = int_at(b, i + 1) {
            if let Some(next) = next_entry(b, with_controls, i, children) {
                assert(next_entry(ab, with_controls, k, children) == Some(a.len() + next));
                lemma_tree_ids_shift(a, b, with_controls, next);
            } else {
                assert(next_entry(ab, with_controls, k, children) is None);
            }
        }
    }
}

/// Listed synths read back as their ids, in order.
proof fn lemma_synth_entries_ids(
    synths: Seq<(i32, Seq<char>, Seq<(Seq<char>, u32)>)>,
    with_controls: bool,
)
    requires
        forall|k: int| 0 <= k < synths.len() ==> #[trigger] synths[k].2.len() <= i32::MAX,
    ensures
        tree_ids_from(synth_entries(synths, with_controls), with_controls, 0) == Some(
            synths.map_values(|s: (i32, Seq<char>, Seq<(Seq<char>, u32)>)| s.0),
        ),
    decreases synths.len(),
{
    let ids = synths.map_values(|s: (i32, Seq<char>, Seq<(Seq<char>, u32)>)| s.0);
    if synths.len() == 0 {
        assert(ids =~= Seq::<i32>::empty());
    } else {
        let s0 = synths[0];
        let rest = synths.drop_first();
        let e = synth_entry(s0.0, s0.1, s0.2, with_controls);
        let tail = synth_entries(rest, with_controls);
        let all = synth_entries(synths, with_controls);
        assert(all == e + tail);
        assert(synths[0].2.len() <= i32::MAX);
        lemma_control_values(s0.2);
        assert(all[0] == e[0]);
        assert(all[1] == e[1]);
        if with_controls {
            assert(all[3] == e[3]);
            assert(e.len() == 4 + 2 * s0.2.len());
            assert(next_entry(all, with_controls, 0, -1i32) == Some(e.len() as int));
        } else {
            assert(e.len() == 3);
            assert(next_entry(all, with_controls, 0, -1i32) == Some(e.len() as int));
        }
        assert forall|k: int| 0 <= k < rest.len() implies #[trigger] rest[k].2.len() <= i32::MAX by {
            assert(rest[k] == synths[k + 1]);
        }
        lemma_synth_entries_ids(rest, with_controls);
        lemma_tree_ids_shift(e, tail, with_controls, 0);
        assert(ids =~= seq![s0.0] + rest.map_values(|s: (i32, Seq<char>, Seq<(Seq<char>, u32)>)| s.0));
    }
}

/// Reading a group listing gives the group id, then every synth's id, in order, whether or not
/// controls are listed and however many each synth has.
pub proof fn lemma_group_listing_ids(
    group: i32,
    synths: Seq<(i32, Seq<char>, Seq<(Seq<char>, u32)>)>,
    with_controls: bool,
)
    requires
        synths.len() <= i32::MAX,
        forall|k: int| 0 <= k < synths.len() ==> #[trigger] synths[k].2.len() <= i32::MAX,
    ensures
        tree_node_ids(group_listing(group, synths, with_controls)) == Some(
            seq![group] + synths.map_values(|s: (i32, Seq<char>, Seq<(Seq<char>, u32)>)| s.0),
        ),
{
    let head = seq![
        ArgView::Int(if with_controls { 1 } else { 0 }),
        ArgView::Int(group),
        ArgView::Int(synths.len() as i32),
    ];
    let tail = synth_entries(synths, with_controls);
    let body = group_listing(group, synths, with_controls);
    assert(body == head + tail);
    assert(body[0] == head[0]);
    assert(body[1] == head[1]);
    assert(body[2] == head[2]);
    assert(int_at(body, 0) == Some(if with_controls { 1i32 } else { 0i32 }));
    assert(int_at(body, 2) == Some(synths.len() as i32));
    assert(next_entry(body, with_controls, 1, synths.len() as i32) == Some(3int));
    lemma_synth_entries_ids(synths, with_controls);
    lemma_tree_ids_shift(head, tail, with_controls, 0);
}

} // verus!
