//! What holds of every blob: reading gives back what was written, and cut blobs are refused.

use vstd::prelude::*;

use crate::blob;
use crate::blob::{BlobAction, BlobModel, HeaderModel, NodeModel, RecordModel, OFFSET_NONE};
use crate::error::Error;
use crate::le;

verus! {

broadcast use {le::group_widths, le::group_ranges};

/// A node's arrays are absent, or as long as its actions and its player's hands ask for.
pub open spec fn arrays_fit(n: NodeModel, oop: nat, ip: nat) -> bool {
    let hands = blob::hands_of(n.player, oop, ip);
    &&& n.strategy.len() == 0 || n.strategy.len() == blob::strategy_len(n.actions.len(), hands)
    &&& n.ev.len() == 0 || n.ev.len() == n.actions.len() * hands
}

/// A blob that is written in full: nothing refuses it, the node count fits its field and every
/// array has the length that a reader works out for it.
pub open spec fn storable(b: BlobModel) -> bool {
    &&& blob::write_fault(b) is None
    &&& b.nodes.len() <= 0xFFFF_FFFF
    &&& forall|i: int| 0 <= i < b.nodes.len() ==> arrays_fit(#[trigger] b.nodes[i], b.oop.len(), b.ip.len())
}

/// The record of node `n`, as a reader finds it.
spec fn stripped(n: NodeModel, strategy_at: int, ev_at: int) -> RecordModel {
    RecordModel {
        node: NodeModel { strategy: Seq::empty(), ev: Seq::empty(), ..n },
        strategy_offset: blob::stored_offset(n.strategy.len(), strategy_at) as u64,
        ev_offset: blob::stored_offset(n.ev.len(), ev_at) as u64,
    }
}

/// A header takes 39 bytes and one for each board card.
pub proof fn law_header_size(h: HeaderModel)
    ensures
        blob::header_bytes(h).len() == 39 + h.board.len(),
{
}

/// A node record takes 36 bytes, five for each action and four for each child slot.
pub proof fn law_record_size(n: NodeModel, strategy_at: int, ev_at: int)
    ensures
        blob::record_bytes(n, strategy_at, ev_at).len() == 36 + 5 * n.actions.len() + 4
            * n.children.len(),
{
    le::lemma_flat_len(n.actions, blob::action_bytes(), 5);
    le::lemma_flat_len(n.children, blob::child_bytes(), 4);
}

/// The header that stands at the start of `e` is the one that is read.
proof fn lemma_header(e: Seq<u8>, h: HeaderModel)
    requires
        le::block(e, 0, blob::header_bytes(h)),
        3 <= h.board.len() <= 5,
    ensures
        blob::read_header(e) == Ok::<HeaderModel, Error>(h),
{
    let n = h.board.len() as int;
    let x0 = blob::MAGIC@;
    let x1 = x0 + seq![blob::FORMAT_VERSION];
    let x2 = x1 + le::le32(h.scenario_id as int);
    let x3 = x2 + le::le16(h.template_id as int);
    let x4 = x3 + le::le16(h.solver_version as int);
    let x5 = x4 + seq![h.board.len() as u8];
    let x6 = x5 + h.board;
    let x7 = x6 + seq![h.street];
    let x8 = x7 + le::le32(h.starting_pot.bits as int);
    let x9 = x8 + le::le32(h.effective_stack.bits as int);
    let x10 = x9 + le::le32(h.rake_percent.bits as int);
    let x11 = x10 + le::le32(h.rake_cap.bits as int);
    let x12 = x11 + le::le32(h.exploitability_pct.bits as int);
    le::lemma_block_split(e, 0, x12, le::le32(h.iterations as int));
    le::lemma_le32(e, 35 + n, h.iterations as int);
    le::lemma_block_split(e, 0, x11, le::le32(h.exploitability_pct.bits as int));
    le::lemma_le32(e, 31 + n, h.exploitability_pct.bits as int);
    le::lemma_block_split(e, 0, x10, le::le32(h.rake_cap.bits as int));
    le::lemma_le32(e, 27 + n, h.rake_cap.bits as int);
    le::lemma_block_split(e, 0, x9, le::le32(h.rake_percent.bits as int));
    le::lemma_le32(e, 23 + n, h.rake_percent.bits as int);
    le::lemma_block_split(e, 0, x8, le::le32(h.effective_stack.bits as int));
    le::lemma_le32(e, 19 + n, h.effective_stack.bits as int);
    le::lemma_block_split(e, 0, x7, le::le32(h.starting_pot.bits as int));
    le::lemma_le32(e, 15 + n, h.starting_pot.bits as int);
    le::lemma_block_split(e, 0, x6, seq![h.street]);
    le::lemma_block_byte(e, 14 + n, seq![h.street], 0);
    le::lemma_block_split(e, 0, x5, h.board);
    le::lemma_block_bounds(e, 14, h.board);
    le::lemma_block_split(e, 0, x4, seq![h.board.len() as u8]);
    le::lemma_block_byte(e, 13, seq![h.board.len() as u8], 0);
    le::lemma_block_split(e, 0, x3, le::le16(h.solver_version as int));
    le::lemma_le16(e, 11, h.solver_version as int);
    le::lemma_block_split(e, 0, x2, le::le16(h.template_id as int));
    le::lemma_le16(e, 9, h.template_id as int);
    le::lemma_block_split(e, 0, x1, le::le32(h.scenario_id as int));
    le::lemma_le32(e, 5, h.scenario_id as int);
    le::lemma_block_split(e, 0, x0, seq![blob::FORMAT_VERSION]);
    le::lemma_block_byte(e, 4, seq![blob::FORMAT_VERSION], 0);
    le::lemma_block_bounds(e, 0, x0);
    assert(e.take(4) =~= e.subrange(0, 4));
}

/// A hand list that stands at `p` is the one that is read there.
proof fn lemma_hands(e: Seq<u8>, p: int, hands: Seq<u16>)
    requires
        le::block(e, p, blob::hands_bytes(hands)),
        hands.len() <= 0xFFFF,
    ensures
        blob::read_hands(e, p) == Ok::<Seq<u16>, Error>(hands),
        blob::hands_bytes(hands).len() == 2 + 2 * hands.len(),
{
    let f = blob::combo_bytes();
    le::lemma_block_split(e, p, le::le16(hands.len() as int), le::flat(hands, f));
    le::lemma_le16(e, p, hands.len() as int);
    le::lemma_flat_len(hands, f, 2);
    let read = blob::read_hands(e, p)->Ok_0;
    assert forall|i: int| 0 <= i < hands.len() implies read[i] == hands[i] by {
        le::lemma_flat_item(e, p + 2, hands, f, 2, i);
        le::lemma_le16(e, p + 2 + 2 * i, hands[i] as int);
    }
    assert(read =~= hands);
}

/// The action list that stands at `p`.
pub proof fn lemma_actions(e: Seq<u8>, p: int, actions: Seq<BlobAction>)
    requires
        le::block(e, p, le::flat(actions, blob::action_bytes())),
    ensures
        forall|i: int|
            0 <= i < actions.len() ==> e[p + 5 * i] == (#[trigger] actions[i]).kind && blob::single_at(
                e,
                p + 5 * i + 1,
            ) == actions[i].amount,
{
    assert forall|i: int| 0 <= i < actions.len() implies e[p + 5 * i] == (
    #[trigger] actions[i]).kind && blob::single_at(e, p + 5 * i + 1) == actions[i].amount by {
        le::lemma_flat_item(e, p, actions, blob::action_bytes(), 5, i);
        let x = actions[i];
        le::lemma_block_split(e, p + 5 * i, seq![x.kind], le::le32(x.amount.bits as int));
        le::lemma_block_byte(e, p + 5 * i, seq![x.kind], 0);
        le::lemma_le32(e, p + 5 * i + 1, x.amount.bits as int);
    }
}

/// The child list that stands at `p`.
pub proof fn lemma_children(e: Seq<u8>, p: int, children: Seq<u32>)
    requires
        le::block(e, p, le::flat(children, blob::child_bytes())),
    ensures
        forall|i: int|
            0 <= i < children.len() ==> le::u32_at(e, p + 4 * i) == #[trigger] children[i],
{
    assert forall|i: int| 0 <= i < children.len() implies le::u32_at(e, p + 4 * i)
        == #[trigger] children[i] by {
        le::lemma_flat_item(e, p, children, blob::child_bytes(), 4, i);
        le::lemma_le32(e, p + 4 * i, children[i] as int);
    }
}

/// Where the parts of a record stand.
pub proof fn lemma_record_parts(e: Seq<u8>, p: int, n: NodeModel, strategy_at: int, ev_at: int)
    requires
        le::block(e, p, blob::record_bytes(n, strategy_at, ev_at)),
    ensures
        le::block(e, p, blob::record_start(n)),
        le::block(e, p + 8, le::flat(n.actions, blob::action_bytes())),
        le::block(e, p + 8 + 5 * n.actions.len(), le::flat(n.children, blob::child_bytes())),
        le::block(
            e,
            p + 8 + 5 * n.actions.len() + 4 * n.children.len(),
            blob::record_end(n, strategy_at, ev_at),
        ),
        0 <= p,
        p + 36 + 5 * n.actions.len() + 4 * n.children.len() <= e.len(),
{
    let start = blob::record_start(n);
    let actions = le::flat(n.actions, blob::action_bytes());
    let children = le::flat(n.children, blob::child_bytes());
    let end = blob::record_end(n, strategy_at, ev_at);
    le::lemma_flat_len(n.actions, blob::action_bytes(), 5);
    le::lemma_flat_len(n.children, blob::child_bytes(), 4);
    le::lemma_block_split(e, p, start + actions + children, end);
    le::lemma_block_split(e, p, start + actions, children);
    le::lemma_block_split(e, p, start, actions);
}

/// A record that stands at `p` is the one that is read there.
proof fn lemma_record(e: Seq<u8>, p: int, n: NodeModel, strategy_at: int, ev_at: int)
    requires
        le::block(e, p, blob::record_bytes(n, strategy_at, ev_at)),
        blob::node_fault(n) is None,
        0 <= blob::stored_offset(n.strategy.len(), strategy_at) <= u64::MAX,
        0 <= blob::stored_offset(n.ev.len(), ev_at) <= u64::MAX,
    ensures
        blob::read_record(e, p) == Ok::<RecordModel, Error>(stripped(n, strategy_at, ev_at)),
{
    let a = n.actions.len() as int;
    let c = n.children.len() as int;
    lemma_record_parts(e, p, n, strategy_at, ev_at);
    lemma_record_start(e, p, n);
    lemma_record_end(e, p + 8 + 5 * a + 4 * c, n, strategy_at, ev_at);
    lemma_actions(e, p + 8, n.actions);
    lemma_children(e, p + 8 + 5 * a, n.children);
    let read = blob::read_record(e, p)->Ok_0.node;
    assert(read.actions =~= n.actions);
    assert(read.children =~= n.children);
}

pub proof fn lemma_record_start(e: Seq<u8>, p: int, n: NodeModel)
    requires
        le::block(e, p, blob::record_start(n)),
        n.actions.len() <= 255,
    ensures
        le::u32_at(e, p) == n.id,
        e[p + 4] == n.kind,
        e[p + 5] == n.player,
        e[p + 6] == n.actions.len(),
        e[p + 7] == n.flags,
{
    let tail = seq![n.kind, n.player, n.actions.len() as u8, n.flags];
    le::lemma_block_split(e, p, le::le32(n.id as int), tail);
    le::lemma_le32(e, p, n.id as int);
    le::lemma_block_byte(e, p + 4, tail, 0);
    le::lemma_block_byte(e, p + 4, tail, 1);
    le::lemma_block_byte(e, p + 4, tail, 2);
    le::lemma_block_byte(e, p + 4, tail, 3);
}

pub proof fn lemma_record_end(e: Seq<u8>, q: int, n: NodeModel, strategy_at: int, ev_at: int)
    requires
        le::block(e, q, blob::record_end(n, strategy_at, ev_at)),
        0 <= blob::stored_offset(n.strategy.len(), strategy_at) <= u64::MAX,
        0 <= blob::stored_offset(n.ev.len(), ev_at) <= u64::MAX,
    ensures
        blob::single_at(e, q) == n.invest.0,
        blob::single_at(e, q + 4) == n.invest.1,
        le::u64_at(e, q + 8) == blob::stored_offset(n.strategy.len(), strategy_at),
        le::u64_at(e, q + 16) == blob::stored_offset(n.ev.len(), ev_at),
        blob::single_at(e, q + 24) == n.ev_scale,
{
    let y0 = le::le32(n.invest.0.bits as int);
    let y1 = y0 + le::le32(n.invest.1.bits as int);
    let s = blob::stored_offset(n.strategy.len(), strategy_at);
    let v = blob::stored_offset(n.ev.len(), ev_at);
    let y2 = y1 + le::le64(s);
    let y3 = y2 + le::le64(v);
    le::lemma_block_split(e, q, y3, le::le32(n.ev_scale.bits as int));
    le::lemma_le32(e, q + 24, n.ev_scale.bits as int);
    le::lemma_block_split(e, q, y2, le::le64(v));
    le::lemma_le64(e, q + 16, v);
    le::lemma_block_split(e, q, y1, le::le64(s));
    le::lemma_le64(e, q + 8, s);
    le::lemma_block_split(e, q, y0, le::le32(n.invest.1.bits as int));
    le::lemma_le32(e, q + 4, n.invest.1.bits as int);
    le::lemma_le32(e, q, n.invest.0.bits as int);
}

proof fn lemma_records_size(nodes: Seq<NodeModel>, s0: int, e0: int, k: int)
    ensures
        blob::records_bytes(nodes, s0, e0, k).len() == blob::records_len(nodes, k),
    decreases k,
{
    if k > 0 {
        lemma_records_size(nodes, s0, e0, k - 1);
        law_record_size(
            nodes[k - 1],
            s0 + blob::strategies_len(nodes, k - 1),
            e0 + blob::evs_len(nodes, k - 1),
        );
    }
}

proof fn lemma_strategies_size(nodes: Seq<NodeModel>, k: int)
    ensures
        blob::strategies_bytes(nodes, k).len() == blob::strategies_len(nodes, k),
    decreases k,
{
    if k > 0 {
        lemma_strategies_size(nodes, k - 1);
    }
}

proof fn lemma_evs_size(nodes: Seq<NodeModel>, k: int)
    ensures
        blob::evs_bytes(nodes, k).len() == blob::evs_len(nodes, k),
    decreases k,
{
    if k > 0 {
        lemma_evs_size(nodes, k - 1);
        le::lemma_flat_len(nodes[k - 1].ev, blob::ev_bytes(), 2);
    }
}

/// Where each strategy array stands.
pub proof fn lemma_strategy_block(e: Seq<u8>, p: int, nodes: Seq<NodeModel>, j: int, k: int)
    requires
        0 <= j < k,
        le::block(e, p, blob::strategies_bytes(nodes, k)),
    ensures
        le::block(e, p + blob::strategies_len(nodes, j), nodes[j].strategy),
    decreases k,
{
    lemma_strategies_size(nodes, k - 1);
    le::lemma_block_split(e, p, blob::strategies_bytes(nodes, k - 1), nodes[k - 1].strategy);
    if j < k - 1 {
        lemma_strategy_block(e, p, nodes, j, k - 1);
    }
}

/// Where each EV array stands.
pub proof fn lemma_ev_block(e: Seq<u8>, p: int, nodes: Seq<NodeModel>, j: int, k: int)
    requires
        0 <= j < k,
        le::block(e, p, blob::evs_bytes(nodes, k)),
    ensures
        le::block(e, p + blob::evs_len(nodes, j), le::flat(nodes[j].ev, blob::ev_bytes())),
    decreases k,
{
    lemma_evs_size(nodes, k - 1);
    le::lemma_block_split(
        e,
        p,
        blob::evs_bytes(nodes, k - 1),
        le::flat(nodes[k - 1].ev, blob::ev_bytes()),
    );
    if j < k - 1 {
        lemma_ev_block(e, p, nodes, j, k - 1);
    }
}

/// No node from `k` on is at fault where the first fault from there is none.
pub proof fn lemma_no_fault(nodes: Seq<NodeModel>, k: int, i: int)
    requires
        blob::first_fault(nodes, k) is None,
        0 <= k <= i < nodes.len(),
    ensures
        blob::node_fault(nodes[i]) is None,
    decreases i - k,
{
    if k < i {
        lemma_no_fault(nodes, k + 1, i);
    }
}

/// The first `k` records of a blob, as a reader finds them.
spec fn stripped_all(b: BlobModel, k: int) -> Seq<RecordModel> {
    Seq::new(
        k as nat,
        |i: int|
            stripped(
                b.nodes[i],
                blob::strategy_start(b) + blob::strategies_len(b.nodes, i),
                blob::ev_start(b) + blob::evs_len(b.nodes, i),
            ),
    )
}

/// Where the parts of an encoding stand.
pub proof fn lemma_parts(b: BlobModel)
    requires
        storable(b),
    ensures
        ({
            let e = blob::encode(b);
            let n = b.nodes.len() as int;
            let r0 = blob::head_bytes(b).len() as int;
            let s0 = blob::strategy_start(b);
            let e0 = blob::ev_start(b);
            &&& le::block(e, 0, blob::head_bytes(b))
            &&& le::block(e, r0, blob::records_bytes(b.nodes, s0, e0, n))
            &&& le::block(e, s0, blob::strategies_bytes(b.nodes, n))
            &&& le::block(e, e0, blob::evs_bytes(b.nodes, n))
            &&& e.len() == blob::encoded_len(b)
            &&& e.len() <= u64::MAX
        }),
{
    let e = blob::encode(b);
    let n = b.nodes.len() as int;
    let head = blob::head_bytes(b);
    let s0 = blob::strategy_start(b);
    let e0 = blob::ev_start(b);
    let records = blob::records_bytes(b.nodes, s0, e0, n);
    let strategies = blob::strategies_bytes(b.nodes, n);
    let evs = blob::evs_bytes(b.nodes, n);
    lemma_records_size(b.nodes, s0, e0, n);
    lemma_strategies_size(b.nodes, n);
    lemma_evs_size(b.nodes, n);
    le::lemma_block_whole(e);
    le::lemma_block_split(e, 0, head + records + strategies, evs);
    le::lemma_block_split(e, 0, head + records, strategies);
    le::lemma_block_split(e, 0, head, records);
}

/// The arrays of node `j` lie inside the encoding, below the mark for an absent one.
pub proof fn lemma_offsets(b: BlobModel, j: int)
    requires
        storable(b),
        0 <= j < b.nodes.len(),
    ensures
        ({
            let n = b.nodes[j];
            let s = blob::strategy_start(b) + blob::strategies_len(b.nodes, j);
            let v = blob::ev_start(b) + blob::evs_len(b.nodes, j);
            &&& 0 <= s
            &&& s + n.strategy.len() <= blob::encoded_len(b)
            &&& 0 <= v
            &&& v + 2 * n.ev.len() <= blob::encoded_len(b)
            &&& 0 <= blob::stored_offset(n.strategy.len(), s) <= u64::MAX
            &&& 0 <= blob::stored_offset(n.ev.len(), v) <= u64::MAX
            &&& n.strategy.len() > 0 ==> s < OFFSET_NONE
            &&& n.ev.len() > 0 ==> v < OFFSET_NONE
        }),
{
    let n = b.nodes.len() as int;
    lemma_parts(b);
    blob::lemma_lens_grow(b.nodes, j + 1, n);
    blob::lemma_lens_grow(b.nodes, j, n);
    blob::lemma_lens_grow(b.nodes, 0, n);
}

/// The first `k` records of an encoding are read as they were written.
proof fn lemma_read_records(b: BlobModel, k: int)
    requires
        storable(b),
        0 <= k <= b.nodes.len(),
    ensures
        blob::read_records(blob::encode(b), blob::head_bytes(b).len() as int, k) == Ok::<
            (Seq<RecordModel>, int),
            Error,
        >((stripped_all(b, k), blob::head_bytes(b).len() + blob::records_len(b.nodes, k))),
    decreases k,
{
    let e = blob::encode(b);
    let r0 = blob::head_bytes(b).len() as int;
    let s0 = blob::strategy_start(b);
    let e0 = blob::ev_start(b);
    if k == 0 {
        assert(stripped_all(b, 0) =~= Seq::empty());
    } else {
        lemma_read_records(b, k - 1);
        lemma_parts(b);
        lemma_record_block(e, r0, b.nodes, s0, e0, k - 1, b.nodes.len() as int);
        lemma_no_fault(b.nodes, 0, k - 1);
        lemma_offsets(b, k - 1);
        lemma_record(
            e,
            r0 + blob::records_len(b.nodes, k - 1),
            b.nodes[k - 1],
            s0 + blob::strategies_len(b.nodes, k - 1),
            e0 + blob::evs_len(b.nodes, k - 1),
        );
        let last = stripped(
            b.nodes[k - 1],
            s0 + blob::strategies_len(b.nodes, k - 1),
            e0 + blob::evs_len(b.nodes, k - 1),
        );
        assert(stripped_all(b, k) =~= stripped_all(b, k - 1).push(last));
    }
}

/// Where each record stands.
pub proof fn lemma_record_block(e: Seq<u8>, p: int, nodes: Seq<NodeModel>, s0: int, e0: int, j: int, k: int)
    requires
        0 <= j < k,
        le::block(e, p, blob::records_bytes(nodes, s0, e0, k)),
    ensures
        le::block(
            e,
            p + blob::records_len(nodes, j),
            blob::record_bytes(
                nodes[j],
                s0 + blob::strategies_len(nodes, j),
                e0 + blob::evs_len(nodes, j),
            ),
        ),
    decreases k,
{
    lemma_records_size(nodes, s0, e0, k - 1);
    le::lemma_block_split(
        e,
        p,
        blob::records_bytes(nodes, s0, e0, k - 1),
        blob::record_bytes(
            nodes[k - 1],
            s0 + blob::strategies_len(nodes, k - 1),
            e0 + blob::evs_len(nodes, k - 1),
        ),
    );
    if j < k - 1 {
        lemma_record_block(e, p, nodes, s0, e0, j, k - 1);
    }
}

/// The arrays of node `j` are read as they were written.
proof fn lemma_read_arrays(b: BlobModel, j: int)
    requires
        storable(b),
        0 <= j < b.nodes.len(),
    ensures
        blob::read_arrays(
            blob::encode(b),
            stripped(
                b.nodes[j],
                blob::strategy_start(b) + blob::strategies_len(b.nodes, j),
                blob::ev_start(b) + blob::evs_len(b.nodes, j),
            ),
            b.oop.len(),
            b.ip.len(),
        ) == Ok::<NodeModel, Error>(b.nodes[j]),
{
    let e = blob::encode(b);
    let n = b.nodes[j];
    let s = blob::strategy_start(b) + blob::strategies_len(b.nodes, j);
    let v = blob::ev_start(b) + blob::evs_len(b.nodes, j);
    lemma_parts(b);
    lemma_offsets(b, j);
    assert(arrays_fit(n, b.oop.len(), b.ip.len()));
    lemma_strategy_block(e, blob::strategy_start(b), b.nodes, j, b.nodes.len() as int);
    lemma_ev_block(e, blob::ev_start(b), b.nodes, j, b.nodes.len() as int);
    le::lemma_block_bounds(e, s, n.strategy);
    let read = blob::read_arrays(e, stripped(n, s, v), b.oop.len(), b.ip.len())->Ok_0;
    assert(read.strategy =~= n.strategy);
    assert(read.ev =~= n.ev) by {
        if n.ev.len() > 0 {
            assert forall|i: int| 0 <= i < n.ev.len() implies read.ev[i] == n.ev[i] by {
                le::lemma_flat_item(e, v, n.ev, blob::ev_bytes(), 2, i);
                le::lemma_le16(e, v + 2 * i, le::unsigned16(n.ev[i] as int));
            }
        }
    }
}

proof fn lemma_read_nodes(b: BlobModel, records: Seq<RecordModel>, k: int)
    requires
        storable(b),
        records == stripped_all(b, b.nodes.len() as int),
        0 <= k <= b.nodes.len(),
    ensures
        blob::read_nodes(blob::encode(b), records, b.oop.len(), b.ip.len(), k) == Ok::<
            Seq<NodeModel>,
            Error,
        >(b.nodes.take(k)),
    decreases k,
{
    if k == 0 {
        assert(b.nodes.take(0) =~= Seq::empty());
    } else {
        lemma_read_nodes(b, records, k - 1);
        lemma_read_arrays(b, k - 1);
        assert(b.nodes.take(k) =~= b.nodes.take(k - 1).push(b.nodes[k - 1]));
    }
}

/// Reading gives back what was written.
pub proof fn law_round_trip(b: BlobModel)
    requires
        storable(b),
    ensures
        blob::decode(blob::encode(b)) == Ok::<BlobModel, Error>(b),
{
    let e = blob::encode(b);
    let h = b.header;
    let header = blob::header_bytes(h);
    let oop = blob::hands_bytes(b.oop);
    let ip = blob::hands_bytes(b.ip);
    let n = b.nodes.len() as int;
    lemma_parts(b);
    law_header_size(h);
    le::lemma_block_split(e, 0, header + oop + ip, le::le32(n % 0x1_0000_0000));
    le::lemma_block_split(e, 0, header + oop, ip);
    le::lemma_block_split(e, 0, header, oop);
    lemma_header(e, h);
    let p = header.len() as int;
    lemma_hands(e, p, b.oop);
    let q = p + oop.len();
    lemma_hands(e, q, b.ip);
    let t = q + ip.len();
    le::lemma_le32(e, t, n);
    lemma_read_records(b, n);
    lemma_read_nodes(b, stripped_all(b, n), n);
    assert(b.nodes.take(n) =~= b.nodes);
    assert(blob::head_bytes(b).len() == t + 4);
}

/// Two different blobs have different encodings.
pub proof fn law_encoding_is_injective(a: BlobModel, b: BlobModel)
    requires
        storable(a),
        storable(b),
        blob::encode(a) == blob::encode(b),
    ensures
        a == b,
{
    law_round_trip(a);
    law_round_trip(b);
}

/// Numbers that lie inside the first `m` bytes are the same there.
proof fn lemma_prefix_numbers(e: Seq<u8>, m: int, p: int)
    requires
        0 <= m <= e.len(),
        0 <= p,
    ensures
        p + 2 <= m ==> le::u16_at(e.take(m), p) == le::u16_at(e, p),
        p + 4 <= m ==> le::u32_at(e.take(m), p) == le::u32_at(e, p),
        p + 8 <= m ==> le::u64_at(e.take(m), p) == le::u64_at(e, p),
{
    reveal(le::u16_at);
    reveal(le::u32_at);
    reveal(le::u64_at);
}

proof fn lemma_prefix_header(e: Seq<u8>, m: int)
    requires
        0 <= m <= e.len(),
        blob::read_header(e.take(m)) is Ok,
    ensures
        blob::read_header(e) == blob::read_header(e.take(m)),
        39 + blob::read_header(e)->Ok_0.board.len() <= m,
{
    let c = e.take(m);
    let n = c[13] as int;
    assert(c.take(4) =~= e.take(4));
    lemma_prefix_numbers(e, m, 5);
    lemma_prefix_numbers(e, m, 9);
    lemma_prefix_numbers(e, m, 11);
    lemma_prefix_numbers(e, m, 15 + n);
    lemma_prefix_numbers(e, m, 19 + n);
    lemma_prefix_numbers(e, m, 23 + n);
    lemma_prefix_numbers(e, m, 27 + n);
    lemma_prefix_numbers(e, m, 31 + n);
    lemma_prefix_numbers(e, m, 35 + n);
    assert(c.subrange(14, 14 + n) =~= e.subrange(14, 14 + n));
}

proof fn lemma_prefix_hands(e: Seq<u8>, m: int, p: int)
    requires
        0 <= m <= e.len(),
        0 <= p,
        blob::read_hands(e.take(m), p) is Ok,
    ensures
        blob::read_hands(e, p) == blob::read_hands(e.take(m), p),
        p + 2 + 2 * blob::read_hands(e, p)->Ok_0.len() <= m,
{
    let c = e.take(m);
    lemma_prefix_numbers(e, m, p);
    let whole = blob::read_hands(e, p)->Ok_0;
    let cut = blob::read_hands(c, p)->Ok_0;
    assert forall|i: int| 0 <= i < cut.len() implies whole[i] == cut[i] by {
        lemma_prefix_numbers(e, m, p + 2 + 2 * i);
    }
    assert(whole =~= cut);
}

proof fn lemma_prefix_record(e: Seq<u8>, m: int, p: int)
    requires
        0 <= m <= e.len(),
        0 <= p,
        blob::read_record(e.take(m), p) is Ok,
    ensures
        blob::read_record(e, p) == blob::read_record(e.take(m), p),
        p + blob::record_size(blob::read_record(e, p)->Ok_0.node) <= m,
{
    let c = e.take(m);
    let n = e[p + 6] as nat;
    let k = blob::child_slots(e[p + 4], n);
    let q = p + 8 + 5 * n + 4 * k;
    lemma_prefix_numbers(e, m, p);
    lemma_prefix_numbers(e, m, q);
    lemma_prefix_numbers(e, m, q + 4);
    lemma_prefix_numbers(e, m, q + 8);
    lemma_prefix_numbers(e, m, q + 16);
    lemma_prefix_numbers(e, m, q + 24);
    let whole = blob::read_record(e, p)->Ok_0.node;
    let cut = blob::read_record(c, p)->Ok_0.node;
    assert forall|i: int| 0 <= i < n implies whole.actions[i] == cut.actions[i] by {
        lemma_prefix_numbers(e, m, p + 9 + 5 * i);
    }
    assert(whole.actions =~= cut.actions);
    assert forall|i: int| 0 <= i < k implies whole.children[i] == cut.children[i] by {
        lemma_prefix_numbers(e, m, p + 8 + 5 * n + 4 * i);
    }
    assert(whole.children =~= cut.children);
}

proof fn lemma_prefix_records(e: Seq<u8>, m: int, p: int, k: int)
    requires
        0 <= m <= e.len(),
        0 <= p <= m,
        blob::read_records(e.take(m), p, k) is Ok,
    ensures
        blob::read_records(e, p, k) == blob::read_records(e.take(m), p, k),
        p <= blob::read_records(e, p, k)->Ok_0.1 <= m,
    decreases k,
{
    if k > 0 {
        lemma_prefix_records(e, m, p, k - 1);
        lemma_prefix_record(e, m, blob::read_records(e, p, k - 1)->Ok_0.1);
    }
}

proof fn lemma_prefix_arrays(e: Seq<u8>, m: int, r: RecordModel, oop: nat, ip: nat)
    requires
        0 <= m <= e.len(),
        blob::read_arrays(e.take(m), r, oop, ip) is Ok,
    ensures
        blob::read_arrays(e, r, oop, ip) == blob::read_arrays(e.take(m), r, oop, ip),
{
    let c = e.take(m);
    let whole = blob::read_arrays(e, r, oop, ip)->Ok_0;
    let cut = blob::read_arrays(c, r, oop, ip)->Ok_0;
    assert(whole.strategy =~= cut.strategy);
    assert forall|i: int| 0 <= i < cut.ev.len() implies whole.ev[i] == cut.ev[i] by {
        lemma_prefix_numbers(e, m, r.ev_offset + 2 * i);
    }
    assert(whole.ev =~= cut.ev);
}

proof fn lemma_prefix_nodes(e: Seq<u8>, m: int, records: Seq<RecordModel>, oop: nat, ip: nat, k: int)
    requires
        0 <= m <= e.len(),
        blob::read_nodes(e.take(m), records, oop, ip, k) is Ok,
    ensures
        blob::read_nodes(e, records, oop, ip, k) == blob::read_nodes(e.take(m), records, oop, ip, k),
    decreases k,
{
    if k > 0 {
        lemma_prefix_nodes(e, m, records, oop, ip, k - 1);
        lemma_prefix_arrays(e, m, records[k - 1], oop, ip);
    }
}

/// Bytes that come after a whole blob change nothing.
pub proof fn law_trailing_bytes_are_ignored(e: Seq<u8>, m: int)
    requires
        0 <= m <= e.len(),
        blob::decode(e.take(m)) is Ok,
    ensures
        blob::decode(e) == blob::decode(e.take(m)),
{
    let c = e.take(m);
    lemma_prefix_header(e, m);
    let p = 39 + blob::read_header(e)->Ok_0.board.len();
    lemma_prefix_hands(e, m, p as int);
    let oop = blob::read_hands(e, p as int)->Ok_0.len();
    let q = p + 2 + 2 * oop;
    lemma_prefix_hands(e, m, q as int);
    let ip = blob::read_hands(e, q as int)->Ok_0.len();
    let t = (q + 2 + 2 * ip) as int;
    lemma_prefix_numbers(e, m, t);
    let count = le::u32_at(e, t);
    lemma_prefix_records(e, m, t + 4, count);
    let records = blob::read_records(e, t + 4, count)->Ok_0.0;
    lemma_prefix_nodes(e, m, records, oop, ip, records.len() as int);
}

proof fn lemma_nodes_in_reach(e: Seq<u8>, records: Seq<RecordModel>, oop: nat, ip: nat, k: int, j: int)
    requires
        blob::read_nodes(e, records, oop, ip, k) is Ok,
        0 <= j < k,
    ensures
        blob::read_arrays(e, records[j], oop, ip) is Ok,
    decreases k,
{
    if j < k - 1 {
        lemma_nodes_in_reach(e, records, oop, ip, k - 1, j);
    }
}

/// Where every array of the first `k` nodes ends by `m`, so do the arrays together.
proof fn lemma_arrays_end(b: BlobModel, m: int, k: int)
    requires
        0 <= k <= b.nodes.len(),
        blob::strategy_start(b) <= m,
        forall|j: int|
            0 <= j < k && (#[trigger] b.nodes[j]).strategy.len() > 0 ==> blob::strategy_start(b)
                + blob::strategies_len(b.nodes, j) + b.nodes[j].strategy.len() <= m,
    ensures
        blob::strategy_start(b) + blob::strategies_len(b.nodes, k) <= m,
    decreases k,
{
    if k > 0 {
        lemma_arrays_end(b, m, k - 1);
        assert(b.nodes[k - 1] == b.nodes[k - 1]);
    }
}

proof fn lemma_evs_end(b: BlobModel, m: int, k: int)
    requires
        0 <= k <= b.nodes.len(),
        blob::ev_start(b) <= m,
        forall|j: int|
            0 <= j < k && (#[trigger] b.nodes[j]).ev.len() > 0 ==> blob::ev_start(b)
                + blob::evs_len(b.nodes, j) + 2 * b.nodes[j].ev.len() <= m,
    ensures
        blob::ev_start(b) + blob::evs_len(b.nodes, k) <= m,
    decreases k,
{
    if k > 0 {
        lemma_evs_end(b, m, k - 1);
        assert(b.nodes[k - 1] == b.nodes[k - 1]);
    }
}

/// A blob that lost any number of bytes at its end is refused.
pub proof fn law_cut_blobs_are_refused(b: BlobModel, m: int)
    requires
        storable(b),
        0 <= m < blob::encode(b).len(),
    ensures
        blob::decode(blob::encode(b).take(m)) is Err,
{
    let e = blob::encode(b);
    let c = e.take(m);
    let n = b.nodes.len() as int;
    if blob::decode(c) is Ok {
        lemma_parts(b);
        law_round_trip(b);
        law_trailing_bytes_are_ignored(e, m);
        lemma_prefix_header(e, m);
        let p = (39 + b.header.board.len()) as int;
        lemma_prefix_hands(e, m, p);
        let q = (p + 2 + 2 * b.oop.len()) as int;
        lemma_prefix_hands(e, m, q);
        let t = (q + 2 + 2 * b.ip.len()) as int;
        lemma_prefix_numbers(e, m, t);
        lemma_tree_start(b);
        lemma_prefix_records(e, m, t + 4, n);
        lemma_read_records(b, n);
        let records = stripped_all(b, n);
        assert forall|j: int| 0 <= j < n implies {
            &&& (#[trigger] b.nodes[j]).strategy.len() > 0 ==> blob::strategy_start(b)
                + blob::strategies_len(b.nodes, j) + b.nodes[j].strategy.len() <= m
            &&& b.nodes[j].ev.len() > 0 ==> blob::ev_start(b) + blob::evs_len(b.nodes, j) + 2
                * b.nodes[j].ev.len() <= m
        } by {
            lemma_nodes_in_reach(c, records, b.oop.len(), b.ip.len(), n, j);
            lemma_offsets(b, j);
            assert(arrays_fit(b.nodes[j], b.oop.len(), b.ip.len()));
        }
        lemma_arrays_end(b, m, n);
        lemma_evs_end(b, m, n);
    }
}

/// Where the node count of an encoding stands.
proof fn lemma_tree_start(b: BlobModel)
    requires
        storable(b),
    ensures
        blob::head_bytes(b).len() == 39 + b.header.board.len() + 2 + 2 * b.oop.len() + 2 + 2
            * b.ip.len() + 4,
        le::u32_at(blob::encode(b), blob::head_bytes(b).len() - 4) == b.nodes.len(),
{
    let n = b.nodes.len() as int;
    lemma_parts(b);
    le::lemma_flat_len(b.oop, blob::combo_bytes(), 2);
    le::lemma_flat_len(b.ip, blob::combo_bytes(), 2);
    let front = blob::header_bytes(b.header) + blob::hands_bytes(b.oop) + blob::hands_bytes(b.ip);
    le::lemma_block_split(blob::encode(b), 0, front, le::le32(n % 0x1_0000_0000));
    le::lemma_le32(blob::encode(b), front.len() as int, n);
}

/// What is read of a node has the child slots that its kind asks for, no more actions than the
/// format has, and arrays that fit.
pub open spec fn node_fits(n: NodeModel, oop: nat, ip: nat) -> bool {
    &&& n.children.len() == blob::child_slots(n.kind, n.actions.len())
    &&& n.actions.len() <= 255
    &&& arrays_fit(n, oop, ip)
}

proof fn lemma_records_fit(e: Seq<u8>, p: int, k: int, j: int)
    requires
        0 <= j < k,
        blob::read_records(e, p, k) is Ok,
    ensures
        blob::read_records(e, p, k)->Ok_0.0.len() == k,
        ({
            let n = blob::read_records(e, p, k)->Ok_0.0[j].node;
            &&& n.children.len() == blob::child_slots(n.kind, n.actions.len())
            &&& n.actions.len() <= 255
            &&& n.strategy.len() == 0
            &&& n.ev.len() == 0
        }),
    decreases k,
{
    if j < k - 1 {
        lemma_records_fit(e, p, k - 1, j);
    } else if k > 1 {
        lemma_records_fit(e, p, k - 1, 0);
    }
}

proof fn lemma_nodes_fit(e: Seq<u8>, records: Seq<RecordModel>, oop: nat, ip: nat, k: int, j: int)
    requires
        0 <= j < k <= records.len(),
        blob::read_nodes(e, records, oop, ip, k) is Ok,
        records[j].node.children.len() == blob::child_slots(
            records[j].node.kind,
            records[j].node.actions.len(),
        ),
        records[j].node.actions.len() <= 255,
    ensures
        blob::read_nodes(e, records, oop, ip, k)->Ok_0.len() == k,
        node_fits(blob::read_nodes(e, records, oop, ip, k)->Ok_0[j], oop, ip),
    decreases k,
{
    lemma_nodes_len(e, records, oop, ip, k);
    lemma_nodes_len(e, records, oop, ip, k - 1);
    if j < k - 1 {
        lemma_nodes_fit(e, records, oop, ip, k - 1, j);
    }
}

proof fn lemma_nodes_len(e: Seq<u8>, records: Seq<RecordModel>, oop: nat, ip: nat, k: int)
    requires
        0 <= k,
        blob::read_nodes(e, records, oop, ip, k) is Ok,
    ensures
        blob::read_nodes(e, records, oop, ip, k)->Ok_0.len() == k,
    decreases k,
{
    if k > 0 {
        lemma_nodes_len(e, records, oop, ip, k - 1);
    }
}

proof fn lemma_records_len(e: Seq<u8>, p: int, k: int)
    requires
        0 <= k,
        blob::read_records(e, p, k) is Ok,
    ensures
        blob::read_records(e, p, k)->Ok_0.0.len() == k,
    decreases k,
{
    if k > 0 {
        lemma_records_len(e, p, k - 1);
    }
}

proof fn lemma_faultless(nodes: Seq<NodeModel>, oop: nat, ip: nat, k: int)
    requires
        0 <= k,
        forall|j: int| 0 <= j < nodes.len() ==> node_fits(#[trigger] nodes[j], oop, ip),
    ensures
        blob::first_fault(nodes, k) is None,
    decreases nodes.len() - k,
{
    if k < nodes.len() {
        assert(node_fits(nodes[k], oop, ip));
        lemma_faultless(nodes, oop, ip, k + 1);
    }
}

/// Whatever is read is whole: its board has three to five cards, every node has the child slots
/// and arrays that its kind, actions and player ask for, and it can be written and read again,
/// unless it is larger than memory.
pub proof fn law_read_blobs_are_whole(e: Seq<u8>)
    requires
        blob::decode(e) is Ok,
    ensures
        ({
            let b = blob::decode(e)->Ok_0;
            &&& 3 <= b.header.board.len() <= 5
            &&& forall|j: int|
                0 <= j < b.nodes.len() ==> node_fits(#[trigger] b.nodes[j], b.oop.len(), b.ip.len())
            &&& blob::write_fault(b) == (if blob::encoded_len(b) > usize::MAX {
                Some(Error::TooLarge)
            } else {
                None
            })
            &&& blob::write_fault(b) is None ==> blob::decode(blob::encode(b)) == Ok::<BlobModel, Error>(
                b,
            )
        }),
{
    let b = blob::decode(e)->Ok_0;
    let oop = b.oop.len();
    let ip = b.ip.len();
    let p = (39 + b.header.board.len() + 2 + 2 * oop + 2 + 2 * ip) as int;
    let count = le::u32_at(e, p);
    let records = blob::read_records(e, p + 4, count)->Ok_0.0;
    lemma_records_len(e, p + 4, count);
    lemma_nodes_len(e, records, oop, ip, records.len() as int);
    assert(b.nodes == blob::read_nodes(e, records, oop, ip, records.len() as int)->Ok_0);
    assert forall|j: int| 0 <= j < b.nodes.len() implies node_fits(#[trigger] b.nodes[j], oop, ip) by {
        lemma_records_fit(e, p + 4, count, j);
        lemma_nodes_fit(e, records, oop, ip, records.len() as int, j);
    }
    lemma_faultless(b.nodes, oop, ip, 0);
    assert(oop <= 0xFFFF && ip <= 0xFFFF);
    if blob::write_fault(b) is None {
        assert forall|j: int| 0 <= j < b.nodes.len() implies arrays_fit(#[trigger] b.nodes[j], oop, ip) by {
            assert(node_fits(b.nodes[j], oop, ip));
        }
        law_round_trip(b);
    }
}

} // verus!
