//! Where everything stands in the bytes of a blob. A reader needs nothing else.

use vstd::prelude::*;

use crate::blob;
use crate::blob::{BlobModel, HeaderModel, NodeModel};
use crate::blob_laws;
use crate::le;

verus! {

broadcast use {le::group_widths, le::group_ranges};

/// The number whose two bytes stand at `p`, least significant first.
pub open spec fn two_at(e: Seq<u8>, p: int) -> int {
    e[p] + 256 * e[p + 1]
}

/// The number whose four bytes stand at `p`, least significant first.
pub open spec fn four_at(e: Seq<u8>, p: int) -> int {
    e[p] + 256 * e[p + 1] + 65536 * e[p + 2] + 16777216 * e[p + 3]
}

/// The number whose eight bytes stand at `p`, least significant first.
pub open spec fn eight_at(e: Seq<u8>, p: int) -> int {
    four_at(e, p) + 4294967296 * four_at(e, p + 4)
}

proof fn lemma_numbers(e: Seq<u8>, p: int)
    ensures
        two_at(e, p) == le::u16_at(e, p),
        four_at(e, p) == le::u32_at(e, p),
        eight_at(e, p) == le::u64_at(e, p),
{
    reveal(le::u16_at);
    reveal(le::u32_at);
    reveal(le::u64_at);
}

/// The header: a mark and a version, ids, the board with its length and street, then pot, stack,
/// rake, exploitability and iterations.
pub open spec fn is_header(e: Seq<u8>, h: HeaderModel) -> bool {
    let n = h.board.len() as int;
    &&& e[0] == 0x47 && e[1] == 0x54 && e[2] == 0x4F && e[3] == 0x42
    &&& e[4] == 0
    &&& four_at(e, 5) == h.scenario_id
    &&& two_at(e, 9) == h.template_id
    &&& two_at(e, 11) == h.solver_version
    &&& e[13] == n
    &&& forall|i: int| 0 <= i < n ==> #[trigger] e[14 + i] == h.board[i]
    &&& e[14 + n] == h.street
    &&& four_at(e, 15 + n) == h.starting_pot.bits
    &&& four_at(e, 19 + n) == h.effective_stack.bits
    &&& four_at(e, 23 + n) == h.rake_percent.bits
    &&& four_at(e, 27 + n) == h.rake_cap.bits
    &&& four_at(e, 31 + n) == h.exploitability_pct.bits
    &&& four_at(e, 35 + n) == h.iterations
}

proof fn lemma_header(e: Seq<u8>, h: HeaderModel)
    requires
        le::block(e, 0, blob::header_bytes(h)),
        3 <= h.board.len() <= 5,
    ensures
        is_header(e, h),
{
    let n = h.board.len() as int;
    let x0 = blob::MAGIC@;
    let x1 = x0 + seq![blob::FORMAT_VERSION];
    let x2 = x1 + le::le32(h.scenario_id as int);
    let x3 = x2 + le::le16(h.template_id as int);
    let x4 = x3 + le::le16(h.solver_version as int);
    let x5 = x4 + seq![h.board.len() as u8];
    let x6 = x5 + h.board;
    let x7 = x6 + seq![h.street];
    let x8 = x7 + le::le32(h.starting_pot.bits as int);
    let x9 = x8 + le::le32(h.effective_stack.bits as int);
    let x10 = x9 + le::le32(h.rake_percent.bits as int);
    let x11 = x10 + le::le32(h.rake_cap.bits as int);
    let x12 = x11 + le::le32(h.exploitability_pct.bits as int);
    le::lemma_block_split(e, 0, x12, le::le32(h.iterations as int));
    le::lemma_le32(e, 35 + n, h.iterations as int);
    lemma_numbers(e, 35 + n);
    le::lemma_block_split(e, 0, x11, le::le32(h.exploitability_pct.bits as int));
    le::lemma_le32(e, 31 + n, h.exploitability_pct.bits as int);
    lemma_numbers(e, 31 + n);
    le::lemma_block_split(e, 0, x10, le::le32(h.rake_cap.bits as int));
    le::lemma_le32(e, 27 + n, h.rake_cap.bits as int);
    lemma_numbers(e, 27 + n);
    le::lemma_block_split(e, 0, x9, le::le32(h.rake_percent.bits as int));
    le::lemma_le32(e, 23 + n, h.rake_percent.bits as int);
    lemma_numbers(e, 23 + n);
    le::lemma_block_split(e, 0, x8, le::le32(h.effective_stack.bits as int));
    le::lemma_le32(e, 19 + n, h.effective_stack.bits as int);
    lemma_numbers(e, 19 + n);
    le::lemma_block_split(e, 0, x7, le::le32(h.starting_pot.bits as int));
    le::lemma_le32(e, 15 + n, h.starting_pot.bits as int);
    lemma_numbers(e, 15 + n);
    le::lemma_block_split(e, 0, x6, seq![h.street]);
    le::lemma_block_byte(e, 14 + n, seq![h.street], 0);
    le::lemma_block_split(e, 0, x5, h.board);
    assert forall|i: int| 0 <= i < n implies #[trigger] e[14 + i] == h.board[i] by {
        le::lemma_block_byte(e, 14, h.board, i);
    }
    le::lemma_block_split(e, 0, x4, seq![h.board.len() as u8]);
    le::lemma_block_byte(e, 13, seq![h.board.len() as u8], 0);
    le::lemma_block_split(e, 0, x3, le::le16(h.solver_version as int));
    le::lemma_le16(e, 11, h.solver_version as int);
    lemma_numbers(e, 11);
    le::lemma_block_split(e, 0, x2, le::le16(h.template_id as int));
    le::lemma_le16(e, 9, h.template_id as int);
    lemma_numbers(e, 9);
    le::lemma_block_split(e, 0, x1, le::le32(h.scenario_id as int));
    le::lemma_le32(e, 5, h.scenario_id as int);
    lemma_numbers(e, 5);
    le::lemma_block_split(e, 0, x0, seq![blob::FORMAT_VERSION]);
    le::lemma_block_byte(e, 4, seq![blob::FORMAT_VERSION], 0);
    le::lemma_block_byte(e, 0, x0, 0);
    le::lemma_block_byte(e, 0, x0, 1);
    le::lemma_block_byte(e, 0, x0, 2);
    le::lemma_block_byte(e, 0, x0, 3);
}

/// A list of hands from `p` on: how many there are, then their combos.
pub open spec fn is_hand_list(e: Seq<u8>, p: int, hands: Seq<u16>) -> bool {
    &&& two_at(e, p) == hands.len()
    &&& forall|i: int| 0 <= i < hands.len() ==> two_at(e, p + 2 + 2 * i) == #[trigger] hands[i]
}

proof fn lemma_hand_list(e: Seq<u8>, p: int, hands: Seq<u16>)
    requires
        le::block(e, p, blob::hands_bytes(hands)),
        hands.len() <= 0xFFFF,
    ensures
        is_hand_list(e, p, hands),
        blob::hands_bytes(hands).len() == 2 + 2 * hands.len(),
{
    let f = blob::combo_bytes();
    le::lemma_block_split(e, p, le::le16(hands.len() as int), le::flat(hands, f));
    le::lemma_le16(e, p, hands.len() as int);
    lemma_numbers(e, p);
    le::lemma_flat_len(hands, f, 2);
    assert forall|i: int| 0 <= i < hands.len() implies two_at(e, p + 2 + 2 * i) == #[trigger] hands[i] by {
        le::lemma_flat_item(e, p + 2, hands, f, 2, i);
        le::lemma_le16(e, p + 2 + 2 * i, hands[i] as int);
        lemma_numbers(e, p + 2 + 2 * i);
    }
}

/// Where the record of node `k` starts: after the header, the hand lists and the number of nodes,
/// and after the records before it, each of 36 bytes, five for each action and four for each child
/// slot.
pub open spec fn record_place(b: BlobModel, k: int) -> int
    decreases k,
{
    if k <= 0 {
        (47 + b.header.board.len() + 2 * b.oop.len() + 2 * b.ip.len()) as int
    } else {
        record_place(b, k - 1) + 36 + 5 * b.nodes[k - 1].actions.len() + 4
            * b.nodes[k - 1].children.len()
    }
}

proof fn lemma_record_place(b: BlobModel, k: int)
    requires
        k >= 0,
    ensures
        record_place(b, k) == record_place(b, 0) + blob::records_len(b.nodes, k),
    decreases k,
{
    if k > 0 {
        lemma_record_place(b, k - 1);
    }
}

/// A node's record from `p` on: number, kind, player, number of actions and flags; the actions, each
/// a kind and an amount; the child slots; what the players have put in; and where the strategy and
/// the EVs stand, all bits set where there is none, and the EVs' scale. There stand as many bytes of
/// strategy and pairs of bytes of EVs as the node has.
pub open spec fn is_record(e: Seq<u8>, p: int, n: NodeModel) -> bool {
    let a = n.actions.len() as int;
    let c = n.children.len() as int;
    let t = p + 8 + 5 * a + 4 * c;
    &&& four_at(e, p) == n.id
    &&& e[p + 4] == n.kind
    &&& e[p + 5] == n.player
    &&& e[p + 6] == a
    &&& e[p + 7] == n.flags
    &&& forall|i: int|
        0 <= i < a ==> e[p + 8 + 5 * i] == (#[trigger] n.actions[i]).kind && four_at(
            e,
            p + 9 + 5 * i,
        ) == n.actions[i].amount.bits
    &&& forall|i: int|
        0 <= i < c ==> four_at(e, p + 8 + 5 * a + 4 * i) == #[trigger] n.children[i]
    &&& four_at(e, t) == n.invest.0.bits
    &&& four_at(e, t + 4) == n.invest.1.bits
    &&& if n.strategy.len() == 0 {
        eight_at(e, t + 8) == 0xFFFF_FFFF_FFFF_FFFF
    } else {
        let s = eight_at(e, t + 8);
        s + n.strategy.len() <= e.len() && forall|i: int|
            0 <= i < n.strategy.len() ==> e[s + i] == #[trigger] n.strategy[i]
    }
    &&& if n.ev.len() == 0 {
        eight_at(e, t + 16) == 0xFFFF_FFFF_FFFF_FFFF
    } else {
        let v = eight_at(e, t + 16);
        v + 2 * n.ev.len() <= e.len() && forall|i: int|
            0 <= i < n.ev.len() ==> two_at(e, v + 2 * i) == (if (#[trigger] n.ev[i]) < 0 {
                n.ev[i] + 65536
            } else {
                n.ev[i] as int
            })
    }
    &&& four_at(e, t + 24) == n.ev_scale.bits
}

/// A blob's bytes are the header, the list of the out-of-position player's hands, that of the
/// other's, the number of nodes, and the records one after the other; strategies and EVs stand where
/// the records say.
pub proof fn law_layout(b: BlobModel)
    requires
        blob_laws::storable(b),
    ensures
        ({
            let e = blob::encode(b);
            let h = 39 + b.header.board.len() as int;
            &&& is_header(e, b.header)
            &&& is_hand_list(e, h, b.oop)
            &&& is_hand_list(e, h + 2 + 2 * b.oop.len(), b.ip)
            &&& four_at(e, h + 4 + 2 * b.oop.len() + 2 * b.ip.len()) == b.nodes.len()
            &&& forall|k: int|
                0 <= k < b.nodes.len() ==> is_record(e, record_place(b, k), #[trigger] b.nodes[k])
        }),
{
    let e = blob::encode(b);
    let h = 39 + b.header.board.len() as int;
    blob_laws::lemma_parts(b);
    let x1 = blob::header_bytes(b.header);
    let x2 = x1 + blob::hands_bytes(b.oop);
    let x3 = x2 + blob::hands_bytes(b.ip);
    let count = le::le32(b.nodes.len() as int % 0x1_0000_0000);
    blob_laws::law_header_size(b.header);
    le::lemma_block_split(e, 0, x3, count);
    le::lemma_block_split(e, 0, x2, blob::hands_bytes(b.ip));
    le::lemma_block_split(e, 0, x1, blob::hands_bytes(b.oop));
    lemma_header(e, b.header);
    lemma_hand_list(e, h, b.oop);
    lemma_hand_list(e, h + 2 + 2 * b.oop.len(), b.ip);
    let p = h + 4 + 2 * b.oop.len() + 2 * b.ip.len();
    le::lemma_le32(e, p, b.nodes.len() as int);
    lemma_numbers(e, p);
    assert(blob::head_bytes(b).len() == record_place(b, 0));
    assert forall|k: int| 0 <= k < b.nodes.len() implies is_record(
        e,
        record_place(b, k),
        #[trigger] b.nodes[k],
    ) by {
        lemma_record(b, k);
    }
}

proof fn lemma_record(b: BlobModel, k: int)
    requires
        blob_laws::storable(b),
        0 <= k < b.nodes.len(),
        blob::head_bytes(b).len() == record_place(b, 0),
    ensures
        is_record(blob::encode(b), record_place(b, k), b.nodes[k]),
{
    let e = blob::encode(b);
    let n = b.nodes[k];
    let all = b.nodes.len() as int;
    let s0 = blob::strategy_start(b);
    let e0 = blob::ev_start(b);
    let s = s0 + blob::strategies_len(b.nodes, k);
    let v = e0 + blob::evs_len(b.nodes, k);
    let r0 = blob::head_bytes(b).len() as int;
    let p = record_place(b, k);
    let a = n.actions.len() as int;
    let c = n.children.len() as int;
    let t = p + 8 + 5 * a + 4 * c;
    blob_laws::lemma_parts(b);
    blob_laws::lemma_offsets(b, k);
    blob_laws::lemma_no_fault(b.nodes, 0, k);
    lemma_record_place(b, k);
    blob_laws::lemma_record_block(e, r0, b.nodes, s0, e0, k, all);
    blob_laws::lemma_record_parts(e, p, n, s, v);
    blob_laws::lemma_record_start(e, p, n);
    blob_laws::lemma_record_end(e, t, n, s, v);
    blob_laws::lemma_actions(e, p + 8, n.actions);
    blob_laws::lemma_children(e, p + 8 + 5 * a, n.children);
    lemma_numbers(e, p);
    lemma_numbers(e, t);
    lemma_numbers(e, t + 4);
    lemma_numbers(e, t + 8);
    lemma_numbers(e, t + 16);
    lemma_numbers(e, t + 24);
    assert forall|i: int| 0 <= i < a implies e[p + 8 + 5 * i] == (#[trigger] n.actions[i]).kind
        && four_at(e, p + 9 + 5 * i) == n.actions[i].amount.bits by {
        lemma_numbers(e, p + 9 + 5 * i);
        assert(blob::single_at(e, p + 8 + 5 * i + 1) == n.actions[i].amount);
    }
    assert forall|i: int| 0 <= i < c implies four_at(e, p + 8 + 5 * a + 4 * i)
        == #[trigger] n.children[i] by {
        lemma_numbers(e, p + 8 + 5 * a + 4 * i);
    }
    blob_laws::lemma_strategy_block(e, s0, b.nodes, k, all);
    blob_laws::lemma_ev_block(e, e0, b.nodes, k, all);
    assert forall|i: int| 0 <= i < n.strategy.len() implies e[s + i] == #[trigger] n.strategy[i] by {
        le::lemma_block_byte(e, s, n.strategy, i);
    }
    assert forall|i: int| 0 <= i < n.ev.len() implies two_at(e, v + 2 * i) == (if (
    #[trigger] n.ev[i]) < 0 {
        n.ev[i] + 65536
    } else {
        n.ev[i] as int
    }) by {
        le::lemma_flat_item(e, v, n.ev, blob::ev_bytes(), 2, i);
        le::lemma_le16(e, v + 2 * i, le::unsigned16(n.ev[i] as int));
        lemma_numbers(e, v + 2 * i);
    }
}

} // verus!
