//! The solution blob: one street of a solved game tree as a file.
//!
//! All numbers are little-endian. A blob is a header, the two players' hand lists, the node
//! records, then the strategy bytes of all nodes and the EV numbers of all nodes. Amounts and
//! EVs are binary32 numbers in big blinds; the library carries them as bit patterns.

use vstd::prelude::*;

use crate::error::Error;
use crate::ieee::Single;
use crate::le;

pub use crate::ev::{dequantize_ev, quantize_ev};
pub use crate::strategy::{dequantize_strategy, quantize_strategy};

verus! {

broadcast use {le::group_widths, le::group_ranges};

/// "GTOB", the first four bytes of every blob.
pub const MAGIC: [u8; 4] = [0x47, 0x54, 0x4F, 0x42];

/// The format version that is written and read here.
pub const FORMAT_VERSION: u8 = 0;

/// Child slot of a card that cannot come.
pub const CHILD_IMPOSSIBLE: u32 = 0xFFFF_FFFF;

/// Child slot of a card that can come, but whose subtree is not in this distribution.
pub const CHILD_NOT_STORED: u32 = 0xFFFF_FFFE;

/// The offset of an array that is not there.
pub const OFFSET_NONE: u64 = 0xFFFF_FFFF_FFFF_FFFF;

pub const KIND_PLAYER: u8 = 0;

pub const KIND_CHANCE: u8 = 1;

pub const KIND_TERMINAL: u8 = 2;

pub const FLAG_PRUNED: u8 = 1;

pub const FLAG_HAS_EV: u8 = 2;

pub const FLAG_LOCKED: u8 = 4;

/// The player of a chance or terminal node.
pub const PLAYER_NONE: u8 = 255;

pub const ACTION_FOLD: u8 = 0;

pub const ACTION_CHECK: u8 = 1;

pub const ACTION_CALL: u8 = 2;

pub const ACTION_BET: u8 = 3;

pub const ACTION_RAISE: u8 = 4;

pub const ACTION_ALLIN: u8 = 5;

/// Child slots of a chance node: one for each card of the deck.
pub const CHANCE_CHILDREN: usize = 52;

/// What a blob says of the solve that it comes from.
#[derive(Debug, Clone, PartialEq, Eq)]
pub struct BlobHeader {
    pub scenario_id: u32,
    pub template_id: u16,
    pub solver_version: u16,
    pub board: Vec<u8>,
    /// 0 for the flop, 1 for the turn, 2 for the river.
    pub street: u8,
    pub starting_pot: Single,
    pub effective_stack: Single,
    pub rake_percent: Single,
    pub rake_cap: Single,
    pub exploitability_pct: Single,
    pub iterations: u32,
}

/// One action of a player node.
#[derive(Debug, Clone, Copy, PartialEq, Eq, Structural)]
pub struct BlobAction {
    pub kind: u8,
    /// What the player has put in on this street after the action, in big blinds.
    pub amount: Single,
}

/// One node of the tree.
#[derive(Debug, Clone, PartialEq, Eq)]
pub struct BlobNode {
    pub id: u32,
    pub kind: u8,
    pub player: u8,
    pub flags: u8,
    pub actions: Vec<BlobAction>,
    pub children: Vec<u32>,
    /// What each player has put in so far, out-of-position player first.
    pub invest: [Single; 2],
    /// For every action but the last, the weight of each hand; empty where there is none.
    pub strategy: Vec<u8>,
    /// For every action, the scaled EV of each hand; empty where there is none.
    pub ev: Vec<i16>,
    pub ev_scale: Single,
}

/// One street of a solved game tree.
#[derive(Debug, Clone, PartialEq, Eq)]
pub struct Blob {
    pub header: BlobHeader,
    /// The players' hands as combo indices, out-of-position player first.
    pub hands: [Vec<u16>; 2],
    pub nodes: Vec<BlobNode>,
}

/// The contents of a [`BlobHeader`].
pub struct HeaderModel {
    pub scenario_id: u32,
    pub template_id: u16,
    pub solver_version: u16,
    pub board: Seq<u8>,
    pub street: u8,
    pub starting_pot: Single,
    pub effective_stack: Single,
    pub rake_percent: Single,
    pub rake_cap: Single,
    pub exploitability_pct: Single,
    pub iterations: u32,
}

/// The contents of a [`BlobNode`].
pub struct NodeModel {
    pub id: u32,
    pub kind: u8,
    pub player: u8,
    pub flags: u8,
    pub actions: Seq<BlobAction>,
    pub children: Seq<u32>,
    pub invest: (Single, Single),
    pub strategy: Seq<u8>,
    pub ev: Seq<i16>,
    pub ev_scale: Single,
}

/// The contents of a [`Blob`].
pub struct BlobModel {
    pub header: HeaderModel,
    pub oop: Seq<u16>,
    pub ip: Seq<u16>,
    pub nodes: Seq<NodeModel>,
}

impl View for BlobHeader {
    type V = HeaderModel;

    open spec fn view(&self) -> HeaderModel {
        HeaderModel {
            scenario_id: self.scenario_id,
            template_id: self.template_id,
            solver_version: self.solver_version,
            board: self.board@,
            street: self.street,
            starting_pot: self.starting_pot,
            effective_stack: self.effective_stack,
            rake_percent: self.rake_percent,
            rake_cap: self.rake_cap,
            exploitability_pct: self.exploitability_pct,
            iterations: self.iterations,
        }
    }
}

impl View for BlobNode {
    type V = NodeModel;

    open spec fn view(&self) -> NodeModel {
        NodeModel {
            id: self.id,
            kind: self.kind,
            player: self.player,
            flags: self.flags,
            actions: self.actions@,
            children: self.children@,
            invest: (self.invest@[0], self.invest@[1]),
            strategy: self.strategy@,
            ev: self.ev@,
            ev_scale: self.ev_scale,
        }
    }
}

/// The contents of a list of nodes.
pub open spec fn node_models(nodes: Seq<BlobNode>) -> Seq<NodeModel> {
    Seq::new(nodes.len(), |i: int| nodes[i]@)
}

impl View for Blob {
    type V = BlobModel;

    open spec fn view(&self) -> BlobModel {
        BlobModel {
            header: self.header@,
            oop: self.hands@[0]@,
            ip: self.hands@[1]@,
            nodes: node_models(self.nodes@),
        }
    }
}

/// The number of child slots of a node.
pub open spec fn child_slots(kind: u8, n_actions: nat) -> nat {
    if kind == KIND_CHANCE {
        CHANCE_CHILDREN as nat
    } else if kind == KIND_TERMINAL {
        0
    } else {
        n_actions
    }
}

// ---------------------------------------------------------------------------------------------
// What the bytes of a blob are.
// ---------------------------------------------------------------------------------------------

pub open spec fn combo_bytes() -> spec_fn(u16) -> Seq<u8> {
    |c: u16| le::le16(c as int)
}

pub open spec fn action_bytes() -> spec_fn(BlobAction) -> Seq<u8> {
    |a: BlobAction| seq![a.kind] + le::le32(a.amount.bits as int)
}

pub open spec fn child_bytes() -> spec_fn(u32) -> Seq<u8> {
    |c: u32| le::le32(c as int)
}

pub open spec fn ev_bytes() -> spec_fn(i16) -> Seq<u8> {
    |v: i16| le::le16(le::unsigned16(v as int))
}

/// The header: `39 + board.len()` bytes.
pub open spec fn header_bytes(h: HeaderModel) -> Seq<u8> {
    MAGIC@ + seq![FORMAT_VERSION] + le::le32(h.scenario_id as int) + le::le16(h.template_id as int) + le::le16(
        h.solver_version as int,
    ) + seq![h.board.len() as u8] + h.board + seq![h.street] + le::le32(h.starting_pot.bits as int)
        + le::le32(h.effective_stack.bits as int) + le::le32(h.rake_percent.bits as int) + le::le32(
        h.rake_cap.bits as int,
    ) + le::le32(h.exploitability_pct.bits as int) + le::le32(h.iterations as int)
}

/// A hand list: its length, then its combos.
pub open spec fn hands_bytes(hands: Seq<u16>) -> Seq<u8> {
    le::le16(hands.len() as int) + le::flat(hands, combo_bytes())
}

/// All that stands before the node records.
pub open spec fn head_bytes(b: BlobModel) -> Seq<u8> {
    header_bytes(b.header) + hands_bytes(b.oop) + hands_bytes(b.ip) + le::le32(
        b.nodes.len() as int % 0x1_0000_0000,
    )
}

/// The offset that is written for an array of `len` items at `at`.
pub open spec fn stored_offset(len: nat, at: int) -> int {
    if len == 0 {
        OFFSET_NONE as int
    } else {
        at
    }
}

/// The fixed part that a node's record starts with: eight bytes.
pub open spec fn record_start(n: NodeModel) -> Seq<u8> {
    le::le32(n.id as int) + seq![n.kind, n.player, n.actions.len() as u8, n.flags]
}

/// The fixed part that a node's record ends with: twenty-eight bytes.
pub open spec fn record_end(n: NodeModel, strategy_at: int, ev_at: int) -> Seq<u8> {
    le::le32(n.invest.0.bits as int) + le::le32(n.invest.1.bits as int) + le::le64(
        stored_offset(n.strategy.len(), strategy_at),
    ) + le::le64(stored_offset(n.ev.len(), ev_at)) + le::le32(n.ev_scale.bits as int)
}

/// The record of a node whose strategy array stands at `strategy_at` and its EV array at `ev_at`.
pub open spec fn record_bytes(n: NodeModel, strategy_at: int, ev_at: int) -> Seq<u8> {
    record_start(n) + le::flat(n.actions, action_bytes()) + le::flat(n.children, child_bytes())
        + record_end(n, strategy_at, ev_at)
}

/// The length of a node's record.
pub open spec fn record_size(n: NodeModel) -> int {
    (36 + 5 * n.actions.len() + 4 * n.children.len()) as int
}

/// The length of the first `k` records.
pub open spec fn records_len(nodes: Seq<NodeModel>, k: int) -> int
    decreases k,
{
    if k <= 0 {
        0
    } else {
        records_len(nodes, k - 1) + record_size(nodes[k - 1])
    }
}

/// The length of the first `k` strategy arrays.
pub open spec fn strategies_len(nodes: Seq<NodeModel>, k: int) -> int
    decreases k,
{
    if k <= 0 {
        0
    } else {
        strategies_len(nodes, k - 1) + nodes[k - 1].strategy.len()
    }
}

/// The length of the first `k` EV arrays.
pub open spec fn evs_len(nodes: Seq<NodeModel>, k: int) -> int
    decreases k,
{
    if k <= 0 {
        0
    } else {
        evs_len(nodes, k - 1) + 2 * nodes[k - 1].ev.len()
    }
}

/// The first `k` records, where the strategy arrays start at `s0` and the EV arrays at `e0`.
pub open spec fn records_bytes(nodes: Seq<NodeModel>, s0: int, e0: int, k: int) -> Seq<u8>
    decreases k,
{
    if k <= 0 {
        Seq::empty()
    } else {
        records_bytes(nodes, s0, e0, k - 1) + record_bytes(
            nodes[k - 1],
            s0 + strategies_len(nodes, k - 1),
            e0 + evs_len(nodes, k - 1),
        )
    }
}

/// The first `k` strategy arrays.
pub open spec fn strategies_bytes(nodes: Seq<NodeModel>, k: int) -> Seq<u8>
    decreases k,
{
    if k <= 0 {
        Seq::empty()
    } else {
        strategies_bytes(nodes, k - 1) + nodes[k - 1].strategy
    }
}

/// The first `k` EV arrays.
pub open spec fn evs_bytes(nodes: Seq<NodeModel>, k: int) -> Seq<u8>
    decreases k,
{
    if k <= 0 {
        Seq::empty()
    } else {
        evs_bytes(nodes, k - 1) + le::flat(nodes[k - 1].ev, ev_bytes())
    }
}

/// Where the strategy arrays start.
pub open spec fn strategy_start(b: BlobModel) -> int {
    head_bytes(b).len() + records_len(b.nodes, b.nodes.len() as int)
}

/// Where the EV arrays start.
pub open spec fn ev_start(b: BlobModel) -> int {
    strategy_start(b) + strategies_len(b.nodes, b.nodes.len() as int)
}

/// The length of the encoding.
pub open spec fn encoded_len(b: BlobModel) -> int {
    ev_start(b) + evs_len(b.nodes, b.nodes.len() as int)
}

/// The encoding of a blob.
pub open spec fn encode(b: BlobModel) -> Seq<u8> {
    let n = b.nodes.len() as int;
    head_bytes(b) + records_bytes(b.nodes, strategy_start(b), ev_start(b), n) + strategies_bytes(
        b.nodes,
        n,
    ) + evs_bytes(b.nodes, n)
}

/// What is wrong with a node that is to be written, if anything is.
pub open spec fn node_fault(n: NodeModel) -> Option<Error> {
    let expected = child_slots(n.kind, n.actions.len());
    if n.children.len() != expected {
        Some(
            Error::ChildCount {
                node: n.id,
                found: n.children.len() as usize,
                expected: expected as usize,
            },
        )
    } else if n.actions.len() > 255 {
        Some(Error::TooManyActions(n.id))
    } else {
        None
    }
}

/// What is wrong with the first node from `k` on with which anything is.
pub open spec fn first_fault(nodes: Seq<NodeModel>, k: int) -> Option<Error>
    decreases nodes.len() - k,
{
    if k < 0 || k >= nodes.len() {
        None
    } else if node_fault(nodes[k]) is Some {
        node_fault(nodes[k])
    } else {
        first_fault(nodes, k + 1)
    }
}

/// Why a blob cannot be written, if it cannot.
pub open spec fn write_fault(b: BlobModel) -> Option<Error> {
    if b.header.board.len() < 3 || b.header.board.len() > 5 {
        Some(Error::BoardLength(b.header.board.len() as usize))
    } else if first_fault(b.nodes, 0) is Some {
        first_fault(b.nodes, 0)
    } else if b.oop.len() > 0xFFFF || b.ip.len() > 0xFFFF {
        Some(Error::TooManyHands)
    } else if encoded_len(b) > usize::MAX {
        Some(Error::TooLarge)
    } else {
        None
    }
}

impl BlobNode {
    /// The number of child slots of a node of this kind with this many actions.
    pub fn expected_children(kind: u8, n_actions: usize) -> (n: usize)
        ensures
            n == child_slots(kind, n_actions as nat),
    {
        if kind == KIND_CHANCE {
            CHANCE_CHILDREN
        } else if kind == KIND_TERMINAL {
            0
        } else {
            n_actions
        }
    }
}

/// The lengths of more nodes are no less.
pub proof fn lemma_lens_grow(nodes: Seq<NodeModel>, j: int, k: int)
    requires
        j <= k,
    ensures
        0 <= records_len(nodes, j) <= records_len(nodes, k),
        0 <= strategies_len(nodes, j) <= strategies_len(nodes, k),
        0 <= evs_len(nodes, j) <= evs_len(nodes, k),
    decreases k,
{
    if k > 0 {
        if j < k {
            lemma_lens_grow(nodes, j, k - 1);
        } else {
            lemma_lens_grow(nodes, j - 1, k - 1);
        }
    }
}

fn append(out: &mut Vec<u8>, more: &[u8])
    ensures
        final(out)@ == old(out)@ + more@,
{
    out.extend_from_slice(more);
    assert(out@ =~= old(out)@ + more@);
}

impl BlobHeader {
    fn write(&self, out: &mut Vec<u8>)
        requires
            self@.board.len() <= 255,
        ensures
            final(out)@ == old(out)@ + header_bytes(self@),
    {
        append(out, MAGIC.as_slice());
        out.push(FORMAT_VERSION);
        le::push_u32(out, self.scenario_id);
        le::push_u16(out, self.template_id);
        le::push_u16(out, self.solver_version);
        out.push(self.board.len() as u8);
        append(out, self.board.as_slice());
        out.push(self.street);
        le::push_u32(out, self.starting_pot.bits);
        le::push_u32(out, self.effective_stack.bits);
        le::push_u32(out, self.rake_percent.bits);
        le::push_u32(out, self.rake_cap.bits);
        le::push_u32(out, self.exploitability_pct.bits);
        le::push_u32(out, self.iterations);
        assert(out@ =~= old(out)@ + header_bytes(self@));
    }
}

fn write_hands(hands: &Vec<u16>, out: &mut Vec<u8>)
    requires
        hands@.len() <= 0xFFFF,
    ensures
        final(out)@ == old(out)@ + hands_bytes(hands@),
{
    le::push_u16(out, hands.len() as u16);
    let ghost start = out@;
    for i in 0..hands.len()
        invariant
            out@ == start + le::flat(hands@.take(i as int), combo_bytes()),
    {
        le::push_u16(out, hands[i]);
        assert(hands@.take(i + 1).drop_last() =~= hands@.take(i as int));
        assert(out@ =~= start + le::flat(hands@.take(i + 1), combo_bytes()));
    }
    assert(hands@.take(hands@.len() as int) =~= hands@);
    assert(out@ =~= old(out)@ + hands_bytes(hands@));
}

impl BlobNode {
    fn write_start(&self, out: &mut Vec<u8>)
        requires
            self@.actions.len() <= 255,
        ensures
            final(out)@ == old(out)@ + record_start(self@),
    {
        le::push_u32(out, self.id);
        out.push(self.kind);
        out.push(self.player);
        out.push(self.actions.len() as u8);
        out.push(self.flags);
        assert(out@ =~= old(out)@ + record_start(self@));
    }

    fn write_actions(&self, out: &mut Vec<u8>)
        ensures
            final(out)@ == old(out)@ + le::flat(self@.actions, action_bytes()),
    {
        for i in 0..self.actions.len()
            invariant
                out@ == old(out)@ + le::flat(self.actions@.take(i as int), action_bytes()),
        {
            let action: BlobAction = self.actions[i];
            out.push(action.kind);
            le::push_u32(out, action.amount.bits);
            assert(self.actions@.take(i + 1).drop_last() =~= self.actions@.take(i as int));
            assert(out@ =~= old(out)@ + le::flat(self.actions@.take(i + 1), action_bytes()));
        }
        assert(self.actions@.take(self.actions@.len() as int) =~= self.actions@);
    }

    fn write_children(&self, out: &mut Vec<u8>)
        ensures
            final(out)@ == old(out)@ + le::flat(self@.children, child_bytes()),
    {
        for i in 0..self.children.len()
            invariant
                out@ == old(out)@ + le::flat(self.children@.take(i as int), child_bytes()),
        {
            le::push_u32(out, self.children[i]);
            assert(self.children@.take(i + 1).drop_last() =~= self.children@.take(i as int));
            assert(out@ =~= old(out)@ + le::flat(self.children@.take(i + 1), child_bytes()));
        }
        assert(self.children@.take(self.children@.len() as int) =~= self.children@);
    }

    fn write_end(&self, strategy_offset: u64, ev_offset: u64, out: &mut Vec<u8>)
        requires
            strategy_offset == stored_offset(self@.strategy.len(), strategy_offset as int),
            ev_offset == stored_offset(self@.ev.len(), ev_offset as int),
        ensures
            final(out)@ == old(out)@ + record_end(self@, strategy_offset as int, ev_offset as int),
    {
        le::push_u32(out, self.invest[0].bits);
        le::push_u32(out, self.invest[1].bits);
        le::push_u64(out, strategy_offset);
        le::push_u64(out, ev_offset);
        le::push_u32(out, self.ev_scale.bits);
        assert(out@ =~= old(out)@ + record_end(self@, strategy_offset as int, ev_offset as int));
    }

    fn write(&self, strategy_offset: u64, ev_offset: u64, out: &mut Vec<u8>)
        requires
            self@.actions.len() <= 255,
            strategy_offset == stored_offset(self@.strategy.len(), strategy_offset as int),
            ev_offset == stored_offset(self@.ev.len(), ev_offset as int),
        ensures
            final(out)@ == old(out)@ + record_bytes(self@, strategy_offset as int, ev_offset as int),
    {
        self.write_start(out);
        self.write_actions(out);
        self.write_children(out);
        self.write_end(strategy_offset, ev_offset, out);
        proof {
            let a = record_start(self@);
            let b = le::flat(self@.actions, action_bytes());
            let c = le::flat(self@.children, child_bytes());
            let d = record_end(self@, strategy_offset as int, ev_offset as int);
            le::lemma_concat(old(out)@, a, b);
            le::lemma_concat(old(out)@, a + b, c);
            le::lemma_concat(old(out)@, a + b + c, d);
        }
    }

    fn write_ev(&self, out: &mut Vec<u8>)
        ensures
            final(out)@ == old(out)@ + le::flat(self@.ev, ev_bytes()),
    {
        for i in 0..self.ev.len()
            invariant
                out@ == old(out)@ + le::flat(self.ev@.take(i as int), ev_bytes()),
        {
            le::push_i16(out, self.ev[i]);
            assert(self.ev@.take(i + 1).drop_last() =~= self.ev@.take(i as int));
            assert(out@ =~= old(out)@ + le::flat(self.ev@.take(i + 1), ev_bytes()));
        }
        assert(self.ev@.take(self.ev@.len() as int) =~= self.ev@);
    }
}

impl Blob {
    /// A blob with no nodes yet.
    pub fn new(header: BlobHeader, hands: [Vec<u16>; 2]) -> (blob: Blob)
        ensures
            blob@ == (BlobModel {
                header: header@,
                oop: hands@[0]@,
                ip: hands@[1]@,
                nodes: Seq::empty(),
            }),
    {
        let blob = Blob { header, hands, nodes: Vec::new() };
        assert(blob@.nodes =~= Seq::empty());
        blob
    }

    /// Whether every node can be written.
    fn check_nodes(&self) -> (r: Result<(), Error>)
        ensures
            match first_fault(self@.nodes, 0) {
                Some(e) => r == Err::<(), Error>(e),
                None => r is Ok && forall|i: int|
                    0 <= i < self@.nodes.len() ==> node_fault(#[trigger] self@.nodes[i]) is None,
            },
    {
        for i in 0..self.nodes.len()
            invariant
                first_fault(self@.nodes, 0) == first_fault(self@.nodes, i as int),
                forall|j: int| 0 <= j < i ==> node_fault(#[trigger] self@.nodes[j]) is None,
        {
            let node = &self.nodes[i];
            assert(self@.nodes[i as int] == node@);
            let expected: usize = BlobNode::expected_children(node.kind, node.actions.len());
            if node.children.len() != expected {
                return Err(
                    Error::ChildCount { node: node.id, found: node.children.len(), expected },
                );
            }
            if node.actions.len() > 255 {
                return Err(Error::TooManyActions(node.id));
            }
        }
        Ok(())
    }

    /// The lengths of all records, of all strategy arrays and of all EV arrays, where their sum
    /// with `head` fits.
    fn measure(&self, head: usize) -> (r: Option<(usize, usize, usize)>)
        requires
            forall|i: int| 0 <= i < self@.nodes.len() ==> node_fault(#[trigger] self@.nodes[i]) is None,
        ensures
            ({
                let n = self@.nodes.len() as int;
                let total = head + records_len(self@.nodes, n) + strategies_len(self@.nodes, n)
                    + evs_len(self@.nodes, n);
                match r {
                    Some((records, strategies, evs)) => {
                        &&& total <= usize::MAX
                        &&& records == records_len(self@.nodes, n)
                        &&& strategies == strategies_len(self@.nodes, n)
                        &&& evs == evs_len(self@.nodes, n)
                    },
                    None => total > usize::MAX,
                }
            }),
    {
        let ghost nodes = self@.nodes;
        let ghost n = nodes.len() as int;
        let mut records: usize = 0;
        let mut strategies: usize = 0;
        let mut evs: usize = 0;
        for i in 0..self.nodes.len()
            invariant
                nodes == self@.nodes,
                n == nodes.len(),
                n == self.nodes@.len(),
                forall|j: int| 0 <= j < n ==> node_fault(#[trigger] nodes[j]) is None,
                records == records_len(nodes, i as int),
                strategies == strategies_len(nodes, i as int),
                evs == evs_len(nodes, i as int),
        {
            let node = &self.nodes[i];
            proof {
                assert(nodes[i as int] == node@);
                assert(node_fault(nodes[i as int]) is None);
                lemma_lens_grow(nodes, i + 1, n);
                lemma_lens_grow(nodes, 0, n);
            }
            let size: usize = 36 + 5 * node.actions.len() + 4 * node.children.len();
            records = match records.checked_add(size) {
                Some(sum) => sum,
                None => return None,
            };
            strategies = match strategies.checked_add(node.strategy.len()) {
                Some(sum) => sum,
                None => return None,
            };
            let ev_size: usize = match node.ev.len().checked_mul(2) {
                Some(size) => size,
                None => return None,
            };
            evs = match evs.checked_add(ev_size) {
                Some(sum) => sum,
                None => return None,
            };
        }
        proof {
            lemma_lens_grow(nodes, 0, n);
        }
        let total: Option<usize> = head.checked_add(records);
        let total: Option<usize> = match total {
            Some(sum) => sum.checked_add(strategies),
            None => None,
        };
        let total: Option<usize> = match total {
            Some(sum) => sum.checked_add(evs),
            None => None,
        };
        match total {
            Some(_) => Some((records, strategies, evs)),
            None => None,
        }
    }

    /// The encoding of this blob.
    ///
    /// Refused are a board that does not hold three to five cards, a node whose child list does
    /// not have the length that its kind asks for, a node with more than 255 actions, a hand list
    /// of more than 65535 entries and an encoding that does not fit in the address space.
    pub fn to_bytes(&self) -> (r: Result<Vec<u8>, Error>)
        ensures
            match write_fault(self@) {
                Some(e) => r == Err::<Vec<u8>, Error>(e),
                None => r is Ok && r->Ok_0@ == encode(self@),
            },
    {
        if self.header.board.len() < 3 || self.header.board.len() > 5 {
            return Err(Error::BoardLength(self.header.board.len()));
        }
        match self.check_nodes() {
            Ok(()) => {},
            Err(e) => return Err(e),
        }
        if self.hands[0].len() > 0xFFFF || self.hands[1].len() > 0xFFFF {
            return Err(Error::TooManyHands);
        }
        let mut out: Vec<u8> = Vec::new();
        self.header.write(&mut out);
        write_hands(&self.hands[0], &mut out);
        write_hands(&self.hands[1], &mut out);
        le::push_u32(&mut out, (self.nodes.len() as u64 % 0x1_0000_0000) as u32);
        assert(out@ =~= head_bytes(self@));
        let (records, strategies, evs): (usize, usize, usize) = match self.measure(out.len()) {
            Some(lens) => lens,
            None => return Err(Error::TooLarge),
        };
        let ghost nodes = self@.nodes;
        let ghost n = nodes.len() as int;
        let strategies_at: usize = out.len() + records;
        let evs_at: usize = strategies_at + strategies;
        let mut strategy_cursor: u64 = strategies_at as u64;
        let mut ev_cursor: u64 = evs_at as u64;
        let ghost head = out@;
        for i in 0..self.nodes.len()
            invariant
                nodes == self@.nodes,
                n == nodes.len(),
                n == self.nodes@.len(),
                forall|j: int| 0 <= j < n ==> node_fault(#[trigger] nodes[j]) is None,
                strategies_at + strategies_len(nodes, n) == evs_at,
                evs_at + evs_len(nodes, n) <= usize::MAX,
                strategy_cursor == strategies_at + strategies_len(nodes, i as int),
                ev_cursor == evs_at + evs_len(nodes, i as int),
                out@ == head + records_bytes(nodes, strategies_at as int, evs_at as int, i as int),
        {
            let node = &self.nodes[i];
            proof {
                assert(nodes[i as int] == node@);
                assert(node_fault(nodes[i as int]) is None);
                lemma_lens_grow(nodes, i + 1, n);
                lemma_lens_grow(nodes, i as int, n);
            }
            let strategy_offset: u64 = if node.strategy.is_empty() {
                OFFSET_NONE
            } else {
                strategy_cursor
            };
            let ev_offset: u64 = if node.ev.is_empty() {
                OFFSET_NONE
            } else {
                ev_cursor
            };
            let ghost written = records_bytes(
                nodes,
                strategies_at as int,
                evs_at as int,
                i as int,
            );
            let ghost record = record_bytes(node@, strategy_cursor as int, ev_cursor as int);
            node.write(strategy_offset, ev_offset, &mut out);
            assert(out@ == head + written + record);
            proof {
                le::lemma_concat(head, written, record);
            }
            strategy_cursor = strategy_cursor + node.strategy.len() as u64;
            ev_cursor = ev_cursor + 2 * (node.ev.len() as u64);
        }
        let ghost before_strategies = out@;
        for i in 0..self.nodes.len()
            invariant
                nodes == self@.nodes,
                n == nodes.len(),
                n == self.nodes@.len(),
                out@ == before_strategies + strategies_bytes(nodes, i as int),
        {
            assert(nodes[i as int] == self.nodes@[i as int]@);
            append(&mut out, self.nodes[i].strategy.as_slice());
            assert(out@ =~= before_strategies + strategies_bytes(nodes, i + 1));
        }
        let ghost before_evs = out@;
        for i in 0..self.nodes.len()
            invariant
                nodes == self@.nodes,
                n == nodes.len(),
                n == self.nodes@.len(),
                out@ == before_evs + evs_bytes(nodes, i as int),
        {
            assert(nodes[i as int] == self.nodes@[i as int]@);
            self.nodes[i].write_ev(&mut out);
            assert(out@ =~= before_evs + evs_bytes(nodes, i + 1));
        }
        Ok(out)
    }
}

// ---------------------------------------------------------------------------------------------
// What bytes say of a blob.
// ---------------------------------------------------------------------------------------------

pub open spec fn single_at(b: Seq<u8>, p: int) -> Single {
    Single { bits: le::u32_at(b, p) as u32 }
}

/// The header that `b` starts with.
pub open spec fn read_header(b: Seq<u8>) -> Result<HeaderModel, Error> {
    if b.len() < 4 {
        Err(Error::Truncated)
    } else if b.take(4) != MAGIC@ {
        Err(Error::BadMagic)
    } else if b.len() < 5 {
        Err(Error::Truncated)
    } else if b[4] != FORMAT_VERSION {
        Err(Error::UnsupportedVersion(b[4]))
    } else if b.len() < 14 {
        Err(Error::Truncated)
    } else if b[13] < 3 || b[13] > 5 {
        Err(Error::BoardLength(b[13] as usize))
    } else if b.len() < 39 + b[13] {
        Err(Error::Truncated)
    } else {
        let n = b[13] as int;
        Ok(
            HeaderModel {
                scenario_id: le::u32_at(b, 5) as u32,
                template_id: le::u16_at(b, 9) as u16,
                solver_version: le::u16_at(b, 11) as u16,
                board: b.subrange(14, 14 + n),
                street: b[14 + n],
                starting_pot: single_at(b, 15 + n),
                effective_stack: single_at(b, 19 + n),
                rake_percent: single_at(b, 23 + n),
                rake_cap: single_at(b, 27 + n),
                exploitability_pct: single_at(b, 31 + n),
                iterations: le::u32_at(b, 35 + n) as u32,
            },
        )
    }
}

/// The hand list at `p`.
pub open spec fn read_hands(b: Seq<u8>, p: int) -> Result<Seq<u16>, Error> {
    if p + 2 > b.len() || p + 2 + 2 * le::u16_at(b, p) > b.len() {
        Err(Error::Truncated)
    } else {
        Ok(
            Seq::new(
                le::u16_at(b, p) as nat,
                |i: int| le::u16_at(b, p + 2 + 2 * i) as u16,
            ),
        )
    }
}

/// A node record as it stands: the node without its arrays, and where they are.
pub struct RecordModel {
    pub node: NodeModel,
    pub strategy_offset: u64,
    pub ev_offset: u64,
}

/// The node record at `p`.
pub open spec fn read_record(b: Seq<u8>, p: int) -> Result<RecordModel, Error> {
    let n = b[p + 6] as nat;
    let c = child_slots(b[p + 4], n);
    let q = p + 8 + 5 * n + 4 * c;
    if p + 8 > b.len() || p + 36 + 5 * n + 4 * c > b.len() {
        Err(Error::Truncated)
    } else {
        Ok(
            RecordModel {
                node: NodeModel {
                    id: le::u32_at(b, p) as u32,
                    kind: b[p + 4],
                    player: b[p + 5],
                    flags: b[p + 7],
                    actions: Seq::new(
                        n,
                        |i: int|
                            BlobAction {
                                kind: b[p + 8 + 5 * i],
                                amount: single_at(b, p + 9 + 5 * i),
                            },
                    ),
                    children: Seq::new(c, |i: int| le::u32_at(b, p + 8 + 5 * n + 4 * i) as u32),
                    invest: (single_at(b, q), single_at(b, q + 4)),
                    strategy: Seq::empty(),
                    ev: Seq::empty(),
                    ev_scale: single_at(b, q + 24),
                },
                strategy_offset: le::u64_at(b, q + 8) as u64,
                ev_offset: le::u64_at(b, q + 16) as u64,
            },
        )
    }
}

/// The first `k` of the records that start at `p`, and where they end.
pub open spec fn read_records(b: Seq<u8>, p: int, k: int) -> Result<(Seq<RecordModel>, int), Error>
    decreases k,
{
    if k <= 0 {
        Ok((Seq::empty(), p))
    } else {
        match read_records(b, p, k - 1) {
            Err(e) => Err(e),
            Ok((records, q)) => match read_record(b, q) {
                Err(e) => Err(e),
                Ok(r) => Ok((records.push(r), q + record_size(r.node))),
            },
        }
    }
}

/// The number of hands of a player, given those of the two.
pub open spec fn hands_of(player: u8, oop: nat, ip: nat) -> nat {
    if player == 0 {
        oop
    } else if player == 1 {
        ip
    } else {
        0
    }
}

/// The length of a stored strategy array: the last action is left out.
pub open spec fn strategy_len(n_actions: nat, hands: nat) -> nat {
    if n_actions == 0 {
        0
    } else {
        ((n_actions - 1) * hands) as nat
    }
}

/// A node with the arrays that its record points at.
pub open spec fn read_arrays(b: Seq<u8>, r: RecordModel, oop: nat, ip: nat) -> Result<NodeModel, Error> {
    let hands = hands_of(r.node.player, oop, ip);
    let s = strategy_len(r.node.actions.len(), hands);
    let v = r.node.actions.len() * hands;
    if r.strategy_offset != OFFSET_NONE && r.strategy_offset + s > b.len() {
        Err(Error::StrategyOutOfBlob)
    } else if r.ev_offset != OFFSET_NONE && r.ev_offset + 2 * v > b.len() {
        Err(Error::EvOutOfBlob)
    } else {
        Ok(
            NodeModel {
                strategy: if r.strategy_offset == OFFSET_NONE {
                    Seq::empty()
                } else {
                    b.subrange(r.strategy_offset as int, r.strategy_offset + s)
                },
                ev: if r.ev_offset == OFFSET_NONE {
                    Seq::empty()
                } else {
                    Seq::new(
                        v,
                        |i: int| le::signed16(le::u16_at(b, r.ev_offset + 2 * i)) as i16,
                    )
                },
                ..r.node
            },
        )
    }
}

/// The first `k` nodes with their arrays.
pub open spec fn read_nodes(b: Seq<u8>, records: Seq<RecordModel>, oop: nat, ip: nat, k: int) -> Result<
    Seq<NodeModel>,
    Error,
>
    decreases k,
{
    if k <= 0 {
        Ok(Seq::empty())
    } else {
        match read_nodes(b, records, oop, ip, k - 1) {
            Err(e) => Err(e),
            Ok(nodes) => match read_arrays(b, records[k - 1], oop, ip) {
                Err(e) => Err(e),
                Ok(n) => Ok(nodes.push(n)),
            },
        }
    }
}

/// The node list whose count stands at `p`.
pub open spec fn read_tree(b: Seq<u8>, p: int, oop: nat, ip: nat) -> Result<Seq<NodeModel>, Error> {
    if p + 4 > b.len() {
        Err(Error::Truncated)
    } else {
        match read_records(b, p + 4, le::u32_at(b, p)) {
            Err(e) => Err(e),
            Ok((records, _)) => read_nodes(b, records, oop, ip, records.len() as int),
        }
    }
}

/// The blob that `b` holds.
pub open spec fn decode(b: Seq<u8>) -> Result<BlobModel, Error> {
    match read_header(b) {
        Err(e) => Err(e),
        Ok(header) => {
            let p = 39 + header.board.len();
            match read_hands(b, p as int) {
                Err(e) => Err(e),
                Ok(oop) => {
                    let q = p + 2 + 2 * oop.len();
                    match read_hands(b, q as int) {
                        Err(e) => Err(e),
                        Ok(ip) => match read_tree(
                            b,
                            (q + 2 + 2 * ip.len()) as int,
                            oop.len(),
                            ip.len(),
                        ) {
                            Err(e) => Err(e),
                            Ok(nodes) => Ok(BlobModel { header, oop, ip, nodes }),
                        },
                    }
                },
            }
        },
    }
}

proof fn lemma_read_records_stop(b: Seq<u8>, p: int, j: int, k: int)
    requires
        j <= k,
        read_records(b, p, j) is Err,
    ensures
        read_records(b, p, k) == read_records(b, p, j),
    decreases k,
{
    if j < k {
        lemma_read_records_stop(b, p, j, k - 1);
    }
}

proof fn lemma_read_nodes_stop(b: Seq<u8>, records: Seq<RecordModel>, oop: nat, ip: nat, j: int, k: int)
    requires
        j <= k,
        read_nodes(b, records, oop, ip, j) is Err,
    ensures
        read_nodes(b, records, oop, ip, k) == read_nodes(b, records, oop, ip, j),
    decreases k,
{
    if j < k {
        lemma_read_nodes_stop(b, records, oop, ip, j, k - 1);
    }
}

fn get_single(b: &[u8], p: usize) -> (v: Single)
    requires
        p + 4 <= b.len(),
    ensures
        v == single_at(b@, p as int),
{
    Single { bits: le::get_u32(b, p) }
}

fn copy_bytes(b: &[u8], from: usize, to: usize) -> (v: Vec<u8>)
    requires
        from <= to <= b.len(),
    ensures
        v@ == b@.subrange(from as int, to as int),
{
    let mut v: Vec<u8> = Vec::new();
    append(&mut v, vstd::slice::slice_subrange(b, from, to));
    assert(v@ =~= b@.subrange(from as int, to as int));
    v
}

fn parse_header(b: &[u8]) -> (r: Result<BlobHeader, Error>)
    ensures
        match read_header(b@) {
            Err(e) => r == Err::<BlobHeader, Error>(e),
            Ok(h) => r is Ok && r->Ok_0@ == h && 39 + h.board.len() <= b.len(),
        },
{
    if b.len() < 4 {
        return Err(Error::Truncated);
    }
    if b[0] != MAGIC[0] || b[1] != MAGIC[1] || b[2] != MAGIC[2] || b[3] != MAGIC[3] {
        assert(b@.take(4)[0] == b@[0] && b@.take(4)[1] == b@[1] && b@.take(4)[2] == b@[2]
            && b@.take(4)[3] == b@[3]);
        return Err(Error::BadMagic);
    }
    assert(b@.take(4) =~= MAGIC@);
    if b.len() < 5 {
        return Err(Error::Truncated);
    }
    if b[4] != FORMAT_VERSION {
        return Err(Error::UnsupportedVersion(b[4]));
    }
    if b.len() < 14 {
        return Err(Error::Truncated);
    }
    let n: usize = b[13] as usize;
    if n < 3 || n > 5 {
        return Err(Error::BoardLength(n));
    }
    if b.len() < 39 + n {
        return Err(Error::Truncated);
    }
    Ok(
        BlobHeader {
            scenario_id: le::get_u32(b, 5),
            template_id: le::get_u16(b, 9),
            solver_version: le::get_u16(b, 11),
            board: copy_bytes(b, 14, 14 + n),
            street: b[14 + n],
            starting_pot: get_single(b, 15 + n),
            effective_stack: get_single(b, 19 + n),
            rake_percent: get_single(b, 23 + n),
            rake_cap: get_single(b, 27 + n),
            exploitability_pct: get_single(b, 31 + n),
            iterations: le::get_u32(b, 35 + n),
        },
    )
}

fn parse_hands(b: &[u8], p: usize) -> (r: Result<Vec<u16>, Error>)
    requires
        p <= b.len(),
    ensures
        match read_hands(b@, p as int) {
            Err(e) => r == Err::<Vec<u16>, Error>(e),
            Ok(h) => r is Ok && r->Ok_0@ == h && h.len() <= 0xFFFF && p + 2 + 2 * h.len() <= b.len(),
        },
{
    if b.len() - p < 2 {
        return Err(Error::Truncated);
    }
    let n: usize = le::get_u16(b, p) as usize;
    if (b.len() - p - 2) / 2 < n {
        return Err(Error::Truncated);
    }
    let mut hands: Vec<u16> = Vec::new();
    for i in 0..n
        invariant
            n == le::u16_at(b@, p as int),
            p + 2 + 2 * n <= b.len(),
            hands@.len() == i,
            forall|j: int|
                0 <= j < i ==> #[trigger] hands@[j] == le::u16_at(b@, p + 2 + 2 * j) as u16,
    {
        hands.push(le::get_u16(b, p + 2 + 2 * i));
    }
    assert(hands@ =~= read_hands(b@, p as int)->Ok_0);
    Ok(hands)
}

/// The node record at `p`: the node, where its arrays are, and where the record ends.
fn parse_record(b: &[u8], p: usize) -> (r: Result<(BlobNode, u64, u64, usize), Error>)
    requires
        p <= b.len(),
    ensures
        match read_record(b@, p as int) {
            Err(e) => r == Err::<(BlobNode, u64, u64, usize), Error>(e),
            Ok(m) => {
                &&& r is Ok
                &&& r->Ok_0.0@ == m.node
                &&& r->Ok_0.1 == m.strategy_offset
                &&& r->Ok_0.2 == m.ev_offset
                &&& r->Ok_0.3 == p + record_size(m.node)
                &&& r->Ok_0.3 <= b.len()
                &&& m.node.actions.len() <= 255
            },
        },
{
    if b.len() - p < 8 {
        return Err(Error::Truncated);
    }
    let kind: u8 = b[p + 4];
    let n: usize = b[p + 6] as usize;
    let c: usize = BlobNode::expected_children(kind, n);
    if b.len() - p < 36 + 5 * n + 4 * c {
        return Err(Error::Truncated);
    }
    let mut actions: Vec<BlobAction> = Vec::new();
    for i in 0..n
        invariant
            p + 36 + 5 * n <= b.len(),
            actions@.len() == i,
            forall|j: int|
                0 <= j < i ==> #[trigger] actions@[j] == (BlobAction {
                    kind: b@[p + 8 + 5 * j],
                    amount: single_at(b@, p + 9 + 5 * j),
                }),
    {
        actions.push(
            BlobAction { kind: b[p + 8 + 5 * i], amount: get_single(b, p + 9 + 5 * i) },
        );
    }
    let mut children: Vec<u32> = Vec::new();
    let at: usize = p + 8 + 5 * n;
    for i in 0..c
        invariant
            at + 28 + 4 * c <= b.len(),
            children@.len() == i,
            forall|j: int| 0 <= j < i ==> #[trigger] children@[j] == le::u32_at(b@, at + 4 * j) as u32,
    {
        children.push(le::get_u32(b, at + 4 * i));
    }
    let q: usize = at + 4 * c;
    let node = BlobNode {
        id: le::get_u32(b, p),
        kind,
        player: b[p + 5],
        flags: b[p + 7],
        actions,
        children,
        invest: [get_single(b, q), get_single(b, q + 4)],
        strategy: Vec::new(),
        ev: Vec::new(),
        ev_scale: get_single(b, q + 24),
    };
    assert(node@.actions =~= read_record(b@, p as int)->Ok_0.node.actions);
    assert(node@.children =~= read_record(b@, p as int)->Ok_0.node.children);
    Ok((node, le::get_u64(b, q + 8), le::get_u64(b, q + 16), q + 28))
}

/// Gives a node the arrays that its record points at.
fn load_arrays(b: &[u8], node: &mut BlobNode, strategy_offset: u64, ev_offset: u64, oop: usize, ip: usize) -> (r:
    Result<(), Error>)
    requires
        oop <= 0xFFFF,
        ip <= 0xFFFF,
        old(node)@.actions.len() <= 255,
        old(node)@.strategy.len() == 0,
        old(node)@.ev.len() == 0,
    ensures
        match read_arrays(
            b@,
            RecordModel { node: old(node)@, strategy_offset, ev_offset },
            oop as nat,
            ip as nat,
        ) {
            Err(e) => r == Err::<(), Error>(e),
            Ok(m) => r is Ok && final(node)@ == m,
        },
{
    let hands: usize = if node.player == 0 {
        oop
    } else if node.player == 1 {
        ip
    } else {
        0
    };
    let n: usize = node.actions.len();
    proof {
        assert(0 <= n * hands <= 255 * 0xFFFF) by (nonlinear_arith)
            requires
                0 <= n <= 255,
                0 <= hands <= 0xFFFF,
        ;
        if n > 0 {
            assert(0 <= (n - 1) * hands <= n * hands) by (nonlinear_arith)
                requires
                    0 < n,
                    0 <= hands,
            ;
        }
    }
    let ghost record = RecordModel { node: node@, strategy_offset, ev_offset };
    let s: usize = if n == 0 {
        0
    } else {
        (n - 1) * hands
    };
    let v: usize = n * hands;
    let mut strategy: Vec<u8> = Vec::new();
    if strategy_offset != OFFSET_NONE {
        if strategy_offset > b.len() as u64 || s > b.len() - strategy_offset as usize {
            return Err(Error::StrategyOutOfBlob);
        }
        strategy = copy_bytes(b, strategy_offset as usize, strategy_offset as usize + s);
    }
    let mut ev: Vec<i16> = Vec::new();
    if ev_offset != OFFSET_NONE {
        if ev_offset > b.len() as u64 || 2 * v > b.len() - ev_offset as usize {
            return Err(Error::EvOutOfBlob);
        }
        let at: usize = ev_offset as usize;
        for i in 0..v
            invariant
                at + 2 * v <= b.len(),
                ev@.len() == i,
                forall|j: int|
                    0 <= j < i ==> #[trigger] ev@[j] == le::signed16(
                        le::u16_at(b@, at + 2 * j),
                    ) as i16,
        {
            ev.push(le::get_i16(b, at + 2 * i));
        }
    }
    node.strategy = strategy;
    node.ev = ev;
    proof {
        let m = read_arrays(b@, record, oop as nat, ip as nat)->Ok_0;
        assert(node@.strategy =~= m.strategy);
        assert(node@.ev =~= m.ev);
    }
    Ok(())
}

/// The node list whose count stands at `p`.
fn parse_tree(b: &[u8], p: usize, oop: usize, ip: usize) -> (r: Result<Vec<BlobNode>, Error>)
    requires
        p <= b.len(),
        oop <= 0xFFFF,
        ip <= 0xFFFF,
    ensures
        match read_tree(b@, p as int, oop as nat, ip as nat) {
            Err(e) => r == Err::<Vec<BlobNode>, Error>(e),
            Ok(m) => r is Ok && node_models(r->Ok_0@) == m,
        },
{
    if b.len() - p < 4 {
        return Err(Error::Truncated);
    }
    let count: usize = le::get_u32(b, p) as usize;
    let start: usize = p + 4;
    let mut nodes: Vec<BlobNode> = Vec::new();
    let mut offsets: Vec<(u64, u64)> = Vec::new();
    let mut at: usize = start;
    let ghost mut records: Seq<RecordModel> = Seq::empty();
    for i in 0..count
        invariant
            at <= b.len(),
            start == p + 4,
            read_records(b@, start as int, i as int) == Ok::<(Seq<RecordModel>, int), Error>(
                (records, at as int),
            ),
            records.len() == i,
            nodes@.len() == i,
            offsets@.len() == i,
            forall|j: int|
                0 <= j < i ==> {
                    &&& (#[trigger] records[j]).node == nodes@[j]@
                    &&& records[j].strategy_offset == offsets@[j].0
                    &&& records[j].ev_offset == offsets@[j].1
                    &&& records[j].node.actions.len() <= 255
                    &&& records[j].node.strategy.len() == 0
                    &&& records[j].node.ev.len() == 0
                },
            count == le::u32_at(b@, p as int),
            p + 4 <= b.len(),
    {
        let ghost before = records;
        let ghost before_nodes = nodes@;
        match parse_record(b, at) {
            Err(e) => {
                proof {
                    lemma_read_records_stop(b@, start as int, i + 1, count as int);
                }
                return Err(e);
            },
            Ok((node, strategy_offset, ev_offset, end)) => {
                proof {
                    records = before.push(read_record(b@, at as int)->Ok_0);
                }
                nodes.push(node);
                offsets.push((strategy_offset, ev_offset));
                at = end;
            },
        }
        assert forall|j: int| 0 <= j < i + 1 implies {
            &&& (#[trigger] records[j]).node == nodes@[j]@
            &&& records[j].strategy_offset == offsets@[j].0
            &&& records[j].ev_offset == offsets@[j].1
            &&& records[j].node.actions.len() <= 255
            &&& records[j].node.strategy.len() == 0
            &&& records[j].node.ev.len() == 0
        } by {
            if j < i {
                assert(records[j] == before[j]);
                assert(nodes@[j] == before_nodes[j]);
            }
        }
    }
    for i in 0..count
        invariant
            oop <= 0xFFFF,
            ip <= 0xFFFF,
            records.len() == count,
            nodes@.len() == count,
            offsets@.len() == count,
            read_nodes(b@, records, oop as nat, ip as nat, i as int) is Ok,
            read_nodes(b@, records, oop as nat, ip as nat, i as int)->Ok_0.len() == i,
            forall|j: int|
                0 <= j < i ==> (#[trigger] nodes@[j])@ == read_nodes(
                    b@,
                    records,
                    oop as nat,
                    ip as nat,
                    i as int,
                )->Ok_0[j],
            forall|j: int|
                i <= j < count ==> {
                    &&& (#[trigger] records[j]).node == nodes@[j]@
                    &&& records[j].strategy_offset == offsets@[j].0
                    &&& records[j].ev_offset == offsets@[j].1
                    &&& records[j].node.actions.len() <= 255
                    &&& records[j].node.strategy.len() == 0
                    &&& records[j].node.ev.len() == 0
                },
            read_tree(b@, p as int, oop as nat, ip as nat) == read_nodes(
                b@,
                records,
                oop as nat,
                ip as nat,
                count as int,
            ),
    {
        let ghost before = nodes@;
        let (strategy_offset, ev_offset): (u64, u64) = offsets[i];
        proof {
            assert(records[i as int].node == nodes@[i as int]@);
            assert(records[i as int] == (RecordModel {
                node: nodes@[i as int]@,
                strategy_offset,
                ev_offset,
            }));
        }
        match load_arrays(b, &mut nodes[i], strategy_offset, ev_offset, oop, ip) {
            Err(e) => {
                proof {
                    lemma_read_nodes_stop(
                        b@,
                        records,
                        oop as nat,
                        ip as nat,
                        i + 1,
                        count as int,
                    );
                }
                return Err(e);
            },
            Ok(()) => {},
        }
        assert(forall|j: int| 0 <= j < count && j != i ==> #[trigger] nodes@[j] == before[j]);
    }
    assert(node_models(nodes@) =~= read_nodes(b@, records, oop as nat, ip as nat, count as int)->Ok_0);
    Ok(nodes)
}

impl Blob {
    /// The blob that `bytes` holds.
    ///
    /// Refused are bytes that do not start with the magic bytes, another format version, a board
    /// of fewer than three or more than five cards, bytes that end too early, and arrays that lie
    /// outside `bytes`. Bytes that no record points at are not looked at.
    pub fn parse(bytes: &[u8]) -> (r: Result<Blob, Error>)
        ensures
            match decode(bytes@) {
                Err(e) => r == Err::<Blob, Error>(e),
                Ok(m) => r is Ok && r->Ok_0@ == m,
            },
    {
        let header = match parse_header(bytes) {
            Ok(header) => header,
            Err(e) => return Err(e),
        };
        let p: usize = 39 + header.board.len();
        let oop = match parse_hands(bytes, p) {
            Ok(hands) => hands,
            Err(e) => return Err(e),
        };
        let q: usize = p + 2 + 2 * oop.len();
        let ip = match parse_hands(bytes, q) {
            Ok(hands) => hands,
            Err(e) => return Err(e),
        };
        let nodes = match parse_tree(bytes, q + 2 + 2 * ip.len(), oop.len(), ip.len()) {
            Ok(nodes) => nodes,
            Err(e) => return Err(e),
        };
        Ok(Blob { header, hands: [oop, ip], nodes })
    }
}

} // verus!
