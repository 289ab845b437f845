//! Jobs: what is to be solved, and what a job must be like.

use vstd::prelude::*;

use crate::arith;
use crate::cards;
use crate::error::Error;
use crate::ieee::{Double, Single};
use crate::range;
use crate::signed;
use crate::text;

verus! {

/// The most iterations that a job may ask for.
pub const MAX_ITERATIONS: u32 = 5000;

/// The bit pattern of 1.
pub const ONE: u64 = 0x3FF0_0000_0000_0000;

/// The bit pattern of 100, the chips of a big blind.
pub const CHIP_SCALE: u64 = 0x4059_0000_0000_0000;

/// The bit pattern of 10000, the largest bet size in percent of the pot.
pub const LARGEST_SIZE: u64 = 0x40C3_8800_0000_0000;

/// A board, in letters or as card numbers.
#[derive(Debug, Clone, PartialEq, Eq)]
pub enum BoardInput {
    Text(String),
    Ids(Vec<u8>),
}

/// One player's sizes on one street: numbers in percent of the pot, or how they are written.
#[derive(Debug, Clone, PartialEq, Eq)]
pub struct BetSizing<T> {
    pub bet: Vec<T>,
    pub raise: Vec<T>,
}

/// Both players' sizes on one street.
#[derive(Debug, Clone, PartialEq, Eq)]
pub struct StreetSizing<T> {
    pub oop: BetSizing<T>,
    pub ip: BetSizing<T>,
}

/// The sizes of all streets.
#[derive(Debug, Clone, PartialEq, Eq)]
pub struct Sizing<T> {
    pub flop: StreetSizing<T>,
    pub turn: StreetSizing<T>,
    pub river: StreetSizing<T>,
}

/// What the house takes: a part of the pot in percent, and the most in big blinds.
#[derive(Debug, Clone, Copy, PartialEq, Eq, Structural)]
pub struct Rake {
    pub percent: Double,
    pub cap_bb: Double,
}

/// The sizes of donk bets.
#[derive(Debug, Clone, PartialEq, Eq)]
pub struct Donk<T> {
    pub turn: Vec<T>,
    pub river: Vec<T>,
}

/// A job.
#[derive(Debug, Clone, PartialEq, Eq)]
pub struct JobConfig {
    pub board: BoardInput,
    /// Range notation, out-of-position player first.
    pub ranges: [String; 2],
    /// Big blinds in the pot.
    pub pot: Double,
    /// Big blinds behind.
    pub effective_stack: Double,
    pub sizing: Sizing<Double>,
    pub max_raises_per_street: u32,
    pub all_in_threshold: Double,
    pub add_all_in_threshold: Double,
    pub iterations: u32,
    /// In percent of the pot.
    pub target_exploitability: Double,
    pub rake: Option<Rake>,
    pub donk: Option<Donk<Double>>,
    pub merging_threshold: Double,
    pub store_river: bool,
    pub river_prune_reach: Option<Double>,
    pub river_ev: Option<bool>,
    pub scenario_id: u32,
    pub template_id: u16,
    pub scenario: Option<String>,
    pub template: Option<String>,
}

/// The street that a board is on.
#[derive(Debug, Clone, Copy, PartialEq, Eq, Structural)]
pub enum Street {
    Flop,
    Turn,
    River,
}

impl Street {
    pub open spec fn number(self) -> u8 {
        match self {
            Street::Flop => 0,
            Street::Turn => 1,
            Street::River => 2,
        }
    }

    pub open spec fn name(self) -> Seq<char> {
        match self {
            Street::Flop => "flop"@,
            Street::Turn => "turn"@,
            Street::River => "river"@,
        }
    }

    /// The street's number in a blob.
    pub fn as_u8(self) -> (r: u8)
        ensures
            r == self.number(),
    {
        match self {
            Street::Flop => 0,
            Street::Turn => 1,
            Street::River => 2,
        }
    }

    /// The street's name.
    pub fn as_str(self) -> (r: &'static str)
        ensures
            r@ == self.name(),
    {
        match self {
            Street::Flop => "flop",
            Street::Turn => "turn",
            Street::River => "river",
        }
    }
}

/// The raises per street that a job is given when it does not say.
pub fn default_max_raises() -> (r: u32)
    ensures
        r == 2,
{
    2
}

/// 0.67, the all-in threshold that a job is given when it does not say.
pub fn default_all_in_threshold() -> (r: Double)
    ensures
        r.bits == 0x3FE5_70A3_D70A_3D71,
{
    Double { bits: 0x3FE5_70A3_D70A_3D71 }
}

/// 1.5, the threshold for adding all-ins that a job is given when it does not say.
pub fn default_add_all_in_threshold() -> (r: Double)
    ensures
        r.bits == 0x3FF8_0000_0000_0000,
{
    Double { bits: 0x3FF8_0000_0000_0000 }
}

/// 0.1, the merging threshold that a job is given when it does not say.
pub fn default_merging_threshold() -> (r: Double)
    ensures
        r.bits == 0x3FB9_9999_9999_999A,
{
    Double { bits: 0x3FB9_9999_9999_999A }
}

/// 0.3, the target exploitability that a job is given when it does not say.
pub fn default_target_exploitability() -> (r: Double)
    ensures
        r.bits == 0x3FD3_3333_3333_3333,
{
    Double { bits: 0x3FD3_3333_3333_3333 }
}

/// The cards of a board.
pub open spec fn board_of(board: BoardInput) -> Result<Seq<u8>, Error> {
    match board {
        BoardInput::Text(s) => cards::parse_board(s@),
        BoardInput::Ids(ids) => Ok(ids@),
    }
}

/// The street of a board, by how many cards it has.
pub open spec fn street_of(board: BoardInput) -> Result<Street, Error> {
    match board_of(board) {
        Err(e) => Err(e),
        Ok(b) => if b.len() == 3 {
            Ok(Street::Flop)
        } else if b.len() == 4 {
            Ok(Street::Turn)
        } else if b.len() == 5 {
            Ok(Street::River)
        } else {
            Err(Error::BoardLength(b.len() as usize))
        },
    }
}

/// The rake as a part of one; nothing without a rake.
pub open spec fn rake_rate_of(rake: Option<Rake>) -> Double {
    match rake {
        None => zero(),
        Some(rake) => signed::quotient(rake.percent, Double { bits: CHIP_SCALE }),
    }
}

/// The rake's cap in chips; nothing without a rake.
pub open spec fn rake_cap_of(rake: Option<Rake>) -> Double {
    match rake {
        None => zero(),
        Some(rake) => signed::product(rake.cap_bb, Double { bits: CHIP_SCALE }),
    }
}

/// A percentage of a number of chips, worked out in binary64 and narrowed to binary32.
pub open spec fn target_chips(chips: int, percent: Double) -> Single {
    signed::narrowed(
        signed::quotient(signed::product(signed::whole(chips), percent), Double { bits: CHIP_SCALE }),
    )
}

/// What is wrong with the cards of a board.
pub open spec fn board_fault(b: Seq<u8>) -> Option<Error> {
    if b.len() < 3 || b.len() > 5 {
        Some(Error::BoardLength(b.len() as usize))
    } else if cards::first_stray(b, 0) is Some {
        Some(Error::CardOutOfRange(cards::first_stray(b, 0)->0))
    } else if exists|i: int, j: int| 0 <= i < j < b.len() && #[trigger] b[i] == #[trigger] b[j] {
        Some(Error::DuplicateCard)
    } else {
        None
    }
}

pub open spec fn zero() -> Double {
    Double { bits: 0 }
}

/// Whether a number is between zero and another.
pub open spec fn between(d: Double, top: u64) -> bool {
    zero().at_most(d) && d.at_most(Double { bits: top })
}

/// What is wrong with the numbers of a job.
pub open spec fn number_fault(c: JobConfig) -> Option<Error> {
    if !zero().below(c.pot) {
        Some(Error::Pot)
    } else if !zero().below(c.effective_stack) {
        Some(Error::Stack)
    } else if arith::chips_of(c.pot) <= 0 || arith::chips_of(c.effective_stack) <= 0 {
        Some(Error::NoChips)
    } else if c.iterations == 0 || c.iterations > MAX_ITERATIONS {
        Some(Error::Iterations(c.iterations))
    } else if !between(c.all_in_threshold, ONE) {
        Some(Error::AllInThreshold)
    } else if c.add_all_in_threshold.below(zero()) {
        Some(Error::AddAllInThreshold)
    } else if c.merging_threshold.below(zero()) {
        Some(Error::MergingThreshold)
    } else if c.target_exploitability.below(zero()) {
        Some(Error::TargetExploitability)
    } else if c.river_prune_reach is Some && !between(c.river_prune_reach->0, ONE) {
        Some(Error::RiverPruneReach)
    } else if c.rake is Some && !between(c.rake->0.percent, CHIP_SCALE) {
        Some(Error::RakePercent)
    } else if c.rake is Some && c.rake->0.cap_bb.below(zero()) {
        Some(Error::RakeCap)
    } else {
        None
    }
}

/// What is wrong with a player's range, given whether the engine takes it.
pub open spec fn range_fault(text: Seq<char>, accepted: bool, player: u8) -> Option<Error> {
    if range::trim(text).len() == 0 {
        Some(Error::BlankRange(player))
    } else {
        match range::notation(text) {
            Err(e) => Some(e),
            Ok(_) => if accepted {
                None
            } else {
                Some(Error::RefusedRange(player))
            },
        }
    }
}

/// Whether a bet size is above zero and not beyond 10000 percent.
pub open spec fn proper_size(d: Double) -> bool {
    zero().below(d) && !(Double { bits: LARGEST_SIZE }).below(d)
}

pub open spec fn proper_sizes(s: Seq<Double>) -> bool {
    forall|i: int| 0 <= i < s.len() ==> proper_size(#[trigger] s[i])
}

pub open spec fn proper_player(s: BetSizing<Double>) -> bool {
    proper_sizes(s.bet@) && proper_sizes(s.raise@)
}

/// The first street and player whose sizes are not proper.
pub open spec fn street_fault(s: StreetSizing<Double>, street: u8) -> Option<Error> {
    if !proper_player(s.oop) {
        Some(Error::BetSize(street, 0))
    } else if !proper_player(s.ip) {
        Some(Error::BetSize(street, 1))
    } else {
        None
    }
}

/// What is wrong with the sizes of a job.
pub open spec fn size_fault(c: JobConfig) -> Option<Error> {
    if street_fault(c.sizing.flop, 0) is Some {
        street_fault(c.sizing.flop, 0)
    } else if street_fault(c.sizing.turn, 1) is Some {
        street_fault(c.sizing.turn, 1)
    } else if street_fault(c.sizing.river, 2) is Some {
        street_fault(c.sizing.river, 2)
    } else if c.donk is Some && !(proper_sizes(c.donk->0.turn@) && proper_sizes(c.donk->0.river@)) {
        Some(Error::DonkSize)
    } else {
        None
    }
}

/// What is wrong with a job, if anything is: the first of all faults, in the order of the board,
/// the numbers, the ranges and the sizes.
pub open spec fn job_fault(c: JobConfig, accepted: Seq<bool>) -> Option<Error> {
    match board_of(c.board) {
        Err(e) => Some(e),
        Ok(b) => if board_fault(b) is Some {
            board_fault(b)
        } else if number_fault(c) is Some {
            number_fault(c)
        } else if range_fault(c.ranges@[0]@, accepted[0], 0) is Some {
            range_fault(c.ranges@[0]@, accepted[0], 0)
        } else if range_fault(c.ranges@[1]@, accepted[1], 1) is Some {
            range_fault(c.ranges@[1]@, accepted[1], 1)
        } else {
            size_fault(c)
        },
    }
}

fn copy(ids: &Vec<u8>) -> (r: Vec<u8>)
    ensures
        r@ == ids@,
{
    let mut out: Vec<u8> = Vec::new();
    for i in 0..ids.len()
        invariant
            out@ == ids@.take(i as int),
    {
        out.push(ids[i]);
        assert(ids@.take(i + 1) =~= ids@.take(i as int).push(ids@[i as int]));
    }
    assert(ids@.take(ids@.len() as int) =~= ids@);
    out
}

fn check_board(b: &Vec<u8>) -> (r: Option<Error>)
    ensures
        r == board_fault(b@),
{
    if b.len() < 3 || b.len() > 5 {
        return Some(Error::BoardLength(b.len()));
    }
    for i in 0..b.len()
        invariant
            3 <= b@.len() <= 5,
            cards::first_stray(b@, 0) == cards::first_stray(b@, i as int),
    {
        if b[i] >= 52 {
            return Some(Error::CardOutOfRange(b[i]));
        }
    }
    for j in 0..b.len()
        invariant
            3 <= b@.len() <= 5,
            cards::first_stray(b@, 0) is None,
            forall|x: int, y: int| 0 <= x < y < j ==> #[trigger] b@[x] != #[trigger] b@[y],
    {
        for i in 0..j
            invariant
                3 <= b@.len() <= 5,
                j < b@.len(),
                cards::first_stray(b@, 0) is None,
                forall|x: int, y: int| 0 <= x < y < j ==> #[trigger] b@[x] != #[trigger] b@[y],
                forall|x: int| 0 <= x < i ==> #[trigger] b@[x] != b@[j as int],
        {
            if b[i] == b[j] {
                assert(b@[i as int] == b@[j as int]);
                return Some(Error::DuplicateCard);
            }
        }
    }
    None
}

fn is_between(d: &Double, top: u64) -> (r: bool)
    ensures
        r == between(*d, top),
{
    let low: Double = Double { bits: 0 };
    let high: Double = Double { bits: top };
    low.le(d) && d.le(&high)
}

fn is_below_zero(d: &Double) -> (r: bool)
    ensures
        r == d.below(zero()),
{
    let low: Double = Double { bits: 0 };
    d.lt(&low)
}

fn is_above_zero(d: &Double) -> (r: bool)
    ensures
        r == zero().below(*d),
{
    let low: Double = Double { bits: 0 };
    low.lt(d)
}

fn check_numbers(c: &JobConfig) -> (r: Option<Error>)
    ensures
        r == number_fault(*c),
{
    if !is_above_zero(&c.pot) {
        return Some(Error::Pot);
    }
    if !is_above_zero(&c.effective_stack) {
        return Some(Error::Stack);
    }
    if c.pot_chips() <= 0 || c.stack_chips() <= 0 {
        return Some(Error::NoChips);
    }
    if c.iterations == 0 || c.iterations > MAX_ITERATIONS {
        return Some(Error::Iterations(c.iterations));
    }
    if !is_between(&c.all_in_threshold, ONE) {
        return Some(Error::AllInThreshold);
    }
    if is_below_zero(&c.add_all_in_threshold) {
        return Some(Error::AddAllInThreshold);
    }
    if is_below_zero(&c.merging_threshold) {
        return Some(Error::MergingThreshold);
    }
    if is_below_zero(&c.target_exploitability) {
        return Some(Error::TargetExploitability);
    }
    if let Some(reach) = &c.river_prune_reach {
        if !is_between(reach, ONE) {
            return Some(Error::RiverPruneReach);
        }
    }
    if let Some(rake) = &c.rake {
        if !is_between(&rake.percent, CHIP_SCALE) {
            return Some(Error::RakePercent);
        }
        if is_below_zero(&rake.cap_bb) {
            return Some(Error::RakeCap);
        }
    }
    None
}

fn check_range(input: &String, accepted: bool, player: u8) -> (r: Option<Error>)
    ensures
        r == range_fault(input@, accepted, player),
{
    let chars: Vec<char> = text::chars_of(input.as_str());
    if range::trim_chars(&chars).len() == 0 {
        return Some(Error::BlankRange(player));
    }
    match range::to_library_notation(input.as_str()) {
        Err(e) => Some(e),
        Ok(_) => if accepted {
            None
        } else {
            Some(Error::RefusedRange(player))
        },
    }
}

fn check_sizes(sizes: &Vec<Double>) -> (r: bool)
    ensures
        r == proper_sizes(sizes@),
{
    let top: Double = Double { bits: LARGEST_SIZE };
    for i in 0..sizes.len()
        invariant
            top == (Double { bits: LARGEST_SIZE }),
            forall|j: int| 0 <= j < i ==> proper_size(#[trigger] sizes@[j]),
    {
        if !is_above_zero(&sizes[i]) || top.lt(&sizes[i]) {
            assert(!proper_size(sizes@[i as int]));
            return false;
        }
    }
    true
}

fn check_street(s: &StreetSizing<Double>, street: u8) -> (r: Option<Error>)
    ensures
        r == street_fault(*s, street),
{
    if !check_sizes(&s.oop.bet) || !check_sizes(&s.oop.raise) {
        return Some(Error::BetSize(street, 0));
    }
    if !check_sizes(&s.ip.bet) || !check_sizes(&s.ip.raise) {
        return Some(Error::BetSize(street, 1));
    }
    None
}

fn check_job_sizes(c: &JobConfig) -> (r: Option<Error>)
    ensures
        r == size_fault(*c),
{
    if let Some(e) = check_street(&c.sizing.flop, 0) {
        return Some(e);
    }
    if let Some(e) = check_street(&c.sizing.turn, 1) {
        return Some(e);
    }
    if let Some(e) = check_street(&c.sizing.river, 2) {
        return Some(e);
    }
    if let Some(donk) = &c.donk {
        if !check_sizes(&donk.turn) || !check_sizes(&donk.river) {
            return Some(Error::DonkSize);
        }
    }
    None
}

impl JobConfig {
    /// The cards of the board.
    pub fn board_cards(&self) -> (r: Result<Vec<u8>, Error>)
        ensures
            match board_of(self.board) {
                Err(e) => r == Err::<Vec<u8>, Error>(e),
                Ok(b) => r is Ok && r->Ok_0@ == b,
            },
    {
        match &self.board {
            BoardInput::Text(s) => cards::board_from_str(s.as_str()),
            BoardInput::Ids(ids) => Ok(copy(ids)),
        }
    }

    /// The street that the game starts on.
    pub fn street(&self) -> (r: Result<Street, Error>)
        ensures
            r == street_of(self.board),
    {
        let board: Vec<u8> = match self.board_cards() {
            Ok(board) => board,
            Err(e) => return Err(e),
        };
        if board.len() == 3 {
            Ok(Street::Flop)
        } else if board.len() == 4 {
            Ok(Street::Turn)
        } else if board.len() == 5 {
            Ok(Street::River)
        } else {
            Err(Error::BoardLength(board.len()))
        }
    }

    /// The pot in chips.
    pub fn pot_chips(&self) -> (r: i32)
        ensures
            r == arith::chips_of(self.pot),
    {
        arith::chips(self.pot)
    }

    /// The stack in chips.
    pub fn stack_chips(&self) -> (r: i32)
        ensures
            r == arith::chips_of(self.effective_stack),
    {
        arith::chips(self.effective_stack)
    }

    /// The rake as a part of one; nothing without a rake.
    pub fn rake_rate(&self) -> (r: Double)
        ensures
            r == rake_rate_of(self.rake),
    {
        match &self.rake {
            None => Double { bits: 0 },
            Some(rake) => signed::div(rake.percent, Double { bits: CHIP_SCALE }),
        }
    }

    /// The rake's cap in chips; nothing without a rake.
    pub fn rake_cap_chips(&self) -> (r: Double)
        ensures
            r == rake_cap_of(self.rake),
    {
        match &self.rake {
            None => Double { bits: 0 },
            Some(rake) => signed::mul(rake.cap_bb, Double { bits: CHIP_SCALE }),
        }
    }

    /// The exploitability to reach, in chips.
    pub fn target_exploitability_chips(&self) -> (r: Single)
        ensures
            r == target_chips(arith::chips_of(self.pot), self.target_exploitability),
    {
        let m: Double = signed::mul(signed::from_int(self.pot_chips()), self.target_exploitability);
        signed::narrow(signed::div(m, Double { bits: CHIP_SCALE }))
    }

    /// Whether the job is as a job must be; the engine has said which ranges it takes.
    pub fn validate(&self, accepted: [bool; 2]) -> (r: Result<(), Error>)
        ensures
            r == match job_fault(*self, accepted@) {
                None => Ok::<(), Error>(()),
                Some(e) => Err::<(), Error>(e),
            },
    {
        let board: Vec<u8> = match self.board_cards() {
            Ok(board) => board,
            Err(e) => return Err(e),
        };
        if let Some(e) = check_board(&board) {
            return Err(e);
        }
        if let Some(e) = check_numbers(self) {
            return Err(e);
        }
        if let Some(e) = check_range(&self.ranges[0], accepted[0], 0) {
            return Err(e);
        }
        if let Some(e) = check_range(&self.ranges[1], accepted[1], 1) {
            return Err(e);
        }
        match check_job_sizes(self) {
            None => Ok(()),
            Some(e) => Err(e),
        }
    }
}

/// A valid job has a street, and its pot and stack are chips.
pub proof fn law_valid_jobs_can_start(c: JobConfig, accepted: Seq<bool>)
    requires
        job_fault(c, accepted) is None,
    ensures
        street_of(c.board) is Ok,
        arith::chips_of(c.pot) > 0,
        arith::chips_of(c.effective_stack) > 0,
        1 <= c.iterations <= MAX_ITERATIONS,
        range::notation(c.ranges@[0]@) is Ok,
        range::notation(c.ranges@[1]@) is Ok,
        forall|i: int| 0 <= i < board_of(c.board)->Ok_0.len() ==> #[trigger] board_of(c.board)->Ok_0[i] < 52,
{
    let b = board_of(c.board)->Ok_0;
    assert forall|i: int| 0 <= i < b.len() implies #[trigger] b[i] < 52 by {
        lemma_no_stray(b, 0, i);
    }
}

proof fn lemma_no_stray(b: Seq<u8>, k: int, i: int)
    requires
        cards::first_stray(b, k) is None,
        0 <= k <= i < b.len(),
    ensures
        b[i] < 52,
    decreases i - k,
{
    if k < i {
        lemma_no_stray(b, k + 1, i);
    }
}

} // verus!
