//! What the engine is given: the cards and the betting tree of a job.

use vstd::prelude::*;

use crate::arith;
use crate::cards;
use crate::config;
use crate::config::{BetSizing, BoardInput, Donk, JobConfig, Sizing, Street, StreetSizing};
use crate::error::Error;
use crate::ieee::Double;
use crate::sizes;
use crate::sizes::{append_number, bet_options, donk_options, BetText};
use crate::text;
use crate::tree::{CardConfig, RangeWeights};

verus! {

/// Both players' bets and raises on a street as the engine reads them.
#[derive(Debug, Clone, PartialEq, Eq)]
pub struct StreetText {
    pub oop: BetText,
    pub ip: BetText,
}

/// The betting tree of a job.
#[derive(Debug, Clone, PartialEq, Eq)]
pub struct TreeConfig {
    pub initial_state: Street,
    pub starting_pot: i32,
    pub effective_stack: i32,
    pub rake_rate: Double,
    pub rake_cap: Double,
    pub flop_bet_sizes: StreetText,
    pub turn_bet_sizes: StreetText,
    pub river_bet_sizes: StreetText,
    pub turn_donk_sizes: Option<String>,
    pub river_donk_sizes: Option<String>,
    pub add_allin_threshold: Double,
    pub force_allin_threshold: Double,
    pub merging_threshold: Double,
}

/// There is a text for every size.
pub open spec fn player_shown(s: BetSizing<Double>, shown: BetSizing<String>) -> bool {
    shown.bet@.len() == s.bet@.len() && shown.raise@.len() == s.raise@.len()
}

/// There is a text for every size.
pub open spec fn street_shown(s: StreetSizing<Double>, shown: StreetSizing<String>) -> bool {
    player_shown(s.oop, shown.oop) && player_shown(s.ip, shown.ip)
}

/// There is a text for every size.
pub open spec fn all_shown(s: Sizing<Double>, shown: Sizing<String>) -> bool {
    street_shown(s.flop, shown.flop) && street_shown(s.turn, shown.turn) && street_shown(
        s.river,
        shown.river,
    )
}

/// The texts are those of a player's sizes.
pub open spec fn player_text(s: BetSizing<Double>, shown: BetSizing<String>, t: BetText) -> bool {
    &&& t.bet@ == sizes::size_text(s.bet@, shown.bet@, s.bet@.len() as int)
    &&& t.raise@ == sizes::size_text(s.raise@, shown.raise@, s.raise@.len() as int)
}

/// The texts are those of a street's sizes.
pub open spec fn street_text(s: StreetSizing<Double>, shown: StreetSizing<String>, t: StreetText) -> bool {
    player_text(s.oop, shown.oop, t.oop) && player_text(s.ip, shown.ip, t.ip)
}

/// The text is that of donk bet sizes; there is none without sizes.
pub open spec fn donk_text(s: Seq<Double>, shown: Seq<String>, t: Option<String>) -> bool {
    match t {
        None => s.len() == 0,
        Some(t) => s.len() > 0 && t@ == sizes::size_text(s, shown, s.len() as int),
    }
}

/// What is warned of where a job limits raises, which the engine cannot do.
pub open spec fn raises_warning(n: nat) -> Seq<char> {
    "maxRaisesPerStreet="@ + sizes::digits(n)
        + "는 엔진에 대응 옵션이 없어 무시했다. 레이즈 횟수는 스택과 사이즈 목록이 결정한다."@
}

fn warn_of_raises(n: u32) -> (r: String)
    ensures
        r@ == raises_warning(n as nat),
{
    let mut out: String = String::new();
    text::append_str(&mut out, "maxRaisesPerStreet=");
    append_number(&mut out, n as u64);
    text::append_str(
        &mut out,
        "는 엔진에 대응 옵션이 없어 무시했다. 레이즈 횟수는 스택과 사이즈 목록이 결정한다.",
    );
    assert(out@ =~= raises_warning(n as nat));
    out
}

fn street_options(s: &StreetSizing<Double>, shown: &StreetSizing<String>) -> (r: StreetText)
    requires
        street_shown(*s, *shown),
    ensures
        street_text(*s, *shown, r),
{
    StreetText { oop: bet_options(&s.oop, &shown.oop), ip: bet_options(&s.ip, &shown.ip) }
}

/// The tree of a job is as the job says.
pub open spec fn tree_of(c: JobConfig, shown: Sizing<String>, donk: Donk<String>, street: Street, t: TreeConfig) -> bool {
    &&& t.initial_state == street
    &&& t.starting_pot == arith::chips_of(c.pot)
    &&& t.effective_stack == arith::chips_of(c.effective_stack)
    &&& t.rake_rate == config::rake_rate_of(c.rake)
    &&& t.rake_cap == config::rake_cap_of(c.rake)
    &&& street_text(c.sizing.flop, shown.flop, t.flop_bet_sizes)
    &&& street_text(c.sizing.turn, shown.turn, t.turn_bet_sizes)
    &&& street_text(c.sizing.river, shown.river, t.river_bet_sizes)
    &&& match c.donk {
        None => t.turn_donk_sizes is None && t.river_donk_sizes is None,
        Some(d) => donk_text(d.turn@, donk.turn@, t.turn_donk_sizes) && donk_text(
            d.river@,
            donk.river@,
            t.river_donk_sizes,
        ),
    }
    &&& t.add_allin_threshold == c.add_all_in_threshold
    &&& t.force_allin_threshold == c.all_in_threshold
    &&& t.merging_threshold == c.merging_threshold
}

/// The betting tree of a job, and what is to be warned of. `shown` and `shown_donk` are how the
/// sizes are written that are no integers.
pub fn build_tree_config(config: &JobConfig, shown: &Sizing<String>, shown_donk: &Donk<String>) -> (r: Result<
    (TreeConfig, Vec<String>),
    Error,
>)
    requires
        all_shown(config.sizing, *shown),
        config.donk is Some ==> shown_donk.turn@.len() == config.donk->0.turn@.len()
            && shown_donk.river@.len() == config.donk->0.river@.len(),
    ensures
        match config::street_of(config.board) {
            Err(e) => r == Err::<(TreeConfig, Vec<String>), Error>(e),
            Ok(street) => {
                &&& r is Ok
                &&& tree_of(*config, *shown, *shown_donk, street, r->Ok_0.0)
                &&& if config.max_raises_per_street == 0 {
                    r->Ok_0.1@.len() == 0
                } else {
                    r->Ok_0.1@.len() == 1 && r->Ok_0.1@[0]@ == raises_warning(
                        config.max_raises_per_street as nat,
                    )
                }
            },
        },
{
    let mut warnings: Vec<String> = Vec::new();
    let initial_state: Street = match config.street() {
        Ok(street) => street,
        Err(e) => return Err(e),
    };
    let (turn_donk_sizes, river_donk_sizes): (Option<String>, Option<String>) = match &config.donk {
        None => (None, None),
        Some(donk) => (
            donk_options(&donk.turn, &shown_donk.turn),
            donk_options(&donk.river, &shown_donk.river),
        ),
    };
    let tree: TreeConfig = TreeConfig {
        initial_state,
        starting_pot: config.pot_chips(),
        effective_stack: config.stack_chips(),
        rake_rate: config.rake_rate(),
        rake_cap: config.rake_cap_chips(),
        flop_bet_sizes: street_options(&config.sizing.flop, &shown.flop),
        turn_bet_sizes: street_options(&config.sizing.turn, &shown.turn),
        river_bet_sizes: street_options(&config.sizing.river, &shown.river),
        turn_donk_sizes,
        river_donk_sizes,
        add_allin_threshold: config.add_all_in_threshold,
        force_allin_threshold: config.all_in_threshold,
        merging_threshold: config.merging_threshold,
    };
    if config.max_raises_per_street != 0 {
        warnings.push(warn_of_raises(config.max_raises_per_street));
    }
    Ok((tree, warnings))
}

/// The cards of a game of the engine.
pub open spec fn cards_of(board: Seq<u8>, c: CardConfig) -> bool {
    &&& forall|i: int| 0 <= i < 3 ==> #[trigger] c.flop@[i] == cards::swapped(board[i] as int)
    &&& c.turn == (if board.len() > 3 {
        Some(cards::swapped(board[3] as int) as u8)
    } else {
        None
    })
    &&& c.river == (if board.len() > 4 {
        Some(cards::swapped(board[4] as int) as u8)
    } else {
        None
    })
}

/// The cards that a game starts from, in the order in which they are dealt.
pub open spec fn dealt(c: CardConfig) -> Seq<u8> {
    let turn = match c.turn {
        None => Seq::empty(),
        Some(card) => seq![card],
    };
    let river = match c.river {
        None => Seq::empty(),
        Some(card) => seq![card],
    };
    c.flop@ + turn + river
}

/// The engine is dealt as many cards as the board has, up to five, in the board's order, each with
/// its rank and with the suits counted from the other end. So it is dealt a turn card exactly where
/// the game does not start on the flop, and a river card exactly where it starts on the river.
pub proof fn law_boards_are_dealt_in_order(board: BoardInput, c: CardConfig)
    requires
        config::board_of(board) is Ok,
        3 <= config::board_of(board)->Ok_0.len() <= 5,
        cards_of(config::board_of(board)->Ok_0, c),
    ensures
        ({
            let b = config::board_of(board)->Ok_0;
            let street = config::street_of(board);
            &&& dealt(c).len() == b.len()
            &&& forall|i: int|
                0 <= i < b.len() ==> (#[trigger] dealt(c)[i]) / 4 == b[i] / 4 && dealt(c)[i] % 4 + b[i]
                    % 4 == 3
            &&& street is Ok
            &&& c.turn is Some <==> street->Ok_0 != Street::Flop
            &&& c.river is Some <==> street->Ok_0 == Street::River
        }),
{
    let b = config::board_of(board)->Ok_0;
    assert forall|i: int| 0 <= i < b.len() implies (#[trigger] dealt(c)[i]) / 4 == b[i] / 4 && dealt(c)[i]
        % 4 + b[i] % 4 == 3 by {
        assert(dealt(c)[i] == cards::swapped(b[i] as int));
    }
}

/// The cards of a job, with the ranges that the engine has read.
pub fn build_card_config(config: &JobConfig, range: [RangeWeights; 2]) -> (r: Result<CardConfig, Error>)
    requires
        config::board_of(config.board) matches Ok(board) ==> board.len() >= 3,
    ensures
        match config::board_of(config.board) {
            Err(e) => r == Err::<CardConfig, Error>(e),
            Ok(board) => {
                &&& r is Ok
                &&& r->Ok_0.range == range
                &&& cards_of(board, r->Ok_0)
                &&& board.len() <= 5 ==> dealt(r->Ok_0) == Seq::new(
                    board.len(),
                    |i: int| cards::swapped(board[i] as int) as u8,
                )
            },
        },
{
    let board: Vec<u8> = match config.board_cards() {
        Ok(board) => board,
        Err(e) => return Err(e),
    };
    let turn: Option<u8> = if board.len() > 3 {
        Some(cards::to_lib(board[3]))
    } else {
        None
    };
    let river: Option<u8> = if board.len() > 4 {
        Some(cards::to_lib(board[4]))
    } else {
        None
    };
    let flop: [u8; 3] = [cards::to_lib(board[0]), cards::to_lib(board[1]), cards::to_lib(board[2])];
    let c: CardConfig = CardConfig { range, flop, turn, river };
    assert(board@.len() <= 5 ==> dealt(c) =~= Seq::new(
        board@.len(),
        |i: int| cards::swapped(board@[i] as int) as u8,
    ));
    Ok(c)
}

/// Refuses a game in which a player has no hand that the board leaves.
pub fn check_hands(oop: usize, ip: usize) -> (r: Result<(), Error>)
    ensures
        r == (if oop == 0 || ip == 0 {
            Err::<(), Error>(Error::NoHands)
        } else {
            Ok::<(), Error>(())
        }),
{
    if oop == 0 || ip == 0 {
        Err(Error::NoHands)
    } else {
        Ok(())
    }
}

} // verus!
