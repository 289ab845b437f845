//! What holds of jobs: which are valid, why others are refused, and what the engine is told of them.

use vstd::arithmetic::power2;
use vstd::arithmetic::power2::pow2;
use vstd::prelude::*;

use crate::arith;
use crate::cards;
use crate::cli;
use crate::cli::MemoryMode;
use crate::config;
use crate::config::{BetSizing, Donk, JobConfig, Sizing, Street, StreetSizing};
use crate::error::Error;
use crate::export::BlobKey;
use crate::files;
use crate::ieee::Double;
use crate::money_laws;
use crate::plan;
use crate::plan::TreeConfig;
use crate::range;
use crate::sizes;

verus! {

/// A number from zero to `top`.
pub open spec fn from_zero_to(d: Double, top: int) -> bool {
    !d.nan() && 0 <= d.value() <= top * pow2(1074)
}

/// A number above zero.
pub open spec fn positive(d: Double) -> bool {
    !d.nan() && d.value() > 0
}

/// A number below zero.
pub open spec fn below_zero(d: Double) -> bool {
    !d.nan() && d.value() < 0
}

/// A bet size: above zero, and no more than a hundred times the pot.
pub open spec fn is_size(d: Double) -> bool {
    !d.nan() && 0 < d.value() <= 10000 * pow2(1074)
}

pub open spec fn all_sizes(s: Seq<Double>) -> bool {
    forall|i: int| 0 <= i < s.len() ==> is_size(#[trigger] s[i])
}

/// The sizes of both players on a street.
pub open spec fn street_sizes(s: StreetSizing<Double>) -> bool {
    all_sizes(s.oop.bet@) && all_sizes(s.oop.raise@) && all_sizes(s.ip.bet@) && all_sizes(s.ip.raise@)
}

/// A board of three to five different cards of the deck.
pub open spec fn is_board(b: Seq<u8>) -> bool {
    &&& 3 <= b.len() <= 5
    &&& forall|i: int| 0 <= i < b.len() ==> #[trigger] b[i] < 52
    &&& forall|i: int, j: int| 0 <= i < j < b.len() ==> #[trigger] b[i] != #[trigger] b[j]
}

/// A range that is not blank, that can be written for the engine, and that the engine takes.
pub open spec fn is_range(s: Seq<char>, accepted: bool) -> bool {
    range::trim(s).len() > 0 && range::notation(s) is Ok && accepted
}

proof fn lemma_constants()
    ensures
        (Double { bits: 0 }).value() == 0,
        (Double { bits: config::ONE }).value() == 1 * pow2(1074),
        (Double { bits: config::CHIP_SCALE }).value() == 100 * pow2(1074),
        (Double { bits: config::LARGEST_SIZE }).value() == 10000 * pow2(1074),
        !(Double { bits: 0 }).nan(),
        !(Double { bits: config::ONE }).nan(),
        !(Double { bits: config::CHIP_SCALE }).nan(),
        !(Double { bits: config::LARGEST_SIZE }).nan(),
{
    arith::lemma_one();
    power2::lemma2_to64();
    power2::lemma2_to64_rest();
    power2::lemma_pow2_adds(46, 1028);
    power2::lemma_pow2_adds(39, 1035);
    let p = pow2(1028) as int;
    assert(0x19_0000_0000_0000 * p == 100 * (pow2(46) * p)) by (nonlinear_arith)
        requires
            pow2(46) == 0x4000_0000_0000,
    ;
    let q = pow2(1035) as int;
    assert(0x13_8800_0000_0000 * q == 10000 * (pow2(39) * q)) by (nonlinear_arith)
        requires
            pow2(39) == 0x80_0000_0000,
    ;
    let largest = Double { bits: config::LARGEST_SIZE };
    assert(largest.exponent() == 1036 && largest.fraction() == 0x3_8800_0000_0000);
}

proof fn lemma_sizes(s: Seq<Double>)
    ensures
        config::proper_sizes(s) <==> all_sizes(s),
{
    lemma_constants();
    if config::proper_sizes(s) {
        assert forall|i: int| 0 <= i < s.len() implies is_size(#[trigger] s[i]) by {
            assert(config::proper_size(s[i]));
        }
    }
    if all_sizes(s) {
        assert forall|i: int| 0 <= i < s.len() implies config::proper_size(#[trigger] s[i]) by {
            assert(is_size(s[i]));
        }
    }
}

proof fn lemma_street_sizes(s: StreetSizing<Double>, street: u8)
    ensures
        config::street_fault(s, street) is None <==> street_sizes(s),
        config::street_fault(s, street) matches Some(e) ==> {
            ||| e == Error::BetSize(street, 0) && !(all_sizes(s.oop.bet@) && all_sizes(s.oop.raise@))
            ||| e == Error::BetSize(street, 1) && !(all_sizes(s.ip.bet@) && all_sizes(s.ip.raise@))
        },
{
    lemma_sizes(s.oop.bet@);
    lemma_sizes(s.oop.raise@);
    lemma_sizes(s.ip.bet@);
    lemma_sizes(s.ip.raise@);
}

proof fn lemma_strays(b: Seq<u8>, k: int)
    requires
        0 <= k <= b.len(),
    ensures
        cards::first_stray(b, k) is None <==> forall|i: int| k <= i < b.len() ==> #[trigger] b[i] < 52,
        cards::first_stray(b, k) matches Some(c) ==> c >= 52 && b.contains(c),
    decreases b.len() - k,
{
    if k < b.len() {
        lemma_strays(b, k + 1);
        if b[k] >= 52 {
            assert(b.contains(b[k]));
        }
    }
}

/// What a job must be like.
pub open spec fn is_valid(c: JobConfig, accepted: Seq<bool>) -> bool {
    &&& config::board_of(c.board) is Ok
    &&& is_board(config::board_of(c.board)->Ok_0)
    &&& positive(c.pot)
    &&& positive(c.effective_stack)
    &&& arith::chips_of(c.pot) >= 1
    &&& arith::chips_of(c.effective_stack) >= 1
    &&& 1 <= c.iterations <= 5000
    &&& from_zero_to(c.all_in_threshold, 1)
    &&& !below_zero(c.add_all_in_threshold)
    &&& !below_zero(c.merging_threshold)
    &&& !below_zero(c.target_exploitability)
    &&& c.river_prune_reach matches Some(reach) ==> from_zero_to(reach, 1)
    &&& c.rake matches Some(rake) ==> from_zero_to(rake.percent, 100) && !below_zero(rake.cap_bb)
    &&& is_range(c.ranges@[0]@, accepted[0])
    &&& is_range(c.ranges@[1]@, accepted[1])
    &&& street_sizes(c.sizing.flop)
    &&& street_sizes(c.sizing.turn)
    &&& street_sizes(c.sizing.river)
    &&& c.donk matches Some(donk) ==> all_sizes(donk.turn@) && all_sizes(donk.river@)
}

/// A job is taken exactly where all that it says is in order.
pub proof fn law_valid_jobs_are_taken(c: JobConfig, accepted: Seq<bool>)
    ensures
        config::job_fault(c, accepted) is None <==> is_valid(c, accepted),
{
    lemma_constants();
    lemma_street_sizes(c.sizing.flop, 0);
    lemma_street_sizes(c.sizing.turn, 1);
    lemma_street_sizes(c.sizing.river, 2);
    if c.donk is Some {
        lemma_sizes(c.donk->0.turn@);
        lemma_sizes(c.donk->0.river@);
    }
    if config::board_of(c.board) is Ok {
        let b = config::board_of(c.board)->Ok_0;
        if 3 <= b.len() <= 5 {
            lemma_strays(b, 0);
            lemma_faultless_board(b);
        }
    }
}

proof fn lemma_faultless_board(b: Seq<u8>)
    requires
        3 <= b.len() <= 5,
        cards::first_stray(b, 0) is None <==> forall|i: int| 0 <= i < b.len() ==> #[trigger] b[i] < 52,
    ensures
        config::board_fault(b) is None <==> is_board(b),
{
    if exists|i: int, j: int| 0 <= i < j < b.len() && #[trigger] b[i] == #[trigger] b[j] {
        let (i, j) = choose|i: int, j: int| 0 <= i < j < b.len() && #[trigger] b[i] == #[trigger] b[j];
        assert(b[i] == b[j]);
        assert(!is_board(b));
    }
}

/// Whether an error says what is wrong with a job.
pub open spec fn says_why(c: JobConfig, accepted: Seq<bool>, e: Error) -> bool {
    let board = config::board_of(c.board);
    match e {
        Error::BoardLength(n) => board is Ok ==> n == board->Ok_0.len() as usize && !(3
            <= board->Ok_0.len() <= 5),
        Error::CardOutOfRange(card) => board is Ok ==> card >= 52 && board->Ok_0.contains(card),
        Error::DuplicateCard => board is Ok ==> exists|i: int, j: int|
            0 <= i < j < board->Ok_0.len() && #[trigger] board->Ok_0[i] == #[trigger] board->Ok_0[j],
        Error::Pot => !positive(c.pot),
        Error::Stack => !positive(c.effective_stack),
        Error::NoChips => arith::chips_of(c.pot) <= 0 || arith::chips_of(c.effective_stack) <= 0,
        Error::Iterations(n) => n == c.iterations && (n == 0 || n > 5000),
        Error::AllInThreshold => !from_zero_to(c.all_in_threshold, 1),
        Error::AddAllInThreshold => below_zero(c.add_all_in_threshold),
        Error::MergingThreshold => below_zero(c.merging_threshold),
        Error::TargetExploitability => below_zero(c.target_exploitability),
        Error::RiverPruneReach => c.river_prune_reach is Some && !from_zero_to(
            c.river_prune_reach->0,
            1,
        ),
        Error::RakePercent => c.rake is Some && !from_zero_to(c.rake->0.percent, 100),
        Error::RakeCap => c.rake is Some && below_zero(c.rake->0.cap_bb),
        Error::BlankRange(player) => player <= 1 && range::trim(c.ranges@[player as int]@).len() == 0,
        Error::RefusedRange(player) => player <= 1 && !accepted[player as int],
        Error::BetSize(street, player) => {
            let s = if street == 0 {
                c.sizing.flop
            } else if street == 1 {
                c.sizing.turn
            } else {
                c.sizing.river
            };
            let p = if player == 0 {
                s.oop
            } else {
                s.ip
            };
            street <= 2 && player <= 1 && !(all_sizes(p.bet@) && all_sizes(p.raise@))
        },
        Error::DonkSize => c.donk is Some && !(all_sizes(c.donk->0.turn@) && all_sizes(
            c.donk->0.river@,
        )),
        _ => {
            ||| board == Err::<Seq<u8>, Error>(e)
            ||| range::notation(c.ranges@[0]@) == Err::<Seq<char>, Error>(e)
            ||| range::notation(c.ranges@[1]@) == Err::<Seq<char>, Error>(e)
        },
    }
}

/// A job that is refused is refused for what is wrong with it.
#[verifier::rlimit(40)]
pub proof fn law_refusals_say_why(c: JobConfig, accepted: Seq<bool>)
    requires
        config::job_fault(c, accepted) is Some,
        config::board_of(c.board) is Ok,
    ensures
        ({
            let e = config::job_fault(c, accepted)->0;
            ||| says_why(c, accepted, e)
            ||| range::notation(c.ranges@[0]@) == Err::<Seq<char>, Error>(e)
            ||| range::notation(c.ranges@[1]@) == Err::<Seq<char>, Error>(e)
        }),
{
    lemma_constants();
    lemma_street_sizes(c.sizing.flop, 0);
    lemma_street_sizes(c.sizing.turn, 1);
    lemma_street_sizes(c.sizing.river, 2);
    if c.donk is Some {
        lemma_sizes(c.donk->0.turn@);
        lemma_sizes(c.donk->0.river@);
    }
    let b = config::board_of(c.board)->Ok_0;
    if 3 <= b.len() <= 5 {
        lemma_strays(b, 0);
    }
}

/// A board is on the flop with three cards, on the turn with four and on the river with five, and
/// with any other number it has no street; the streets are numbered from zero in that order.
pub proof fn law_streets_go_by_the_board(c: JobConfig)
    requires
        config::board_of(c.board) is Ok,
    ensures
        ({
            let n = config::board_of(c.board)->Ok_0.len();
            let street = config::street_of(c.board);
            &&& street is Ok <==> 3 <= n <= 5
            &&& street is Ok ==> street->Ok_0.number() == n - 3
            &&& street is Err ==> street->Err_0 == Error::BoardLength(n as usize)
        }),
{
}

/// A street's name is that of the file of a game that starts on it.
pub proof fn law_streets_name_their_files(street: Street)
    ensures
        files::path_of(BlobKey::Start, street.number()) == Ok::<Seq<char>, Error>(
            street.name() + ".bin"@,
        ),
{
    reveal_strlit("flop.bin");
    reveal_strlit("turn.bin");
    reveal_strlit("river.bin");
    reveal_strlit("flop");
    reveal_strlit("turn");
    reveal_strlit("river");
    reveal_strlit(".bin");
    let path = files::path_of(BlobKey::Start, street.number())->Ok_0;
    assert(path =~= street.name() + ".bin"@);
}

/// The file of a later street is in that street's directory, under the letters of its cards.
pub proof fn law_files_are_named_by_cards(turn: u8, river: u8, street: u8)
    requires
        turn < 52,
        river < 52,
    ensures
        ({
            let a = cards::card_text(turn as int);
            let b = cards::card_text(river as int);
            &&& files::path_of(BlobKey::Turn(turn), street) == Ok::<Seq<char>, Error>(
                Street::Turn.name() + seq!['/', a[0], a[1]] + ".bin"@,
            )
            &&& files::path_of(BlobKey::River(turn, river), street) == Ok::<Seq<char>, Error>(
                Street::River.name() + seq!['/', a[0], a[1], '/', b[0], b[1]] + ".bin"@,
            )
        }),
{
    reveal_strlit("turn");
    reveal_strlit("river");
    reveal_strlit("turn/");
    reveal_strlit("river/");
    reveal_strlit("/");
    reveal_strlit(".bin");
    let a = cards::card_text(turn as int);
    let b = cards::card_text(river as int);
    assert(files::path_of(BlobKey::Turn(turn), street)->Ok_0 =~= Street::Turn.name() + seq![
        '/',
        a[0],
        a[1],
    ] + ".bin"@);
    assert(files::path_of(BlobKey::River(turn, river), street)->Ok_0 =~= Street::River.name() + seq![
        '/',
        a[0],
        a[1],
        '/',
        b[0],
        b[1],
    ] + ".bin"@);
}

/// Whether the texts are those of one player's bets and raises.
pub open spec fn player_texts(s: BetSizing<Double>, shown: BetSizing<String>, bet: Seq<char>, raise: Seq<char>) -> bool {
    &&& bet == sizes::size_text(s.bet@, shown.bet@, s.bet@.len() as int)
    &&& raise == sizes::size_text(s.raise@, shown.raise@, s.raise@.len() as int)
}

/// The engine is told the street that the board is on, pot and stack in chips, and for each street
/// and player the sizes that the job has there; donk bets only where the job has sizes for them.
#[verifier::rlimit(40)]
pub proof fn law_trees_are_as_jobs_say(
    c: JobConfig,
    shown: Sizing<String>,
    shown_donk: Donk<String>,
    street: Street,
    t: TreeConfig,
)
    requires
        config::street_of(c.board) == Ok::<Street, Error>(street),
        plan::tree_of(c, shown, shown_donk, street, t),
    ensures
        t.initial_state.number() == config::board_of(c.board)->Ok_0.len() - 3,
        t.starting_pot == arith::chips_of(c.pot),
        t.effective_stack == arith::chips_of(c.effective_stack),
        t.rake_rate == config::rake_rate_of(c.rake),
        t.rake_cap == config::rake_cap_of(c.rake),
        player_texts(
            c.sizing.flop.oop,
            shown.flop.oop,
            t.flop_bet_sizes.oop.bet@,
            t.flop_bet_sizes.oop.raise@,
        ),
        player_texts(
            c.sizing.flop.ip,
            shown.flop.ip,
            t.flop_bet_sizes.ip.bet@,
            t.flop_bet_sizes.ip.raise@,
        ),
        player_texts(
            c.sizing.turn.oop,
            shown.turn.oop,
            t.turn_bet_sizes.oop.bet@,
            t.turn_bet_sizes.oop.raise@,
        ),
        player_texts(
            c.sizing.turn.ip,
            shown.turn.ip,
            t.turn_bet_sizes.ip.bet@,
            t.turn_bet_sizes.ip.raise@,
        ),
        player_texts(
            c.sizing.river.oop,
            shown.river.oop,
            t.river_bet_sizes.oop.bet@,
            t.river_bet_sizes.oop.raise@,
        ),
        player_texts(
            c.sizing.river.ip,
            shown.river.ip,
            t.river_bet_sizes.ip.bet@,
            t.river_bet_sizes.ip.raise@,
        ),
        t.turn_donk_sizes is Some <==> c.donk is Some && c.donk->0.turn@.len() > 0,
        t.river_donk_sizes is Some <==> c.donk is Some && c.donk->0.river@.len() > 0,
        t.turn_donk_sizes is Some ==> t.turn_donk_sizes->0@ == sizes::size_text(
            c.donk->0.turn@,
            shown_donk.turn@,
            c.donk->0.turn@.len() as int,
        ),
        t.river_donk_sizes is Some ==> t.river_donk_sizes->0@ == sizes::size_text(
            c.donk->0.river@,
            shown_donk.river@,
            c.donk->0.river@.len() as int,
        ),
        t.add_allin_threshold == c.add_all_in_threshold,
        t.force_allin_threshold == c.all_in_threshold,
        t.merging_threshold == c.merging_threshold,
{
}

/// The number that digits stand for.
pub open spec fn number_of(s: Seq<char>) -> int
    decreases s.len(),
{
    if s.len() == 0 {
        0
    } else {
        10 * number_of(s.drop_last()) + (s.last() as int - '0' as int)
    }
}

/// A number is written with the digits that stand for it, and no zero in front of others.
pub proof fn law_digits_are_those_of_the_number(n: nat)
    ensures
        number_of(sizes::digits(n)) == n,
        sizes::digits(n).len() > 0,
        forall|i: int|
            0 <= i < sizes::digits(n).len() ==> '0' <= #[trigger] sizes::digits(n)[i] <= '9',
        sizes::digits(n).len() > 1 ==> sizes::digits(n)[0] != '0',
    decreases n,
{
    let s = sizes::digits(n);
    let last = ('0' as int + n % 10) as char;
    assert(last as int == '0' as int + n % 10);
    if n < 10 {
        assert(s.drop_last() =~= Seq::empty());
        assert(number_of(Seq::<char>::empty()) == 0);
    } else {
        law_digits_are_those_of_the_number(n / 10);
        let before = sizes::digits(n / 10);
        assert(s.drop_last() =~= before);
        assert forall|i: int| 0 <= i < s.len() implies '0' <= #[trigger] s[i] <= '9' by {
            if i < before.len() {
                assert(s[i] == before[i]);
            }
        }
        assert(s[0] == before[0]);
        if n / 10 < 10 {
            let first = ('0' as int + (n / 10) % 10) as char;
            assert(before =~= seq![first]);
            assert(first as int == '0' as int + n / 10);
        } else {
            assert(before == sizes::digits(n / 10 / 10).push(('0' as int + (n / 10) % 10) as char));
            law_digits_are_those_of_the_number(n / 10 / 10);
        }
    }
}

/// A flag is on for "on", "true", "1" and "yes" and off for "off", "false", "0" and "no", in capital
/// or small letters and with blanks around, and anything else is refused.
pub proof fn law_flags_have_words(s: Seq<char>)
    ensures
        ({
            let word = cli::small(range::trim(s));
            let on = word == "on"@ || word == "true"@ || word == "1"@ || word == "yes"@;
            let off = word == "off"@ || word == "false"@ || word == "0"@ || word == "no"@;
            &&& cli::on_off(s) == Ok::<bool, Error>(true) <==> on
            &&& cli::on_off(s) == Ok::<bool, Error>(false) <==> off
            &&& cli::on_off(s) is Err ==> cli::on_off(s)->Err_0 == Error::NotOnOff
        }),
{
    reveal_strlit("on");
    reveal_strlit("true");
    reveal_strlit("1");
    reveal_strlit("yes");
    reveal_strlit("off");
    reveal_strlit("false");
    reveal_strlit("0");
    reveal_strlit("no");
    assert("on"@ =~= seq!['o', 'n']);
    assert("true"@ =~= seq!['t', 'r', 'u', 'e']);
    assert("1"@ =~= seq!['1']);
    assert("yes"@ =~= seq!['y', 'e', 's']);
    assert("off"@ =~= seq!['o', 'f', 'f']);
    assert("false"@ =~= seq!['f', 'a', 'l', 's', 'e']);
    assert("0"@ =~= seq!['0']);
    assert("no"@ =~= seq!['n', 'o']);
    assert("on"@[0] != "no"@[0]);
    assert("1"@[0] != "0"@[0]);
    assert("yes"@[0] != "off"@[0]);
}

/// The flags of a solve are taken exactly where nothing is locked, the memory mode is known and the
/// river's threshold, if there is one, is from zero to one. Otherwise the first of these that fails is
/// named.
pub proof fn law_flags_are_checked(locked: bool, memory: Seq<char>, reach: Option<Double>)
    ensures
        ({
            let r = cli::solve_flags(locked, memory, reach);
            let mode = cli::mode_of(memory);
            let fits = reach is None || from_zero_to(reach->0, 1);
            &&& r is Ok <==> !locked && mode is Ok && fits
            &&& r is Ok ==> r->Ok_0 == mode->Ok_0
            &&& r is Err && locked ==> r->Err_0 == Error::LockUnsupported
            &&& r is Err && !locked && mode is Err ==> r->Err_0 == Error::UnknownMemoryMode
            &&& r is Err && !locked && mode is Ok ==> r->Err_0 == Error::RiverPruneReach
        }),
{
    lemma_constants();
}

/// The three memory modes are known by their names, and by nothing else.
pub proof fn law_memory_modes_have_names(s: Seq<char>)
    ensures
        cli::mode_of(s) == Ok::<MemoryMode, Error>(MemoryMode::Auto) <==> s == "auto"@,
        cli::mode_of(s) == Ok::<MemoryMode, Error>(MemoryMode::Full) <==> s == "full"@,
        cli::mode_of(s) == Ok::<MemoryMode, Error>(MemoryMode::Compressed) <==> s == "compressed"@,
        cli::mode_of(s) is Err ==> cli::mode_of(s)->Err_0 == Error::UnknownMemoryMode,
{
    reveal_strlit("auto");
    reveal_strlit("full");
    reveal_strlit("compressed");
    assert("auto"@ =~= seq!['a', 'u', 't', 'o']);
    assert("full"@ =~= seq!['f', 'u', 'l', 'l']);
    assert("compressed"@ =~= seq!['c', 'o', 'm', 'p', 'r', 'e', 's', 's', 'e', 'd']);
    assert(seq!['a', 'u', 't', 'o'][0] != seq!['f', 'u', 'l', 'l'][0]);
    assert(seq!['a', 'u', 't', 'o'][0] != seq!['c', 'o', 'm', 'p', 'r', 'e', 's', 's', 'e', 'd'][0]);
    assert(seq!['f', 'u', 'l', 'l'][0] != seq!['c', 'o', 'm', 'p', 'r', 'e', 's', 's', 'e', 'd'][0]);
}

/// Whole numbers of percent count as what they are.
pub proof fn law_whole_sizes_are_whole(n: int)
    requires
        0 <= n < 0x20_0000_0000_0000,
    ensures
        sizes::whole_of(arith::whole_double(n)) == Some(n),
{
    let t = pow2(1074) as int;
    let v = arith::whole_double(n);
    power2::lemma_pow2_pos(1074);
    if n > 0 {
        arith::lemma_whole_is_exact(n);
    } else {
        assert(0 * t == 0);
        arith::lemma_zero(1, 0x20_0000_0000_0000);
    }
    money_laws::lemma_ordinary(v);
    assert(v.value() == n * t);
    assert(2 * (n * t) + t == n * (2 * t) + t) by (nonlinear_arith);
    vstd::arithmetic::div_mod::lemma_fundamental_div_mod_converse(2 * (n * t) + t, 2 * t, n, t);
    money_laws::lemma_ordinary(Double { bits: sizes::NEARLY });
}

/// Whether text has no separator in it.
pub open spec fn unbroken(s: Seq<char>) -> bool {
    forall|i: int| 0 <= i < s.len() ==> !range::separator(#[trigger] s[i])
}

proof fn lemma_pieces(a: Seq<char>, b: Seq<char>)
    requires
        unbroken(b),
    ensures
        range::pieces(a).len() > 0,
        range::pieces(a + b) == range::pieces(a).drop_last().push(range::pieces(a).last() + b),
    decreases b.len(),
{
    lemma_some_piece(a);
    let before = range::pieces(a);
    if b.len() == 0 {
        assert(a + b =~= a);
        assert(before.last() + b =~= before.last());
        assert(before.drop_last().push(before.last()) =~= before);
    } else {
        let c = b.drop_last();
        assert forall|i: int| 0 <= i < c.len() implies !range::separator(#[trigger] c[i]) by {
            assert(c[i] == b[i]);
        }
        lemma_pieces(a, c);
        assert((a + b).drop_last() =~= a + c);
        assert((a + b).last() == b[b.len() - 1]);
        let p = range::pieces(a + c);
        assert(p.drop_last() =~= before.drop_last());
        assert(p.last() == before.last() + c);
        assert((before.last() + c).push(b.last()) =~= before.last() + b);
    }
}

proof fn lemma_some_piece(s: Seq<char>)
    ensures
        range::pieces(s).len() > 0,
    decreases s.len(),
{
    if s.len() > 0 {
        lemma_some_piece(s.drop_last());
    }
}

/// A list of sizes is written as one piece for each size, in their order, parted by commas: the size
/// and a percent sign.
pub proof fn law_sizes_are_parted_by_commas(list: Seq<Double>, shown: Seq<String>, k: int)
    requires
        0 < k <= list.len(),
        forall|i: int| 0 <= i < list.len() ==> unbroken(sizes::label(#[trigger] list[i], shown[i]@)),
    ensures
        range::pieces(sizes::size_text(list, shown, k)) == Seq::new(
            k as nat,
            |i: int| sizes::label(list[i], shown[i]@) + seq!['%'],
        ),
    decreases k,
{
    let this = sizes::label(list[k - 1], shown[k - 1]@);
    let piece = this + seq!['%'];
    assert(this.push('%') =~= piece);
    assert(unbroken(this));
    assert forall|i: int| 0 <= i < piece.len() implies !range::separator(#[trigger] piece[i]) by {
        if i < this.len() {
            assert(piece[i] == this[i]);
        }
    }
    let all = Seq::new(k as nat, |i: int| sizes::label(list[i], shown[i]@) + seq!['%']);
    if k == 1 {
        let nothing = Seq::<char>::empty();
        lemma_pieces(nothing, piece);
        assert(nothing + piece =~= piece);
        assert(range::pieces(nothing) =~= seq![nothing]);
        assert(range::pieces(piece) =~= all);
    } else {
        law_sizes_are_parted_by_commas(list, shown, k - 1);
        let before = sizes::size_text(list, shown, k - 1);
        let a = before.push(',');
        assert(a.drop_last() =~= before);
        let nothing = Seq::<char>::empty();
        assert(range::pieces(a) == range::pieces(before).push(nothing));
        lemma_pieces(a, piece);
        assert(nothing + piece =~= piece);
        assert(range::pieces(a).drop_last() =~= range::pieces(before));
        assert(range::pieces(a + piece) =~= all);
    }
}

} // verus!
