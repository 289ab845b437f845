//! Cards and combos.
//!
//! A card is `rank * 4 + suit`: ranks go from 0, the deuce, to 12, the ace; suits are spades,
//! hearts, diamonds and clubs, from 0 to 3. The engine has the same ranks and the suits in the
//! opposite order, so one function goes both ways.

use vstd::prelude::*;

use crate::error::Error;
use crate::text;

verus! {

/// The letters of the suits.
pub const SUIT_CHARS: [char; 4] = ['s', 'h', 'd', 'c'];

/// The letters of the ranks.
pub const RANK_CHARS: [char; 13] = [
    '2', '3', '4', '5', '6', '7', '8', '9', 'T', 'J', 'Q', 'K', 'A',
];

/// How many combos of two cards there are.
pub const NUM_COMBOS: usize = 1326;

/// The card with the suits in the opposite order.
pub open spec fn swapped(card: int) -> int {
    card / 4 * 4 + (3 - card % 4)
}

/// A card of the engine as a card of ours, or the other way round.
pub fn swap_encoding(card: u8) -> (r: u8)
    ensures
        r == swapped(card as int),
{
    card / 4 * 4 + (3 - card % 4)
}

/// A card of the engine as a card of ours.
pub fn from_lib(card: u8) -> (r: u8)
    ensures
        r == swapped(card as int),
{
    swap_encoding(card)
}

/// A card of ours as a card of the engine.
pub fn to_lib(card: u8) -> (r: u8)
    ensures
        r == swapped(card as int),
{
    swap_encoding(card)
}

/// The rank of a card.
pub fn rank_of(card: u8) -> (r: u8)
    ensures
        r == card / 4,
{
    card / 4
}

/// The suit of a card.
pub fn suit_of(card: u8) -> (r: u8)
    ensures
        r == card % 4,
{
    card % 4
}

/// The two letters of a card.
pub open spec fn card_text(card: int) -> Seq<char> {
    seq![RANK_CHARS@[card / 4], SUIT_CHARS@[card % 4]]
}

/// A card in letters, as in "As".
pub fn card_to_string(card: u8) -> (r: Result<String, Error>)
    ensures
        match r {
            Ok(s) => card < 52 && s@ == card_text(card as int),
            Err(e) => card >= 52 && e == Error::CardOutOfRange(card),
        },
{
    if card >= 52 {
        return Err(Error::CardOutOfRange(card));
    }
    let mut out: String = String::new();
    out.push(RANK_CHARS[rank_of(card) as usize]);
    out.push(SUIT_CHARS[suit_of(card) as usize]);
    assert(out@ =~= card_text(card as int));
    Ok(out)
}

/// The first place from `k` on at which a letter stands in a table.
pub open spec fn place_of(table: Seq<char>, c: char, k: int) -> Option<int>
    decreases table.len() - k,
{
    if k < 0 || k >= table.len() {
        None
    } else if table[k] == c {
        Some(k)
    } else {
        place_of(table, c, k + 1)
    }
}

/// The card that text names: a rank and a suit, capital or small.
pub open spec fn parse_card(s: Seq<char>) -> Result<u8, Error> {
    if s.len() != 2 {
        Err(Error::CardLength)
    } else {
        match place_of(RANK_CHARS@, text::upper(s[0]), 0) {
            None => Err(Error::UnknownRank(s[0])),
            Some(rank) => match place_of(SUIT_CHARS@, text::lower(s[1]), 0) {
                None => Err(Error::UnknownSuit(s[1])),
                Some(suit) => Ok((rank * 4 + suit) as u8),
            },
        }
    }
}

fn find(table: &[char], c: char) -> (r: Option<usize>)
    requires
        table.len() <= 13,
    ensures
        match place_of(table@, c, 0) {
            None => r is None,
            Some(k) => r is Some && r->0 == k && k < table@.len(),
        },
{
    let mut i: usize = 0;
    while i < table.len()
        invariant
            i <= table.len(),
            place_of(table@, c, 0) == place_of(table@, c, i as int),
        decreases table.len() - i,
    {
        if table[i] == c {
            return Some(i);
        }
        i = i + 1;
    }
    None
}

/// The card of two letters.
fn card_from_pair(first: char, second: char) -> (r: Result<u8, Error>)
    ensures
        r == parse_card(seq![first, second]),
{
    let rank: usize = match find(RANK_CHARS.as_slice(), text::to_upper(first)) {
        Some(rank) => rank,
        None => return Err(Error::UnknownRank(first)),
    };
    let suit: usize = match find(SUIT_CHARS.as_slice(), text::to_lower(second)) {
        Some(suit) => suit,
        None => return Err(Error::UnknownSuit(second)),
    };
    Ok((rank * 4 + suit) as u8)
}

/// The card that text such as "As" names.
pub fn card_from_str(s: &str) -> (r: Result<u8, Error>)
    ensures
        r == parse_card(s@),
{
    let chars: Vec<char> = text::chars_of(s);
    if chars.len() != 2 {
        return Err(Error::CardLength);
    }
    assert(s@ =~= seq![s@[0], s@[1]]);
    card_from_pair(chars[0], chars[1])
}

/// The pieces of two letters that text is cut into; the last one may be a single letter.
pub open spec fn piece(s: Seq<char>, i: int) -> Seq<char> {
    if 2 * i + 2 <= s.len() {
        s.subrange(2 * i, 2 * i + 2)
    } else {
        s.subrange(2 * i, s.len() as int)
    }
}

/// The cards of the first `k` pieces.
pub open spec fn parse_pieces(s: Seq<char>, k: int) -> Result<Seq<u8>, Error>
    decreases k,
{
    if k <= 0 {
        Ok(Seq::empty())
    } else {
        match parse_pieces(s, k - 1) {
            Err(e) => Err(e),
            Ok(cards) => match parse_card(piece(s, k - 1)) {
                Err(e) => Err(e),
                Ok(card) => Ok(cards.push(card)),
            },
        }
    }
}

/// The cards that a board's text names, blanks left out.
pub open spec fn parse_board(s: Seq<char>) -> Result<Seq<u8>, Error> {
    let cleaned = text::without_blanks(s);
    if text::utf8_len(cleaned) % 2 != 0 {
        Err(Error::BoardText)
    } else {
        parse_pieces(cleaned, (cleaned.len() as int + 1) / 2)
    }
}

proof fn lemma_parse_stop(s: Seq<char>, j: int, k: int)
    requires
        j <= k,
        parse_pieces(s, j) is Err,
    ensures
        parse_pieces(s, k) == parse_pieces(s, j),
    decreases k,
{
    if j < k {
        lemma_parse_stop(s, j, k - 1);
    }
}

/// The cards of a board such as "As7d2c".
pub fn board_from_str(s: &str) -> (r: Result<Vec<u8>, Error>)
    ensures
        match parse_board(s@) {
            Err(e) => r == Err::<Vec<u8>, Error>(e),
            Ok(cards) => r is Ok && r->Ok_0@ == cards,
        },
{
    let chars: Vec<char> = text::chars_of(s);
    let cleaned: Vec<char> = text::strip_blanks(&chars);
    let mut odd: bool = false;
    for i in 0..cleaned.len()
        invariant
            odd == (text::utf8_len(cleaned@.take(i as int)) % 2 != 0),
    {
        assert(cleaned@.take(i + 1).drop_last() =~= cleaned@.take(i as int));
        if text::odd_width(cleaned[i]) {
            odd = !odd;
        }
    }
    assert(cleaned@.take(cleaned@.len() as int) =~= cleaned@);
    if odd {
        return Err(Error::BoardText);
    }
    let n: usize = cleaned.len();
    let pieces: usize = n / 2 + n % 2;
    let mut out: Vec<u8> = Vec::new();
    for i in 0..pieces
        invariant
            n == cleaned@.len(),
            pieces == (n + 1) / 2,
            parse_pieces(cleaned@, i as int) == Ok::<Seq<u8>, Error>(out@),
            parse_board(s@) == parse_pieces(cleaned@, pieces as int),
    {
        if 2 * i + 1 >= n {
            proof {
                lemma_parse_stop(cleaned@, i + 1, pieces as int);
            }
            return Err(Error::CardLength);
        }
        assert(piece(cleaned@, i as int) =~= seq![cleaned@[2 * i], cleaned@[2 * i + 1]]);
        match card_from_pair(cleaned[2 * i], cleaned[2 * i + 1]) {
            Ok(card) => {
                out.push(card);
            },
            Err(e) => {
                proof {
                    lemma_parse_stop(cleaned@, i + 1, pieces as int);
                }
                return Err(e);
            },
        }
    }
    Ok(out)
}

/// The letters of the first `k` cards of a board.
pub open spec fn board_text(board: Seq<u8>, k: int) -> Seq<char>
    decreases k,
{
    if k <= 0 {
        Seq::empty()
    } else {
        board_text(board, k - 1) + card_text(board[k - 1] as int)
    }
}

/// The first card from `k` on that is not one of the 52.
pub open spec fn first_stray(board: Seq<u8>, k: int) -> Option<u8>
    decreases board.len() - k,
{
    if k < 0 || k >= board.len() {
        None
    } else if board[k] >= 52 {
        Some(board[k])
    } else {
        first_stray(board, k + 1)
    }
}

/// A board in letters.
pub fn board_to_string(board: &[u8]) -> (r: Result<String, Error>)
    ensures
        match first_stray(board@, 0) {
            Some(card) => r == Err::<String, Error>(Error::CardOutOfRange(card)),
            None => r is Ok && r->Ok_0@ == board_text(board@, board@.len() as int),
        },
{
    let mut out: String = String::new();
    for i in 0..board.len()
        invariant
            out@ == board_text(board@, i as int),
            first_stray(board@, 0) == first_stray(board@, i as int),
    {
        let card: u8 = board[i];
        if card >= 52 {
            return Err(Error::CardOutOfRange(card));
        }
        out.push(RANK_CHARS[rank_of(card) as usize]);
        out.push(SUIT_CHARS[suit_of(card) as usize]);
        assert(out@ =~= board_text(board@, i + 1));
    }
    Ok(out)
}

/// The index of the combo of a lower and a higher card.
pub open spec fn combo(lo: int, hi: int) -> int {
    hi * (hi - 1) / 2 + lo
}

/// The combo index of two cards, which must be two of the 52.
pub open spec fn combo_of(card1: u8, card2: u8) -> Result<u16, Error> {
    if card1 >= 52 || card2 >= 52 {
        Err(Error::CardsOutOfRange(card1, card2))
    } else if card1 == card2 {
        Err(Error::SameCard(card1))
    } else if card1 < card2 {
        Ok(combo(card1 as int, card2 as int) as u16)
    } else {
        Ok(combo(card2 as int, card1 as int) as u16)
    }
}

/// The combo index of two cards.
pub fn combo_index(card1: u8, card2: u8) -> (r: Result<u16, Error>)
    ensures
        r == combo_of(card1, card2),
{
    if card1 >= 52 || card2 >= 52 {
        return Err(Error::CardsOutOfRange(card1, card2));
    }
    if card1 == card2 {
        return Err(Error::SameCard(card1));
    }
    let (lo, hi): (u16, u16) = if card1 < card2 {
        (card1 as u16, card2 as u16)
    } else {
        (card2 as u16, card1 as u16)
    };
    proof {
        lemma_triangle(hi as int);
    }
    Ok(hi * (hi - 1) / 2 + lo)
}

proof fn lemma_triangle(hi: int)
    requires
        0 < hi <= 52,
    ensures
        0 <= hi * (hi - 1) <= 52 * 51,
        hi * (hi - 1) % 2 == 0,
        (hi + 1) * hi / 2 == hi * (hi - 1) / 2 + hi,
{
    assert(0 <= hi * (hi - 1) <= 52 * 51) by (nonlinear_arith)
        requires
            0 < hi <= 52,
    ;
    assert((hi + 1) * hi == hi * (hi - 1) + 2 * hi) by (nonlinear_arith);
    let k = hi / 2;
    if hi % 2 == 0 {
        assert(hi * (hi - 1) == 2 * (k * (hi - 1))) by (nonlinear_arith)
            requires
                hi == 2 * k,
        ;
    } else {
        assert(hi * (hi - 1) == 2 * (hi * k)) by (nonlinear_arith)
            requires
                hi - 1 == 2 * k,
        ;
    }
}

/// The triangle numbers grow.
proof fn lemma_triangles_grow(a: int, b: int)
    requires
        0 < a <= b <= 53,
    ensures
        a * (a - 1) / 2 <= b * (b - 1) / 2,
    decreases b - a,
{
    if a < b {
        lemma_triangles_grow(a, b - 1);
        lemma_triangle(b - 1);
    }
}

/// The two cards of a combo index, the lower one first.
pub fn combo_from_index(index: u16) -> (r: Result<(u8, u8), Error>)
    ensures
        match r {
            Ok((lo, hi)) => index < 1326 && lo < hi < 52 && combo(lo as int, hi as int) == index,
            Err(e) => index >= 1326 && e == Error::ComboOutOfRange(index),
        },
{
    if index as usize >= NUM_COMBOS {
        return Err(Error::ComboOutOfRange(index));
    }
    let mut hi: u16 = 1;
    let mut below: u16 = 0;
    proof {
        lemma_triangle(1);
    }
    while below + hi <= index
        invariant
            1 <= hi <= 51,
            below == hi * (hi - 1) / 2,
            below <= index < 1326,
        decreases 52 - hi,
    {
        proof {
            lemma_triangle(hi as int);
            assert(51 * 50 / 2 + 51 == 1326int);
        }
        below = below + hi;
        hi = hi + 1;
    }
    Ok(((index - below) as u8, hi as u8))
}

/// A card of the engine in letters.
pub fn lib_card_to_string(lib_card: u8) -> (r: Result<String, Error>)
    ensures
        match r {
            Ok(s) => lib_card < 52 && s@ == card_text(swapped(lib_card as int)),
            Err(e) => lib_card >= 52 && e == Error::CardOutOfRange(
                swapped(lib_card as int) as u8,
            ),
        },
{
    card_to_string(from_lib(lib_card))
}

/// Going to the engine's cards and back changes nothing, and ranks stay as they are.
pub proof fn law_swap_is_its_own_inverse(card: int)
    requires
        0 <= card,
    ensures
        swapped(swapped(card)) == card,
        swapped(card) / 4 == card / 4,
        card < 52 <==> swapped(card) < 52,
        0 <= swapped(card),
{
}

/// Reading a card's letters gives back the card, whether they are capital or small.
pub proof fn law_card_text_round_trip(card: int)
    requires
        0 <= card < 52,
    ensures
        parse_card(card_text(card)) == Ok::<u8, Error>(card as u8),
        parse_card(
            seq![text::lower(card_text(card)[0]), text::upper(card_text(card)[1])],
        ) == Ok::<u8, Error>(card as u8),
{
    let rank = card / 4;
    let suit = card % 4;
    reveal_with_fuel(place_of, 14);
    assert(RANK_CHARS@.len() == 13);
    assert(SUIT_CHARS@.len() == 4);
    assert(place_of(RANK_CHARS@, RANK_CHARS@[rank], 0) == Some(rank));
    assert(place_of(SUIT_CHARS@, SUIT_CHARS@[suit], 0) == Some(suit));
}

/// The order of two cards does not matter, and no two combos share an index.
pub proof fn law_combos_are_distinct(lo: int, hi: int, lo2: int, hi2: int)
    requires
        0 <= lo < hi < 52,
        0 <= lo2 < hi2 < 52,
        combo(lo, hi) == combo(lo2, hi2),
    ensures
        lo == lo2,
        hi == hi2,
{
    if hi < hi2 {
        lemma_triangle(hi);
        lemma_triangles_grow(hi + 1, hi2);
    } else if hi2 < hi {
        lemma_triangle(hi2);
        lemma_triangles_grow(hi2 + 1, hi);
    }
}

/// Combo indices run from 0 to 1325.
pub proof fn law_combo_range(lo: int, hi: int)
    requires
        0 <= lo < hi < 52,
    ensures
        0 <= combo(lo, hi) < 1326,
{
    lemma_triangle(hi);
    lemma_triangles_grow(hi + 1, 52);
    assert(52 * 51 / 2 == 1326int);
}

proof fn lemma_letters(card: int)
    requires
        0 <= card < 52,
    ensures
        card_text(card).len() == 2,
        !text::blank(card_text(card)[0]),
        !text::blank(card_text(card)[1]),
        text::utf8_width(card_text(card)[0]) == 1,
        text::utf8_width(card_text(card)[1]) == 1,
{
    let rank = card / 4;
    let suit = card % 4;
    assert(RANK_CHARS@[rank] == RANK_CHARS@[0] || RANK_CHARS@[rank] == RANK_CHARS@[1]
        || RANK_CHARS@[rank] == RANK_CHARS@[2] || RANK_CHARS@[rank] == RANK_CHARS@[3]
        || RANK_CHARS@[rank] == RANK_CHARS@[4] || RANK_CHARS@[rank] == RANK_CHARS@[5]
        || RANK_CHARS@[rank] == RANK_CHARS@[6] || RANK_CHARS@[rank] == RANK_CHARS@[7]
        || RANK_CHARS@[rank] == RANK_CHARS@[8] || RANK_CHARS@[rank] == RANK_CHARS@[9]
        || RANK_CHARS@[rank] == RANK_CHARS@[10] || RANK_CHARS@[rank] == RANK_CHARS@[11]
        || RANK_CHARS@[rank] == RANK_CHARS@[12]);
    assert(SUIT_CHARS@[suit] == SUIT_CHARS@[0] || SUIT_CHARS@[suit] == SUIT_CHARS@[1]
        || SUIT_CHARS@[suit] == SUIT_CHARS@[2] || SUIT_CHARS@[suit] == SUIT_CHARS@[3]);
}

proof fn lemma_board_text(board: Seq<u8>, k: int)
    requires
        0 <= k <= board.len(),
        forall|i: int| 0 <= i < board.len() ==> #[trigger] board[i] < 52,
    ensures
        board_text(board, k).len() == 2 * k,
        text::without_blanks(board_text(board, k)) == board_text(board, k),
        text::utf8_len(board_text(board, k)) == 2 * k,
        forall|i: int|
            0 <= i < k ==> #[trigger] piece(board_text(board, k), i) == card_text(board[i] as int),
    decreases k,
{
    let t = board_text(board, k);
    if k > 0 {
        lemma_board_text(board, k - 1);
        let before = board_text(board, k - 1);
        let card = board[k - 1] as int;
        assert(board[k - 1] < 52);
        lemma_letters(card);
        let one = before.push(card_text(card)[0]);
        assert(t =~= one.push(card_text(card)[1]));
        assert(one.drop_last() =~= before);
        assert(t.drop_last() =~= one);
        assert(text::without_blanks(one) =~= one);
        assert(text::without_blanks(t) =~= t);
        assert(text::utf8_len(one) == 2 * k - 1);
        assert forall|i: int| 0 <= i < k implies #[trigger] piece(t, i) == card_text(
            board[i] as int,
        ) by {
            if i < k - 1 {
                assert(piece(t, i) =~= piece(before, i));
            } else {
                assert(piece(t, i) =~= card_text(card));
            }
        }
    }
}

proof fn lemma_pieces(board: Seq<u8>, k: int)
    requires
        0 <= k <= board.len(),
        forall|i: int| 0 <= i < board.len() ==> #[trigger] board[i] < 52,
    ensures
        parse_pieces(board_text(board, board.len() as int), k) == Ok::<Seq<u8>, Error>(
            board.take(k),
        ),
    decreases k,
{
    let t = board_text(board, board.len() as int);
    if k > 0 {
        lemma_pieces(board, k - 1);
        lemma_board_text(board, board.len() as int);
        assert(board[k - 1] < 52);
        law_card_text_round_trip(board[k - 1] as int);
        assert(piece(t, k - 1) == card_text(board[k - 1] as int));
        assert(board.take(k) =~= board.take(k - 1).push(board[k - 1]));
    } else {
        assert(board.take(0) =~= Seq::empty());
    }
}

/// Reading a board's letters gives back the board.
pub proof fn law_board_text_round_trip(board: Seq<u8>)
    requires
        forall|i: int| 0 <= i < board.len() ==> #[trigger] board[i] < 52,
    ensures
        parse_board(board_text(board, board.len() as int)) == Ok::<Seq<u8>, Error>(board),
{
    let n = board.len() as int;
    lemma_board_text(board, n);
    lemma_pieces(board, n);
    assert(board.take(n) =~= board);
}

proof fn lemma_place_of(table: Seq<char>, c: char, k: int)
    requires
        0 <= k,
        place_of(table, c, k) is Some,
    ensures
        k <= place_of(table, c, k)->0 < table.len(),
        table[place_of(table, c, k)->0] == c,
    decreases table.len() - k,
{
    if table[k] != c {
        lemma_place_of(table, c, k + 1);
    }
}

/// Text that is read as a card is two letters, the card's rank and its suit, each capital or small.
/// Ranks go from the deuce to the ace, and suits from spades over hearts and diamonds to clubs.
pub proof fn law_cards_are_read_by_letters(s: Seq<char>)
    requires
        parse_card(s) is Ok,
    ensures
        ({
            let card = parse_card(s)->Ok_0;
            let ranks = "23456789TJQKA"@;
            let suits = "shdc"@;
            &&& card < 52
            &&& s.len() == 2
            &&& text::upper(s[0]) == ranks[card as int / 4]
            &&& text::lower(s[1]) == suits[card as int % 4]
            &&& card_text(card as int) == seq![ranks[card as int / 4], suits[card as int % 4]]
        }),
{
    reveal_strlit("23456789TJQKA");
    reveal_strlit("shdc");
    lemma_place_of(RANK_CHARS@, text::upper(s[0]), 0);
    lemma_place_of(SUIT_CHARS@, text::lower(s[1]), 0);
    let rank = place_of(RANK_CHARS@, text::upper(s[0]), 0)->0;
    let suit = place_of(SUIT_CHARS@, text::lower(s[1]), 0)->0;
    assert(RANK_CHARS@.len() == 13 && SUIT_CHARS@.len() == 4);
    assert(RANK_CHARS@ =~= "23456789TJQKA"@);
    assert(SUIT_CHARS@ =~= "shdc"@);
    let card = parse_card(s)->Ok_0;
    assert(card as int / 4 == rank && card as int % 4 == suit);
}

proof fn lemma_read_pieces(s: Seq<char>, k: int)
    requires
        0 <= k,
        2 * k <= s.len() + 1,
        parse_pieces(s, k) is Ok,
    ensures
        parse_pieces(s, k)->Ok_0.len() == k,
        2 * k <= s.len(),
        forall|i: int|
            0 <= i < k ==> parse_card(seq![s[2 * i], s[2 * i + 1]]) == Ok::<u8, Error>(
                #[trigger] parse_pieces(s, k)->Ok_0[i],
            ),
    decreases k,
{
    if k > 0 {
        lemma_read_pieces(s, k - 1);
        let list = parse_pieces(s, k)->Ok_0;
        let before = parse_pieces(s, k - 1)->Ok_0;
        assert(parse_card(piece(s, k - 1)) is Ok);
        assert(piece(s, k - 1).len() == 2);
        assert(piece(s, k - 1) =~= seq![s[2 * (k - 1)], s[2 * (k - 1) + 1]]);
        assert forall|i: int| 0 <= i < k implies parse_card(seq![s[2 * i], s[2 * i + 1]]) == Ok::<
            u8,
            Error,
        >(#[trigger] list[i]) by {
            if i < k - 1 {
                assert(list[i] == before[i]);
            }
        }
    }
}

/// A board is read two letters at a time, blanks left out: it has half as many cards as letters, and
/// each is the card of its two letters.
pub proof fn law_boards_are_read_card_by_card(s: Seq<char>)
    requires
        parse_board(s) is Ok,
    ensures
        ({
            let letters = text::without_blanks(s);
            let board = parse_board(s)->Ok_0;
            &&& letters.len() == 2 * board.len()
            &&& forall|i: int|
                0 <= i < board.len() ==> parse_card(seq![letters[2 * i], letters[2 * i + 1]]) == Ok::<
                    u8,
                    Error,
                >(#[trigger] board[i])
        }),
{
    let letters = text::without_blanks(s);
    lemma_read_pieces(letters, (letters.len() as int + 1) / 2);
}

/// Letters that are no blanks stay, in their order, and blanks go.
pub proof fn law_blanks_do_not_matter(s: Seq<char>, c: char, t: Seq<char>)
    ensures
        text::without_blanks(s.push(c)) == (if text::blank(c) {
            text::without_blanks(s)
        } else {
            text::without_blanks(s).push(c)
        }),
        text::blank(c) ==> parse_board(s.push(c) + t) == parse_board(s + t),
{
    assert(s.push(c).drop_last() =~= s);
    if text::blank(c) {
        lemma_blank_between(s, c, t);
    }
}

proof fn lemma_blank_between(s: Seq<char>, c: char, t: Seq<char>)
    requires
        text::blank(c),
    ensures
        text::without_blanks(s.push(c) + t) == text::without_blanks(s + t),
    decreases t.len(),
{
    assert(s.push(c).drop_last() =~= s);
    if t.len() == 0 {
        assert(s.push(c) + t =~= s.push(c));
        assert(s + t =~= s);
    } else {
        lemma_blank_between(s, c, t.drop_last());
        assert((s.push(c) + t).drop_last() =~= s.push(c) + t.drop_last());
        assert((s + t).drop_last() =~= s + t.drop_last());
    }
}

} // verus!
