//! The one error type of the library.

use vstd::prelude::*;

verus! {

/// Why an operation of this library was refused.
#[derive(Debug, Clone, Copy, PartialEq, Eq)]
pub enum Error {
    /// A blob's board does not hold three to five cards; the number of cards it holds.
    BoardLength(usize),
    /// A node's child list does not have the length that its kind asks for.
    ChildCount { node: u32, found: usize, expected: usize },
    /// A node has more than 255 actions; its id.
    TooManyActions(u32),
    /// A hand list has more than 65535 entries.
    TooManyHands,
    /// The encoding would not fit in the address space.
    TooLarge,
    /// A blob does not start with the magic bytes.
    BadMagic,
    /// A blob of a format version that is not known here.
    UnsupportedVersion(u8),
    /// A blob ends before all that it announces.
    Truncated,
    /// A strategy array lies outside the blob.
    StrategyOutOfBlob,
    /// An EV array lies outside the blob.
    EvOutOfBlob,
    /// A card is not one of the 52; its number.
    CardOutOfRange(u8),
    /// A card is not written with two characters.
    CardLength,
    /// A card's first character names no rank.
    UnknownRank(char),
    /// A card's second character names no suit.
    UnknownSuit(char),
    /// A board's text has an odd length.
    BoardText,
    /// One of two cards is not one of the 52.
    CardsOutOfRange(u8, u8),
    /// A combo would hold one card twice.
    SameCard(u8),
    /// A combo index is not below 1326.
    ComboOutOfRange(u16),
    /// A range has no tokens.
    RangeEmpty,
    /// A range has a character that no token has.
    RangeChar(char),
    /// A board has a card twice.
    DuplicateCard,
    /// The pot is not above zero.
    Pot,
    /// The stack is not above zero.
    Stack,
    /// The pot or the stack is no chips.
    NoChips,
    /// The number of iterations is zero or too large.
    Iterations(u32),
    /// The all-in threshold is not between zero and one.
    AllInThreshold,
    /// The threshold for adding all-ins is below zero.
    AddAllInThreshold,
    /// The merging threshold is below zero.
    MergingThreshold,
    /// The target exploitability is below zero.
    TargetExploitability,
    /// The river's pruning threshold is not between zero and one.
    RiverPruneReach,
    /// The rake is not between zero and a hundred percent.
    RakePercent,
    /// The rake's cap is below zero.
    RakeCap,
    /// A player's range is blank; 0 is the out-of-position player.
    BlankRange(u8),
    /// The engine does not take a player's range.
    RefusedRange(u8),
    /// A bet size is not above zero or beyond 10000 percent; its street and player.
    BetSize(u8, u8),
    /// A donk bet size is not above zero or beyond 10000 percent.
    DonkSize,
    /// A flag is neither on nor off.
    NotOnOff,
    /// There is no memory mode of that name.
    UnknownMemoryMode,
    /// Locking nodes is not supported.
    LockUnsupported,
    /// There must be at least one thread.
    NoThreads,
    /// A player has no hand that the board leaves.
    NoHands,
    /// A player reaches the root with no hand.
    NoReach,
    /// A strategy does not have one number for each action and hand; how many it has.
    StrategyLength(usize),
    /// An EV list does not have one number for each action and hand; how many it has.
    EvLength(usize),
    /// A node's player is neither of the two.
    UnknownPlayer(u8),
    /// A node that is stored has no strategy.
    MissingStrategy,
    /// A node does not have the subtrees that are to be stored.
    MissingSubtree,
    /// In the toy game a player does not have the two actions; 0 is the out-of-position player.
    ToyActions(u8),
    /// In the toy game there is a hand of other ranks.
    ToyHand(u8, u8),
    /// In the toy game a player's hands weigh nothing.
    ToyNoHands(u8),
    /// In the toy game nothing bets.
    ToyNoBets,
    /// Bytes could not be compressed.
    Compression,
    /// Bytes are not compressed data.
    Decompression,
}

} // verus!
