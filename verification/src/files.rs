//! The files of an export and what is said of them.

use vstd::prelude::*;

use crate::cards;
use crate::error::Error;
use crate::export::BlobKey;
use crate::text;

verus! {

/// What is said of a file.
#[derive(Debug, Clone, PartialEq, Eq)]
pub struct FileInfo {
    pub path: String,
    pub nodes: u32,
    pub bytes_raw: u64,
    pub bytes_stored: u64,
}

/// What is said of an export.
#[derive(Debug, Clone, PartialEq, Eq)]
pub struct ExportSummary {
    pub files: Vec<FileInfo>,
    pub node_count: u64,
    pub pruned_nodes: u64,
    /// The turn cards that have files of their own, sorted by name.
    pub turn_cards: Vec<String>,
    /// The other turn cards, sorted by name, each with the card whose file stands for it.
    pub turn_isomorphism: Vec<(String, String)>,
    pub warnings: Vec<String>,
    pub bytes_raw: u64,
    pub bytes_stored: u64,
    /// The river nodes of players that have a body.
    pub river_player_nodes: u64,
}

/// A file and what is said of it: the bytes as they are, or what packing made of them, under a
/// path with an ending of its own.
pub fn stored_file(path: String, nodes: u32, bytes: Vec<u8>, packed: Option<Result<Vec<u8>, Error>>) -> (r: Result<
    (FileInfo, Vec<u8>),
    Error,
>)
    ensures
        match packed {
            Some(Err(e)) => r == Err::<(FileInfo, Vec<u8>), Error>(e),
            Some(Ok(content)) => r is Ok && r->Ok_0.0.path@ == path@ + ".br"@ && r->Ok_0.1@ == content@,
            None => r is Ok && r->Ok_0.0.path@ == path@ && r->Ok_0.1@ == bytes@,
        },
        r is Ok ==> {
            &&& r->Ok_0.0.nodes == nodes
            &&& r->Ok_0.0.bytes_raw == bytes@.len()
            &&& r->Ok_0.0.bytes_stored == r->Ok_0.1@.len()
        },
{
    let mut path: String = path;
    let bytes_raw: u64 = bytes.len() as u64;
    let content: Vec<u8> = match packed {
        Some(Ok(content)) => {
            text::append_str(&mut path, ".br");
            content
        },
        Some(Err(e)) => return Err(e),
        None => bytes,
    };
    let bytes_stored: u64 = content.len() as u64;
    Ok((FileInfo { path, nodes, bytes_raw, bytes_stored }, content))
}

/// The path of a blob, given the street that the game starts on.
pub open spec fn path_of(key: BlobKey, start_street: u8) -> Result<Seq<char>, Error> {
    match key {
        BlobKey::Start => Ok(
            if start_street == 0 {
                "flop.bin"@
            } else if start_street == 1 {
                "turn.bin"@
            } else {
                "river.bin"@
            },
        ),
        BlobKey::Turn(card) => if card >= 52 {
            Err(Error::CardOutOfRange(card))
        } else {
            Ok("turn/"@ + cards::card_text(card as int) + ".bin"@)
        },
        BlobKey::River(turn, river) => if turn >= 52 {
            Err(Error::CardOutOfRange(turn))
        } else if river >= 52 {
            Err(Error::CardOutOfRange(river))
        } else {
            Ok(
                "river/"@ + cards::card_text(turn as int) + "/"@ + cards::card_text(river as int)
                    + ".bin"@,
            )
        },
    }
}

/// The path of a blob, given the street that the game starts on.
pub fn blob_path(key: BlobKey, start_street: u8) -> (r: Result<String, Error>)
    ensures
        match path_of(key, start_street) {
            Err(e) => r == Err::<String, Error>(e),
            Ok(path) => r is Ok && r->Ok_0@ == path,
        },
{
    let mut out: String = String::new();
    match key {
        BlobKey::Start => {
            if start_street == 0 {
                text::append_str(&mut out, "flop.bin");
            } else if start_street == 1 {
                text::append_str(&mut out, "turn.bin");
            } else {
                text::append_str(&mut out, "river.bin");
            }
            assert(out@ =~= path_of(key, start_street)->Ok_0);
        },
        BlobKey::Turn(card) => {
            let name: String = match cards::card_to_string(card) {
                Ok(name) => name,
                Err(e) => return Err(e),
            };
            text::append_str(&mut out, "turn/");
            text::append_str(&mut out, name.as_str());
            text::append_str(&mut out, ".bin");
            assert(out@ =~= path_of(key, start_street)->Ok_0);
        },
        BlobKey::River(turn, river) => {
            let turn_name: String = match cards::card_to_string(turn) {
                Ok(name) => name,
                Err(e) => return Err(e),
            };
            let river_name: String = match cards::card_to_string(river) {
                Ok(name) => name,
                Err(e) => return Err(e),
            };
            text::append_str(&mut out, "river/");
            text::append_str(&mut out, turn_name.as_str());
            text::append_str(&mut out, "/");
            text::append_str(&mut out, river_name.as_str());
            text::append_str(&mut out, ".bin");
            assert(out@ =~= path_of(key, start_street)->Ok_0);
        },
    }
    Ok(out)
}

proof fn lemma_card_texts_differ(a: int, b: int)
    requires
        0 <= a < 52,
        0 <= b < 52,
        a != b,
    ensures
        cards::card_text(a)[0] != cards::card_text(b)[0] || cards::card_text(a)[1]
            != cards::card_text(b)[1],
{
    cards::law_card_text_round_trip(a);
    cards::law_card_text_round_trip(b);
    assert(cards::card_text(a) =~= seq![cards::card_text(a)[0], cards::card_text(a)[1]]);
    assert(cards::card_text(b) =~= seq![cards::card_text(b)[0], cards::card_text(b)[1]]);
}

/// No two blobs of an export share a path.
pub proof fn law_paths_are_distinct(a: BlobKey, b: BlobKey, start_street: u8)
    requires
        a.proper(),
        b.proper(),
        a != b,
    ensures
        path_of(a, start_street) is Ok,
        path_of(b, start_street) is Ok,
        path_of(a, start_street)->Ok_0 != path_of(b, start_street)->Ok_0,
{
    reveal_strlit("flop.bin");
    reveal_strlit("turn.bin");
    reveal_strlit("river.bin");
    reveal_strlit("turn/");
    reveal_strlit("river/");
    reveal_strlit("/");
    reveal_strlit(".bin");
    let p = path_of(a, start_street)->Ok_0;
    let q = path_of(b, start_street)->Ok_0;
    match (a, b) {
        (BlobKey::Turn(c), BlobKey::Turn(d)) => {
            lemma_card_texts_differ(c as int, d as int);
            assert(p[5] == cards::card_text(c as int)[0] && p[6] == cards::card_text(c as int)[1]);
            assert(q[5] == cards::card_text(d as int)[0] && q[6] == cards::card_text(d as int)[1]);
        },
        (BlobKey::River(c, x), BlobKey::River(d, y)) => {
            if c != d {
                lemma_card_texts_differ(c as int, d as int);
            } else {
                lemma_card_texts_differ(x as int, y as int);
            }
            assert(p[6] == cards::card_text(c as int)[0] && p[7] == cards::card_text(c as int)[1]);
            assert(q[6] == cards::card_text(d as int)[0] && q[7] == cards::card_text(d as int)[1]);
            assert(p[9] == cards::card_text(x as int)[0] && p[10] == cards::card_text(x as int)[1]);
            assert(q[9] == cards::card_text(y as int)[0] && q[10] == cards::card_text(y as int)[1]);
        },
        _ => {
            assert(p.len() != q.len() || p[4] != q[4] || p[5] != q[5]);
        },
    }
}

// ---------------------------------------------------------------------------------------------
// The cards in the order of their names.
// ---------------------------------------------------------------------------------------------

/// The ranks in the order of their letters: digits, then A, J, K, Q, T.
pub const RANKS_BY_LETTER: [u8; 13] = [0, 1, 2, 3, 4, 5, 6, 7, 12, 9, 11, 10, 8];

/// The card at a place in the order of names.
pub open spec fn card_by_name(i: int) -> int {
    RANKS_BY_LETTER@[i / 4] * 4 + (3 - i % 4)
}

/// The card at a place in the order of names.
pub(crate) fn named_card(i: u8) -> (r: u8)
    requires
        i < 52,
    ensures
        r == card_by_name(i as int),
        r < 52,
{
    RANKS_BY_LETTER[(i / 4) as usize] * 4 + (3 - i % 4)
}

/// Whether text stands before other text of two letters in the order of strings.
pub open spec fn name_before(a: Seq<char>, b: Seq<char>) -> bool {
    a[0] < b[0] || (a[0] == b[0] && a[1] < b[1])
}

/// The order of names is the order of the strings, and every card has one place in it.
pub proof fn law_names_are_sorted(i: int, j: int)
    requires
        0 <= i < j < 52,
    ensures
        name_before(cards::card_text(card_by_name(i)), cards::card_text(card_by_name(j))),
        0 <= card_by_name(i) < 52,
        card_by_name(i) != card_by_name(j),
{
    let a = i / 4;
    let b = j / 4;
    let r = RANKS_BY_LETTER@[a] as int;
    let s = RANKS_BY_LETTER@[b] as int;
    assert(card_by_name(i) / 4 == r && card_by_name(i) % 4 == 3 - i % 4);
    assert(card_by_name(j) / 4 == s && card_by_name(j) % 4 == 3 - j % 4);
}

} // verus!
