//! The command line: flags, memory modes and what overrides what.

use vstd::prelude::*;

use crate::config::ONE;
use crate::error::Error;
use crate::export::{DEFAULT_PRUNE_EPSILON, DEFAULT_RIVER_EV};
use crate::ieee::Double;
use crate::range;
use crate::text;

verus! {

/// Eight gibibytes: the engine's memory is compressed above that when nothing is said.
pub const AUTO_THRESHOLD_BYTES: u64 = 8589934592;

/// How the engine keeps its numbers.
#[derive(Debug, Clone, Copy, PartialEq, Eq, Structural)]
pub enum MemoryMode {
    /// Compressed where the numbers would need more than eight gibibytes.
    Auto,
    Full,
    Compressed,
}

/// Text in small letters.
pub open spec fn small(s: Seq<char>) -> Seq<char> {
    Seq::new(s.len(), |i: int| text::lower(s[i]))
}

/// What a flag's text says: "on", "true", "1" and "yes", or "off", "false", "0" and "no", in
/// capital or small letters, with blanks around.
pub open spec fn on_off(s: Seq<char>) -> Result<bool, Error> {
    let t = small(range::trim(s));
    if t == seq!['o', 'n'] || t == seq!['t', 'r', 'u', 'e'] || t == seq!['1'] || t == seq!['y', 'e', 's'] {
        Ok(true)
    } else if t == seq!['o', 'f', 'f'] || t == seq!['f', 'a', 'l', 's', 'e'] || t == seq!['0'] || t
        == seq!['n', 'o'] {
        Ok(false)
    } else {
        Err(Error::NotOnOff)
    }
}

fn is_word(s: &Vec<char>, word: &[char]) -> (r: bool)
    ensures
        r == (s@ == word@),
{
    if s.len() != word.len() {
        return false;
    }
    for i in 0..s.len()
        invariant
            s@.len() == word@.len(),
            forall|j: int| 0 <= j < i ==> s@[j] == word@[j],
    {
        if s[i] != word[i] {
            assert(s@[i as int] != word@[i as int]);
            return false;
        }
    }
    assert(s@ =~= word@);
    true
}

/// What a flag's text says.
pub fn parse_on_off(value: &str) -> (r: Result<bool, Error>)
    ensures
        r == on_off(value@),
{
    let chars: Vec<char> = text::chars_of(value);
    let trimmed: Vec<char> = range::trim_chars(&chars);
    let mut t: Vec<char> = Vec::new();
    for i in 0..trimmed.len()
        invariant
            t@.len() == i,
            forall|j: int| 0 <= j < i ==> #[trigger] t@[j] == text::lower(trimmed@[j]),
    {
        t.push(text::to_lower(trimmed[i]));
    }
    assert(t@ =~= small(range::trim(value@)));
    let on: [char; 2] = ['o', 'n'];
    let yes: [char; 3] = ['y', 'e', 's'];
    let one: [char; 1] = ['1'];
    let true_word: [char; 4] = ['t', 'r', 'u', 'e'];
    let off: [char; 3] = ['o', 'f', 'f'];
    let no: [char; 2] = ['n', 'o'];
    let zero: [char; 1] = ['0'];
    let false_word: [char; 5] = ['f', 'a', 'l', 's', 'e'];
    assert(on@ =~= seq!['o', 'n'] && yes@ =~= seq!['y', 'e', 's'] && one@ =~= seq!['1'] && true_word@
        =~= seq!['t', 'r', 'u', 'e']);
    assert(off@ =~= seq!['o', 'f', 'f'] && no@ =~= seq!['n', 'o'] && zero@ =~= seq!['0'] && false_word@
        =~= seq!['f', 'a', 'l', 's', 'e']);
    if is_word(&t, on.as_slice()) || is_word(&t, true_word.as_slice()) || is_word(&t, one.as_slice())
        || is_word(&t, yes.as_slice()) {
        Ok(true)
    } else if is_word(&t, off.as_slice()) || is_word(&t, false_word.as_slice()) || is_word(
        &t,
        zero.as_slice(),
    ) || is_word(&t, no.as_slice()) {
        Ok(false)
    } else {
        Err(Error::NotOnOff)
    }
}

/// The memory mode of a name.
pub open spec fn mode_of(s: Seq<char>) -> Result<MemoryMode, Error> {
    if s == seq!['a', 'u', 't', 'o'] {
        Ok(MemoryMode::Auto)
    } else if s == seq!['f', 'u', 'l', 'l'] {
        Ok(MemoryMode::Full)
    } else if s == seq!['c', 'o', 'm', 'p', 'r', 'e', 's', 's', 'e', 'd'] {
        Ok(MemoryMode::Compressed)
    } else {
        Err(Error::UnknownMemoryMode)
    }
}

impl MemoryMode {
    /// The memory mode of a name.
    pub fn parse(value: &str) -> (r: Result<MemoryMode, Error>)
        ensures
            r == mode_of(value@),
    {
        let chars: Vec<char> = text::chars_of(value);
        let auto: [char; 4] = ['a', 'u', 't', 'o'];
        let full: [char; 4] = ['f', 'u', 'l', 'l'];
        let compressed: [char; 10] = ['c', 'o', 'm', 'p', 'r', 'e', 's', 's', 'e', 'd'];
        assert(auto@ =~= seq!['a', 'u', 't', 'o'] && full@ =~= seq!['f', 'u', 'l', 'l']);
        assert(compressed@ =~= seq!['c', 'o', 'm', 'p', 'r', 'e', 's', 's', 'e', 'd']);
        if is_word(&chars, auto.as_slice()) {
            Ok(MemoryMode::Auto)
        } else if is_word(&chars, full.as_slice()) {
            Ok(MemoryMode::Full)
        } else if is_word(&chars, compressed.as_slice()) {
            Ok(MemoryMode::Compressed)
        } else {
            Err(Error::UnknownMemoryMode)
        }
    }

    /// Whether the engine's numbers are compressed, given what they would need otherwise.
    pub fn use_compressed(self, uncompressed_bytes: u64) -> (r: bool)
        ensures
            r == match self {
                MemoryMode::Auto => uncompressed_bytes > AUTO_THRESHOLD_BYTES,
                MemoryMode::Full => false,
                MemoryMode::Compressed => true,
            },
    {
        match self {
            MemoryMode::Auto => uncompressed_bytes > AUTO_THRESHOLD_BYTES,
            MemoryMode::Full => false,
            MemoryMode::Compressed => true,
        }
    }
}

/// What is wrong with the flags of a solve, if anything is, else the memory mode.
pub open spec fn solve_flags(locked: bool, memory: Seq<char>, reach: Option<Double>) -> Result<
    MemoryMode,
    Error,
> {
    if locked {
        Err(Error::LockUnsupported)
    } else {
        match mode_of(memory) {
            Err(e) => Err(e),
            Ok(mode) => if reach is Some && !((Double { bits: 0 }).at_most(reach->0) && reach->0.at_most(
                Double { bits: ONE },
            )) {
                Err(Error::RiverPruneReach)
            } else {
                Ok(mode)
            },
        }
    }
}

/// Checks the flags of a solve, and gives the memory mode.
pub fn check_solve_flags(locked: bool, memory: &str, river_prune_reach: Option<Double>) -> (r: Result<
    MemoryMode,
    Error,
>)
    ensures
        r == solve_flags(locked, memory@, river_prune_reach),
{
    if locked {
        return Err(Error::LockUnsupported);
    }
    let mode: MemoryMode = match MemoryMode::parse(memory) {
        Ok(mode) => mode,
        Err(e) => return Err(e),
    };
    if let Some(reach) = &river_prune_reach {
        let low: Double = Double { bits: 0 };
        let high: Double = Double { bits: ONE };
        if !(low.le(reach) && reach.le(&high)) {
            return Err(Error::RiverPruneReach);
        }
    }
    Ok(mode)
}

/// Refuses a pool of no threads.
pub fn check_threads(threads: Option<usize>) -> (r: Result<(), Error>)
    ensures
        r == (if threads == Some(0usize) {
            Err::<(), Error>(Error::NoThreads)
        } else {
            Ok::<(), Error>(())
        }),
{
    match threads {
        Some(n) => if n == 0 {
            Err(Error::NoThreads)
        } else {
            Ok(())
        },
        None => Ok(()),
    }
}

/// The river's pruning threshold and whether river nodes have EVs: what the flags say, else what
/// the job says, else the defaults.
pub fn river_options(
    flag_reach: Option<Double>,
    job_reach: Option<Double>,
    flag_ev: Option<bool>,
    job_ev: Option<bool>,
) -> (r: (Double, bool))
    ensures
        r.0 == (if flag_reach is Some {
            flag_reach->0
        } else if job_reach is Some {
            job_reach->0
        } else {
            (Double { bits: DEFAULT_PRUNE_EPSILON })
        }),
        r.1 == (if flag_ev is Some {
            flag_ev->0
        } else if job_ev is Some {
            job_ev->0
        } else {
            DEFAULT_RIVER_EV
        }),
{
    let reach: Double = match flag_reach {
        Some(reach) => reach,
        None => match job_reach {
            Some(reach) => reach,
            None => Double { bits: DEFAULT_PRUNE_EPSILON },
        },
    };
    let ev: bool = match flag_ev {
        Some(ev) => ev,
        None => match job_ev {
            Some(ev) => ev,
            None => DEFAULT_RIVER_EV,
        },
    };
    (reach, ev)
}

} // verus!
