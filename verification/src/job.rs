//! From a job and what its solve came to, to the header of its blobs and the options of its export.

use vstd::arithmetic::power2;
use vstd::arithmetic::power2::pow2;
use vstd::prelude::*;

use crate::arith;
use crate::blob::{BlobHeader, HeaderModel};
use crate::cli::river_options;
use crate::config;
use crate::config::{JobConfig, Rake, Street, CHIP_SCALE};
use crate::error::Error;
use crate::export::{ExportOptions, DEFAULT_PRUNE_EPSILON, DEFAULT_RIVER_EV};
use crate::ieee::{Double, Single};
use crate::packing;
use crate::signed;
use crate::sizes;
use crate::text;
use crate::tree::Isomorphism;

verus! {

/// The version that blobs say they are from. A new one goes with a new format or engine.
pub const SOLVER_VERSION: u16 = 0;

/// The commit of the engine.
pub const ENGINE_REV: &'static str = "9d1509fe5077d019825f833eed04b16d342dfda1";

/// An exploitability in percent of the pot.
pub open spec fn percent_of_pot(exploitability: Single, pot_chips: int) -> Double {
    signed::product(
        signed::quotient(signed::widened(exploitability), signed::whole(pot_chips)),
        Double { bits: CHIP_SCALE },
    )
}

/// An exploitability in percent of the pot.
pub fn exploitability_pct(exploitability: Single, pot_chips: i32) -> (r: Double)
    ensures
        r == percent_of_pot(exploitability, pot_chips as int),
{
    let part: Double = signed::div(signed::widen(exploitability), signed::from_int(pot_chips));
    signed::mul(part, Double { bits: CHIP_SCALE })
}

/// The percentage and the cap of a rake; nothing without a rake.
pub open spec fn rake_numbers(rake: Option<Rake>) -> (Double, Double) {
    match rake {
        None => (Double { bits: 0 }, Double { bits: 0 }),
        Some(rake) => (rake.percent, rake.cap_bb),
    }
}

/// The header of the blobs of a job.
pub open spec fn header_of(c: JobConfig, street: Street, pct: Double, iterations: u32) -> HeaderModel {
    HeaderModel {
        scenario_id: c.scenario_id,
        template_id: c.template_id,
        solver_version: SOLVER_VERSION,
        board: config::board_of(c.board)->Ok_0,
        street: street.number(),
        starting_pot: signed::narrowed(c.pot),
        effective_stack: signed::narrowed(c.effective_stack),
        rake_percent: signed::narrowed(rake_numbers(c.rake).0),
        rake_cap: signed::narrowed(rake_numbers(c.rake).1),
        exploitability_pct: signed::narrowed(pct),
        iterations,
    }
}

/// The header of the blobs of a job, after so many iterations and with an exploitability in percent
/// of the pot.
pub fn blob_header(c: &JobConfig, pct: Double, iterations: u32) -> (r: Result<BlobHeader, Error>)
    ensures
        match config::street_of(c.board) {
            Err(e) => r == Err::<BlobHeader, Error>(e),
            Ok(street) => {
                &&& r is Ok
                &&& r->Ok_0@ == header_of(*c, street, pct, iterations)
                &&& r->Ok_0@.street == r->Ok_0@.board.len() - 3
            },
        },
{
    let street: Street = match c.street() {
        Ok(street) => street,
        Err(e) => return Err(e),
    };
    let board: Vec<u8> = match c.board_cards() {
        Ok(board) => board,
        Err(e) => return Err(e),
    };
    let (percent, cap): (Double, Double) = match &c.rake {
        None => (Double { bits: 0 }, Double { bits: 0 }),
        Some(rake) => (rake.percent, rake.cap_bb),
    };
    Ok(
        BlobHeader {
            scenario_id: c.scenario_id,
            template_id: c.template_id,
            solver_version: SOLVER_VERSION,
            board,
            street: street.as_u8(),
            starting_pot: signed::narrow(c.pot),
            effective_stack: signed::narrow(c.effective_stack),
            rake_percent: signed::narrow(percent),
            rake_cap: signed::narrow(cap),
            exploitability_pct: signed::narrow(pct),
            iterations,
        },
    )
}

/// The header of a valid job has the job's board, numbered as ours, and the street that goes with
/// it: the number of board cards less three. Pot, stack, rake, ids and iterations are the job's, and
/// without a rake both its numbers are zero.
pub proof fn law_headers_describe_their_jobs(
    c: JobConfig,
    accepted: Seq<bool>,
    pct: Double,
    iterations: u32,
)
    requires
        config::job_fault(c, accepted) is None,
    ensures
        config::board_of(c.board) is Ok,
        config::street_of(c.board) is Ok,
        ({
            let board = config::board_of(c.board)->Ok_0;
            let h = header_of(c, config::street_of(c.board)->Ok_0, pct, iterations);
            &&& h.board == board
            &&& 3 <= board.len() <= 5
            &&& h.street == board.len() - 3
            &&& h.scenario_id == c.scenario_id
            &&& h.template_id == c.template_id
            &&& h.solver_version == SOLVER_VERSION
            &&& h.iterations == iterations
            &&& h.starting_pot == signed::narrowed(c.pot)
            &&& h.effective_stack == signed::narrowed(c.effective_stack)
            &&& h.exploitability_pct == signed::narrowed(pct)
            &&& match c.rake {
                None => h.rake_percent.same(Single { bits: 0 }) && h.rake_cap.same(Single { bits: 0 }),
                Some(rake) => h.rake_percent == signed::narrowed(rake.percent) && h.rake_cap
                    == signed::narrowed(rake.cap_bb),
            }
        }),
{
    power2::lemma_pow2_pos(925);
    arith::lemma_zero(pow2(925) as int, 0x100_0000);
    assert(Double { bits: 0 }.value() == 0);
    assert(signed::narrowed(Double { bits: 0 }) == Single { bits: 0 });
}

/// The options of the export of a job. Flags override what the job says of the river.
pub fn export_options(
    c: &JobConfig,
    header: BlobHeader,
    flag_reach: Option<Double>,
    flag_ev: Option<bool>,
    compress: bool,
    out_dir: String,
) -> (r: ExportOptions)
    ensures
        r.header == header,
        r.store_river == c.store_river,
        r.prune_epsilon.bits == DEFAULT_PRUNE_EPSILON,
        r.river_prune_epsilon == (if flag_reach is Some {
            flag_reach->0
        } else if c.river_prune_reach is Some {
            c.river_prune_reach->0
        } else {
            (Double { bits: DEFAULT_PRUNE_EPSILON })
        }),
        r.river_ev == (if flag_ev is Some {
            flag_ev->0
        } else if c.river_ev is Some {
            c.river_ev->0
        } else {
            DEFAULT_RIVER_EV
        }),
        r.compress == compress,
        r.out_dir == out_dir,
{
    let (river_prune_epsilon, river_ev): (Double, bool) = river_options(
        flag_reach,
        c.river_prune_reach,
        flag_ev,
        c.river_ev,
    );
    ExportOptions {
        header,
        store_river: c.store_river,
        prune_epsilon: Double { bits: DEFAULT_PRUNE_EPSILON },
        river_prune_epsilon,
        river_ev,
        compress,
        out_dir,
    }
}

/// What is warned of where the time ran out; `limit` is how the limit is written.
pub open spec fn time_warning(limit: Seq<char>) -> Seq<char> {
    "시간 상한 "@ + limit + "초에 걸려 목표 정확도 전에 마감했다"@
}

/// All that is warned of: for the tree, then for the export, then that the time ran out.
pub fn all_warnings(tree: &Vec<String>, export: &Vec<String>, late: Option<&str>) -> (r: Vec<String>)
    ensures
        text::letters(r@) == text::letters(tree@) + text::letters(export@) + (match late {
            None => Seq::empty(),
            Some(limit) => seq![time_warning(limit@)],
        }),
{
    let mut out: Vec<String> = Vec::new();
    for i in 0..tree.len()
        invariant
            text::letters(out@) =~= text::letters(tree@).take(i as int),
    {
        let ghost before = out@;
        out.push(tree[i].clone());
        assert(text::letters(out@) =~= text::letters(before).push(tree@[i as int]@));
        assert(text::letters(tree@).take(i + 1) =~= text::letters(tree@).take(i as int).push(
            tree@[i as int]@,
        ));
    }
    for i in 0..export.len()
        invariant
            text::letters(out@) =~= text::letters(tree@) + text::letters(export@).take(i as int),
    {
        let ghost before = out@;
        out.push(export[i].clone());
        assert(text::letters(out@) =~= text::letters(before).push(export@[i as int]@));
        assert(text::letters(export@).take(i + 1) =~= text::letters(export@).take(i as int).push(
            export@[i as int]@,
        ));
    }
    let ghost before = out@;
    if let Some(limit) = late {
        let mut warning: String = String::new();
        text::append_str(&mut warning, "시간 상한 ");
        text::append_str(&mut warning, limit);
        text::append_str(&mut warning, "초에 걸려 목표 정확도 전에 마감했다");
        assert(warning@ =~= time_warning(limit@));
        out.push(warning);
        assert(text::letters(out@) =~= text::letters(before).push(time_warning(limit@)));
    }
    assert(text::letters(out@) =~= text::letters(tree@) + text::letters(export@) + (match late {
        None => Seq::empty(),
        Some(limit) => seq![time_warning(limit@)],
    }));
    out
}

/// How many turn cards have subtrees of their own: none where the turn is dealt.
pub fn turn_count(iso: &Isomorphism, fixed_turn: Option<u8>) -> (r: usize)
    ensures
        r == (if fixed_turn is None {
            iso@.turn_cards(52).len()
        } else {
            0
        }),
{
    match fixed_turn {
        None => iso.turn_representatives().len(),
        Some(_) => 0,
    }
}

/// What a manifest says of how blobs are packed: with which quality, if at all.
pub fn compression_name(compress: bool) -> (r: &'static str)
    ensures
        r@ == (if compress {
            "brotli-9"@
        } else {
            "none"@
        }),
        compress ==> r@ == "brotli-"@ + sizes::digits(packing::QUALITY as nat),
{
    if compress {
        proof {
            reveal_strlit("brotli-9");
            reveal_strlit("brotli-");
            assert("brotli-9"@ =~= "brotli-"@ + sizes::digits(packing::QUALITY as nat));
        }
        "brotli-9"
    } else {
        "none"
    }
}

} // verus!
