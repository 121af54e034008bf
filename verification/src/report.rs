//! The whole pipeline on one fetched page: extract both blocks, parse them,
//! pair and score, rank, render.

use vstd::prelude::*;

use crate::page::{extract_blocks, extract_spec};
use crate::record::{error_for, parse_from_input, parse_spec, Error, IOSort, OptionModel};
use crate::render::{header_line, render, row_line, separator_line};
use crate::score::{
    names_match, pair, rank, rank_le, rec_views, score_spec, PairModel, ScoredPair,
};

verus! {

/// The scored pairs of two matched record sequences, in positional order.
pub open spec fn scored_of(b: Seq<OptionModel>, a: Seq<OptionModel>) -> Seq<PairModel> {
    Seq::new(
        b.len() as nat,
        |i: int|
            PairModel { before: b[i], after: a[i], frac: score_spec(b[i], a[i]), index: i },
    )
}

pub open spec fn pair_views(s: Seq<ScoredPair>) -> Seq<PairModel> {
    s.map_values(|p: ScoredPair| p@)
}

/// `pm` is one of the scored pairs of the two blocks.
pub open spec fn appears_in(pm: PairModel, b: Seq<OptionModel>, a: Seq<OptionModel>) -> bool {
    exists|j: int| 0 <= j < b.len() && pm == #[trigger] scored_of(b, a)[j]
}

/// `pm` stands somewhere in `ranked`.
pub open spec fn placed_in(pm: PairModel, ranked: Seq<PairModel>) -> bool {
    exists|k: int| 0 <= k < ranked.len() && #[trigger] ranked[k] == pm
}

/// `ranked` is an ordering of the scored pairs of the two blocks: it has one
/// entry per pair, every entry is one of the pairs, every pair appears, and
/// the order descends by magnitude of change with ties in original order.
pub open spec fn is_ranking_of(
    ranked: Seq<PairModel>,
    b: Seq<OptionModel>,
    a: Seq<OptionModel>,
) -> bool {
    &&& ranked.len() == b.len()
    &&& (forall|i: int, j: int|
        0 <= i < j < ranked.len() ==> rank_le(#[trigger] ranked[i], #[trigger] ranked[j]))
    &&& (forall|k: int| 0 <= k < ranked.len() ==> appears_in(#[trigger] ranked[k], b, a))
    &&& (forall|j: int| 0 <= j < b.len() ==> placed_in(#[trigger] scored_of(b, a)[j], ranked))
}

/// The row lines (after the three heading lines) render one ranking of the
/// scored pairs.
pub open spec fn ranked_rows_ok(
    lines: Seq<Seq<char>>,
    b: Seq<OptionModel>,
    a: Seq<OptionModel>,
) -> bool {
    exists|ranked: Seq<PairModel>|
        {
            &&& #[trigger] is_ranking_of(ranked, b, a)
            &&& (forall|k: int|
                0 <= k < ranked.len() ==> lines[k + 3] == row_line(#[trigger] ranked[k]))
        }
}

/// A sorted rearrangement of the scored pairs, rendered row by row, is a
/// ranking of the two blocks' pairs.
proof fn lemma_ranking_witness(
    scored: Seq<ScoredPair>,
    ranked: Seq<ScoredPair>,
    bms: Seq<OptionModel>,
    ams: Seq<OptionModel>,
    lines: Seq<Seq<char>>,
)
    requires
        scored.len() == bms.len(),
        forall|j: int| 0 <= j < scored.len() ==> (#[trigger] scored[j])@ == scored_of(bms, ams)[j],
        ranked.to_multiset() == scored.to_multiset(),
        ranked.len() == scored.len(),
        forall|i: int, j: int|
            0 <= i < j < ranked.len() ==> rank_le((#[trigger] ranked[i])@, (#[trigger] ranked[j])@),
        forall|k: int| 0 <= k < ranked.len() ==> lines[k + 3] == row_line((#[trigger] ranked[k])@),
    ensures
        ranked_rows_ok(lines, bms, ams),
{
    broadcast use vstd::seq_lib::group_to_multiset_ensures;

    let w = pair_views(ranked);
    assert forall|k: int| 0 <= k < w.len() implies appears_in(#[trigger] w[k], bms, ams) by {
        assert(ranked.contains(ranked[k]));
        assert(ranked.to_multiset().count(ranked[k]) > 0);
        assert(scored.to_multiset().count(ranked[k]) > 0);
        assert(scored.contains(ranked[k]));
        let j = choose|j: int| 0 <= j < scored.len() && scored[j] == ranked[k];
        assert(w[k] == scored[j]@);
        assert(w[k] == scored_of(bms, ams)[j]);
    }
    assert forall|j: int| 0 <= j < bms.len() implies placed_in(
        #[trigger] scored_of(bms, ams)[j],
        w,
    ) by {
        assert(scored.contains(scored[j]));
        assert(scored.to_multiset().count(scored[j]) > 0);
        assert(ranked.to_multiset().count(scored[j]) > 0);
        assert(ranked.contains(scored[j]));
        let k = choose|k: int| 0 <= k < ranked.len() && ranked[k] == scored[j];
        assert(w[k] == scored[j]@);
        assert(w[k] == scored_of(bms, ams)[j]);
    }
    assert forall|i: int, j: int| 0 <= i < j < w.len() implies rank_le(
        #[trigger] w[i],
        #[trigger] w[j],
    ) by {
        assert(rank_le(ranked[i]@, ranked[j]@));
    }
    assert forall|k: int| 0 <= k < w.len() implies lines[k + 3] == row_line(#[trigger] w[k]) by {
        assert(lines[k + 3] == row_line(ranked[k]@));
    }
    assert(is_ranking_of(w, bms, ams));
}

/// Turns one fetched page's text into the report's lines.
///
/// Fails exactly as the stages do: a missing marker, the first unparsable
/// line of either block, or mismatched record sequences; otherwise the
/// rendered table presents every scored pair, ranked.
pub fn report_lines(page: &str) -> (r: Result<Vec<String>, Error>)
    ensures
        match extract_spec(page@) {
            Err(m) => r == Err::<Vec<String>, Error>(Error::MalformedPage { missing: m }),
            Ok(blocks) => match parse_spec(blocks.0, IOSort::Input) {
                Err(le) => r matches Err(e) && error_for(e, le),
                Ok(bms) => match parse_spec(blocks.1, IOSort::Output) {
                    Err(le) => r matches Err(e) && error_for(e, le),
                    Ok(ams) => if !names_match(bms, ams) {
                        r == Err::<Vec<String>, Error>(Error::PairingMismatch)
                    } else {
                        r matches Ok(lines) && lines@.len() == bms.len() + 3 && lines@[0]@
                            == Seq::<char>::empty() && lines@[1]@ == header_line() && lines@[2]@
                            == separator_line() && ranked_rows_ok(
                            lines@.map_values(|s: String| s@),
                            bms,
                            ams,
                        )
                    },
                },
            },
        },
{
    let blocks = match extract_blocks(page) {
        Ok(p) => p,
        Err(e) => {
            return Err(e);
        },
    };
    let before = match parse_from_input(blocks.0.as_str(), IOSort::Input) {
        Ok(v) => v,
        Err(e) => {
            return Err(e);
        },
    };
    let after = match parse_from_input(blocks.1.as_str(), IOSort::Output) {
        Ok(v) => v,
        Err(e) => {
            return Err(e);
        },
    };
    let ghost bms = parse_spec(blocks.0@, IOSort::Input)->Ok_0;
    let ghost ams = parse_spec(blocks.1@, IOSort::Output)->Ok_0;
    proof {
        assert(rec_views(before@) =~= bms);
        assert(rec_views(after@) =~= ams);
    }
    let scored = match pair(&before, &after) {
        Ok(v) => v,
        Err(e) => {
            return Err(e);
        },
    };
    let ghost sc = scored_of(bms, ams);
    proof {
        assert forall|j: int| 0 <= j < sc.len() implies (#[trigger] scored@[j])@ == sc[j] by {
            assert(scored@[j]@.before == before@[j]@);
        }
    }
    let ranked = rank(scored);
    let lines = render(&ranked);
    proof {
        let lv = lines@.map_values(|s: String| s@);
        assert forall|k: int| 0 <= k < ranked@.len() implies lv[k + 3] == row_line(
            (#[trigger] ranked@[k])@,
        ) by {
            assert(lines@[k + 3]@ == row_line(ranked@[k]@));
        }
        lemma_ranking_witness(scored@, ranked@, bms, ams, lv);
    }
    Ok(lines)
}

} // verus!
