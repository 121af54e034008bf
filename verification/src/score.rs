//! Positional pairing of before/after records, the range-normalized change
//! fraction, and the ranking of pairs by magnitude of change.

use vstd::prelude::*;

use crate::record::{Error, OptionModel, UciOption};

verus! {

/// Exact change fraction of one pair.
#[derive(Clone, Copy, Debug, PartialEq, Eq)]
pub enum Score {
    /// The before-record's bounds form a zero-width range: treated as
    /// maximal change.
    Maximal,
    /// The fraction `num / den` with `den > 0`, not reduced.
    Finite { num: i128, den: u128 },
}

/// Mathematical model of a change fraction.
pub enum ScoreModel {
    Maximal,
    Finite { num: int, den: int },
}

impl View for Score {
    type V = ScoreModel;

    open spec fn view(&self) -> ScoreModel {
        match *self {
            Score::Maximal => ScoreModel::Maximal,
            Score::Finite { num, den } => ScoreModel::Finite { num: num as int, den: den as int },
        }
    }
}

/// The range-normalized change fraction of one pair.
///
/// With both bounds present the fraction is `(after - before) / (max - min)`,
/// the sign of a reversed range folded into the numerator; a zero-width range
/// denotes maximal change. With any bound absent the range is unbounded and
/// the change counts as zero: a deliberate policy, not an error.
pub open spec fn score_spec(b: OptionModel, a: OptionModel) -> ScoreModel {
    match (b.min, b.max) {
        (Some(mn), Some(mx)) => if mx == mn {
            ScoreModel::Maximal
        } else {
            let diff = a.value - b.value;
            let range = mx - mn;
            if range > 0 {
                ScoreModel::Finite { num: diff, den: range }
            } else {
                ScoreModel::Finite { num: -diff, den: -range }
            }
        },
        _ => ScoreModel::Finite { num: 0, den: 1 },
    }
}

/// Law: a before-record without a full set of bounds scores zero change,
/// whatever the two values are.
pub proof fn lemma_unbounded_change_is_zero(b: OptionModel, a: OptionModel)
    requires
        (b.min is None || b.max is None),
    ensures
        score_spec(b, a) == (ScoreModel::Finite { num: 0, den: 1 }),
{
}

/// Bounds under which a fraction's cross products stay inside `u128`.
pub open spec fn score_wf(s: ScoreModel) -> bool {
    match s {
        ScoreModel::Maximal => true,
        ScoreModel::Finite { num, den } => 0 < den <= u64::MAX as int && -(u64::MAX as int) <= num
            <= u64::MAX as int,
    }
}

pub open spec fn int_abs(n: int) -> int {
    if n < 0 {
        -n
    } else {
        n
    }
}

/// Magnitude order on change fractions: `|x| <= |y|`, the maximal change
/// greater than every finite fraction.
pub open spec fn mag_le(x: ScoreModel, y: ScoreModel) -> bool {
    match (x, y) {
        (_, ScoreModel::Maximal) => true,
        (ScoreModel::Maximal, ScoreModel::Finite { .. }) => false,
        (
            ScoreModel::Finite { num: n1, den: d1 },
            ScoreModel::Finite { num: n2, den: d2 },
        ) => int_abs(n1) * d2 <= int_abs(n2) * d1,
    }
}

pub proof fn lemma_mag_le_total(x: ScoreModel, y: ScoreModel)
    requires
        score_wf(x),
        score_wf(y),
    ensures
        mag_le(x, y) || mag_le(y, x),
{
}

pub proof fn lemma_mag_le_trans(x: ScoreModel, y: ScoreModel, z: ScoreModel)
    requires
        score_wf(x),
        score_wf(y),
        score_wf(z),
        mag_le(x, y),
        mag_le(y, z),
    ensures
        mag_le(x, z),
{
    match (x, y, z) {
        (
            ScoreModel::Finite { num: n1, den: d1 },
            ScoreModel::Finite { num: n2, den: d2 },
            ScoreModel::Finite { num: n3, den: d3 },
        ) => {
            let a1 = int_abs(n1);
            let a2 = int_abs(n2);
            let a3 = int_abs(n3);
            assert(a1 * d3 <= a3 * d1) by (nonlinear_arith)
                requires
                    a1 * d2 <= a2 * d1,
                    a2 * d3 <= a3 * d2,
                    d1 > 0,
                    d2 > 0,
                    d3 > 0,
                    a1 >= 0,
                    a2 >= 0,
                    a3 >= 0,
            ;
        },
        _ => {},
    }
}

/// Model of one scored pair: the two records, the fraction, and the pair's
/// original position.
pub struct PairModel {
    pub before: OptionModel,
    pub after: OptionModel,
    pub frac: ScoreModel,
    pub index: int,
}

/// One before/after pair with its change fraction and original position.
#[derive(Debug)]
pub struct ScoredPair {
    pub before: UciOption,
    pub after: UciOption,
    pub frac: Score,
    pub index: usize,
}

impl View for ScoredPair {
    type V = PairModel;

    open spec fn view(&self) -> PairModel {
        PairModel {
            before: self.before@,
            after: self.after@,
            frac: self.frac@,
            index: self.index as int,
        }
    }
}

/// Ranking order: descending magnitude of change, ties kept in original
/// positional order.
pub open spec fn rank_le(p: PairModel, q: PairModel) -> bool {
    if mag_le(p.frac, q.frac) && mag_le(q.frac, p.frac) {
        p.index <= q.index
    } else {
        mag_le(q.frac, p.frac)
    }
}

pub proof fn lemma_rank_le_total(p: PairModel, q: PairModel)
    requires
        score_wf(p.frac),
        score_wf(q.frac),
    ensures
        rank_le(p, q) || rank_le(q, p),
{
    lemma_mag_le_total(p.frac, q.frac);
}

pub proof fn lemma_rank_le_trans(p: PairModel, q: PairModel, t: PairModel)
    requires
        score_wf(p.frac),
        score_wf(q.frac),
        score_wf(t.frac),
        rank_le(p, q),
        rank_le(q, t),
    ensures
        rank_le(p, t),
{
    // Both hypotheses give `|t| <= |q|` and `|q| <= |p|`, whether the
    // magnitudes tie or not.
    assert(mag_le(t.frac, q.frac));
    assert(mag_le(q.frac, p.frac));
    lemma_mag_le_trans(t.frac, q.frac, p.frac);
    if mag_le(p.frac, t.frac) {
        // A tie between `p` and `t` forces ties across all three, so the
        // index order decides and composes.
        lemma_mag_le_trans(p.frac, t.frac, q.frac);
        lemma_mag_le_trans(q.frac, p.frac, t.frac);
    }
}

/// Computes the change fraction of one pair, exactly [`score_spec`].
pub fn score(b: &UciOption, a: &UciOption) -> (r: Score)
    ensures
        r@ == score_spec(b@, a@),
        score_wf(r@),
{
    match (b.min, b.max) {
        (Some(mn), Some(mx)) => {
            if mx == mn {
                Score::Maximal
            } else {
                let diff = (a.value as i128) - (b.value as i128);
                let range = (mx as i128) - (mn as i128);
                if range > 0 {
                    Score::Finite { num: diff, den: range as u128 }
                } else {
                    Score::Finite { num: -diff, den: (-range) as u128 }
                }
            }
        },
        _ => Score::Finite { num: 0, den: 1 },
    }
}

/// The two sequences describe the same options in the same order.
pub open spec fn names_match(b: Seq<OptionModel>, a: Seq<OptionModel>) -> bool {
    b.len() == a.len() && forall|i: int| 0 <= i < b.len() ==> (#[trigger] b[i]).name == a[i].name
}

pub open spec fn rec_views(v: Seq<UciOption>) -> Seq<OptionModel> {
    v.map_values(|o: UciOption| o@)
}

/// Pairs the two record sequences positionally and scores each pair.
///
/// Succeeds exactly when the sequences have equal length and equal names at
/// every position; any mismatch is reported, never silently truncated.
/// An owned copy of a record, equal to it in the model.
fn copy_rec(o: &UciOption) -> (r: UciOption)
    ensures
        r@ == o@,
{
    UciOption {
        name: o.name.clone(),
        value: o.value,
        min: o.min,
        max: o.max,
        step: o.step,
    }
}

pub fn pair(before: &Vec<UciOption>, after: &Vec<UciOption>) -> (r: Result<Vec<ScoredPair>, Error>)
    ensures
        r is Ok <==> names_match(rec_views(before@), rec_views(after@)),
        r matches Err(e) ==> e == Error::PairingMismatch,
        r matches Ok(ps) ==> {
            &&& ps@.len() == before@.len()
            &&& forall|i: int| 0 <= i < ps@.len() ==> {
                &&& (#[trigger] ps@[i])@.before == before@[i]@
                &&& ps@[i]@.after == after@[i]@
                &&& ps@[i]@.index == i
                &&& ps@[i]@.frac == score_spec(before@[i]@, after@[i]@)
                &&& score_wf(ps@[i]@.frac)
            }
        },
{
    if before.len() != after.len() {
        return Err(Error::PairingMismatch);
    }
    let n = before.len();
    let mut out: Vec<ScoredPair> = Vec::new();
    let mut i: usize = 0;
    while i < n
        invariant
            0 <= i <= n == before@.len() == after@.len(),
            out@.len() == i,
            forall|k: int| 0 <= k < i ==> (#[trigger] before@[k])@.name == after@[k]@.name,
            forall|k: int| 0 <= k < i ==> {
                &&& (#[trigger] out@[k])@.before == before@[k]@
                &&& out@[k]@.after == after@[k]@
                &&& out@[k]@.index == k
                &&& out@[k]@.frac == score_spec(before@[k]@, after@[k]@)
                &&& score_wf(out@[k]@.frac)
            },
        decreases n - i,
    {
        let b = &before[i];
        let a = &after[i];
        if !b.name.eq(&a.name) {
            proof {
                assert(rec_views(before@)[i as int].name != rec_views(after@)[i as int].name);
            }
            return Err(Error::PairingMismatch);
        }
        let frac = score(b, a);
        out.push(ScoredPair { before: copy_rec(b), after: copy_rec(a), frac, index: i });
        i = i + 1;
    }
    proof {
        assert forall|k: int| 0 <= k < n implies (#[trigger] rec_views(before@)[k]).name
            == rec_views(after@)[k].name by {
            assert(before@[k]@.name == after@[k]@.name);
        }
    }
    Ok(out)
}

fn mag_le_exec(x: &Score, y: &Score) -> (r: bool)
    requires
        score_wf(x@),
        score_wf(y@),
    ensures
        r == mag_le(x@, y@),
{
    match (x, y) {
        (_, Score::Maximal) => true,
        (Score::Maximal, _) => false,
        (Score::Finite { num: n1, den: d1 }, Score::Finite { num: n2, den: d2 }) => {
            let a1: u128 = if *n1 < 0 {
                (-*n1) as u128
            } else {
                *n1 as u128
            };
            let a2: u128 = if *n2 < 0 {
                (-*n2) as u128
            } else {
                *n2 as u128
            };
            proof {
                assert(a1 * *d2 <= u64::MAX as int * u64::MAX as int) by (nonlinear_arith)
                    requires a1 <= u64::MAX, *d2 <= u64::MAX;
                assert(a2 * *d1 <= u64::MAX as int * u64::MAX as int) by (nonlinear_arith)
                    requires a2 <= u64::MAX, *d1 <= u64::MAX;
            }
            a1 * *d2 <= a2 * *d1
        },
    }
}

fn rank_le_exec(p: &ScoredPair, q: &ScoredPair) -> (r: bool)
    requires
        score_wf(p@.frac),
        score_wf(q@.frac),
    ensures
        r == rank_le(p@, q@),
{
    let pq = mag_le_exec(&p.frac, &q.frac);
    let qp = mag_le_exec(&q.frac, &p.frac);
    if pq && qp {
        p.index <= q.index
    } else {
        qp
    }
}

/// Inserting an element anywhere adds exactly it to the sequence's multiset.
proof fn lemma_insert_multiset(s: Seq<ScoredPair>, p: int, x: ScoredPair)
    requires
        0 <= p <= s.len(),
    ensures
        s.insert(p, x).to_multiset() == s.to_multiset().insert(x),
{
    broadcast use vstd::seq_lib::group_to_multiset_ensures;
    broadcast use vstd::multiset::group_multiset_axioms;

    let aa = s.subrange(0, p);
    let bb = s.subrange(p, s.len() as int);
    assert(s =~= aa + bb);
    vstd::seq_lib::lemma_multiset_commutative(aa, bb);
    vstd::seq_lib::lemma_multiset_commutative(aa.push(x), bb);
    assert(s.insert(p, x).to_multiset() =~= s.to_multiset().insert(x));
}

/// Sorts pairs into ranking order: the same pairs (as a multiset),
/// descending by magnitude of change, ties kept in original order.
pub fn rank(pairs: Vec<ScoredPair>) -> (r: Vec<ScoredPair>)
    requires
        forall|k: int| 0 <= k < pairs@.len() ==> score_wf((#[trigger] pairs@[k])@.frac),
    ensures
        r@.to_multiset() == pairs@.to_multiset(),
        r@.len() == pairs@.len(),
        forall|i: int, j: int| 0 <= i < j < r@.len() ==> rank_le(r@[i]@, r@[j]@),
        forall|k: int| 0 <= k < r@.len() ==> score_wf((#[trigger] r@[k])@.frac),
{
    let ghost pfull = pairs@;
    let mut rest = pairs;
    let mut out: Vec<ScoredPair> = Vec::new();
    proof {
        broadcast use vstd::seq_lib::group_to_multiset_ensures;
        broadcast use vstd::multiset::group_multiset_axioms;

        assert(out@.to_multiset().add(rest@.to_multiset()) =~= pfull.to_multiset());
    }
    while rest.len() > 0
        invariant
            out@.to_multiset().add(rest@.to_multiset()) == pfull.to_multiset(),
            out@.len() + rest@.len() == pfull.len(),
            forall|i: int, j: int| 0 <= i < j < out@.len() ==> rank_le(out@[i]@, out@[j]@),
            forall|k: int| 0 <= k < out@.len() ==> score_wf((#[trigger] out@[k])@.frac),
            forall|k: int| 0 <= k < rest@.len() ==> score_wf((#[trigger] rest@[k])@.frac),
        decreases rest@.len(),
    {
        let ghost old_out = out@;
        let ghost old_rest = rest@;
        let x = rest.remove(0);
        proof {
            broadcast use vstd::seq_lib::group_to_multiset_ensures;
            broadcast use vstd::multiset::group_multiset_axioms;

            assert(old_rest.contains(x));
            assert(rest@.to_multiset() =~= old_rest.to_multiset().remove(x));
            assert forall|k: int| 0 <= k < rest@.len() implies score_wf(
                (#[trigger] rest@[k])@.frac,
            ) by {
                assert(rest@[k] == old_rest[k + 1]);
            }
        }
        let mut p: usize = 0;
        let mut searching = true;
        while searching && p < out.len()
            invariant
                0 <= p <= out@.len(),
                out@ == old_out,
                score_wf(x@.frac),
                forall|k: int| 0 <= k < out@.len() ==> score_wf((#[trigger] out@[k])@.frac),
                forall|k: int| 0 <= k < p ==> rank_le((#[trigger] out@[k])@, x@),
                !searching ==> p < out@.len() && !rank_le(out@[p as int]@, x@),
            decreases out@.len() - p + (if searching { 1int } else { 0int }),
        {
            if rank_le_exec(&out[p], &x) {
                p = p + 1;
            } else {
                searching = false;
            }
        }
        proof {
            if p < out@.len() {
                lemma_rank_le_total(out@[p as int]@, x@);
                assert(rank_le(x@, out@[p as int]@));
            }
        }
        out.insert(p, x);
        proof {
            old_out.insert_ensures(p as int, x);
            lemma_insert_multiset(old_out, p as int, x);
            broadcast use vstd::multiset::group_multiset_axioms;

            assert(out@.to_multiset().add(rest@.to_multiset()) =~= pfull.to_multiset());
            let pi = p as int;
            assert forall|a: int, b: int| 0 <= a < b < out@.len() implies rank_le(
                out@[a]@,
                out@[b]@,
            ) by {
                if b < pi {
                } else if b == pi {
                    assert(out@[a] == old_out[a]);
                } else if a < pi {
                    assert(out@[a] == old_out[a]);
                    assert(out@[b] == old_out[b - 1]);
                } else if a == pi {
                    assert(out@[b] == old_out[b - 1]);
                    if b - 1 > pi {
                        lemma_rank_le_trans(x@, old_out[pi]@, old_out[b - 1]@);
                    }
                } else {
                    assert(out@[a] == old_out[a - 1]);
                    assert(out@[b] == old_out[b - 1]);
                }
            }
        }
    }
    proof {
        broadcast use vstd::seq_lib::group_to_multiset_ensures;
        broadcast use vstd::multiset::group_multiset_axioms;

        assert(out@.to_multiset() =~= pfull.to_multiset());
        assert(out@.to_multiset().len() == pfull.to_multiset().len());
    }
    out
}

} // verus!
