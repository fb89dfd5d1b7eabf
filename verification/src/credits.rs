//! Credits: which rule family brought which records to the tape.

use crate::result::{ReductionKind, Reductions, RuleId, KINDS, RULES};
use crate::schedule::Action;
use crate::tape::Rule;
use vstd::prelude::*;

verus! {

/// The rule family that an action belongs to.
pub open spec fn family(action: Action) -> RuleId {
    match action {
        Action::FixedVariables => RuleId::FixedVariables,
        Action::SimplifyCones => RuleId::Cones,
        Action::EmptyColumns => RuleId::EmptyColumns,
        Action::SimpleDualFix | Action::CoupledDualFix => RuleId::DualFixing,
        Action::SingletonRows => RuleId::SingletonRows,
        Action::EmptyRows | Action::Cleanup => RuleId::EmptyRows,
        Action::SingletonColumns => RuleId::SingletonColumns,
        Action::DoubletonEqualities => RuleId::DoubletonEqualities,
        Action::ShortEqualities => RuleId::ShortEqualities,
        Action::PropagateRounds | Action::PropagateBounds => RuleId::BoundPropagation,
        Action::ParallelRows => RuleId::ParallelRows,
        Action::ParallelColumns => RuleId::ParallelColumns,
        Action::EqualityDependencies => RuleId::EqualityDependencies,
        Action::SparsifyRows => RuleId::Sparsification,
        Action::RemoveRedundantBounds => RuleId::RedundantBounds,
        Action::FoldLp => RuleId::LpFolding,
        Action::ImpliedFreeEqualities => RuleId::ImpliedFreeEqualities,
        Action::BoundShift => RuleId::BoundShift,
        Action::DualPropagation => RuleId::DualPropagation,
        Action::DominatedColumns => RuleId::DominatedColumns,
    }
}

pub fn family_of(action: Action) -> (rule: RuleId)
    ensures
        rule == family(action),
{
    match action {
        Action::FixedVariables => RuleId::FixedVariables,
        Action::SimplifyCones => RuleId::Cones,
        Action::EmptyColumns => RuleId::EmptyColumns,
        Action::SimpleDualFix | Action::CoupledDualFix => RuleId::DualFixing,
        Action::SingletonRows => RuleId::SingletonRows,
        Action::EmptyRows | Action::Cleanup => RuleId::EmptyRows,
        Action::SingletonColumns => RuleId::SingletonColumns,
        Action::DoubletonEqualities => RuleId::DoubletonEqualities,
        Action::ShortEqualities => RuleId::ShortEqualities,
        Action::PropagateRounds | Action::PropagateBounds => RuleId::BoundPropagation,
        Action::ParallelRows => RuleId::ParallelRows,
        Action::ParallelColumns => RuleId::ParallelColumns,
        Action::EqualityDependencies => RuleId::EqualityDependencies,
        Action::SparsifyRows => RuleId::Sparsification,
        Action::RemoveRedundantBounds => RuleId::RedundantBounds,
        Action::FoldLp => RuleId::LpFolding,
        Action::ImpliedFreeEqualities => RuleId::ImpliedFreeEqualities,
        Action::BoundShift => RuleId::BoundShift,
        Action::DualPropagation => RuleId::DualPropagation,
        Action::DominatedColumns => RuleId::DominatedColumns,
    }
}

/// What a record counts as. Trees and folds are counted nowhere.
pub open spec fn kind_of(rule: Rule) -> Option<ReductionKind> {
    match rule {
        Rule::ConeSlack { .. } => Some(ReductionKind::ConeSlack),
        Rule::SocToLinear { .. } => Some(ReductionKind::SocToLinear),
        Rule::SocFace { .. } => Some(ReductionKind::SocFace),
        Rule::PsdZeroFace { .. } => Some(ReductionKind::PsdZeroFace),
        Rule::RowCombination { .. } => Some(ReductionKind::RowCombination),
        Rule::Fixed { .. } => Some(ReductionKind::Fixed),
        Rule::Substituted { .. } => Some(ReductionKind::Substituted),
        Rule::DependentRow { .. } => Some(ReductionKind::DependentRow),
        Rule::MergedRow { .. } => Some(ReductionKind::MergedRow),
        Rule::DeletedRow(_) => Some(ReductionKind::DeletedRow),
        Rule::TightenedBound { .. } => Some(ReductionKind::TightenedBound),
        Rule::TightenedRow { .. } => Some(ReductionKind::TightenedRow),
        Rule::ParallelColumns { .. } => Some(ReductionKind::ParallelColumns),
        Rule::Unlocked { .. } => Some(ReductionKind::Unlocked),
        Rule::DoubletonChain { .. } => None,
        Rule::BoundShift { .. } => Some(ReductionKind::BoundShift),
        Rule::LpFold { .. } => None,
        Rule::Eliminated { .. } => Some(ReductionKind::Eliminated),
    }
}

pub fn record_kind(rule: &Rule) -> (kind: Option<ReductionKind>)
    ensures
        kind == kind_of(*rule),
{
    match rule {
        Rule::ConeSlack { .. } => Some(ReductionKind::ConeSlack),
        Rule::SocToLinear { .. } => Some(ReductionKind::SocToLinear),
        Rule::SocFace { .. } => Some(ReductionKind::SocFace),
        Rule::PsdZeroFace { .. } => Some(ReductionKind::PsdZeroFace),
        Rule::RowCombination { .. } => Some(ReductionKind::RowCombination),
        Rule::Fixed { .. } => Some(ReductionKind::Fixed),
        Rule::Substituted { .. } => Some(ReductionKind::Substituted),
        Rule::DependentRow { .. } => Some(ReductionKind::DependentRow),
        Rule::MergedRow { .. } => Some(ReductionKind::MergedRow),
        Rule::DeletedRow(_) => Some(ReductionKind::DeletedRow),
        Rule::TightenedBound { .. } => Some(ReductionKind::TightenedBound),
        Rule::TightenedRow { .. } => Some(ReductionKind::TightenedRow),
        Rule::ParallelColumns { .. } => Some(ReductionKind::ParallelColumns),
        Rule::Unlocked { .. } => Some(ReductionKind::Unlocked),
        Rule::DoubletonChain { .. } => None,
        Rule::BoundShift { .. } => Some(ReductionKind::BoundShift),
        Rule::LpFold { .. } => None,
        Rule::Eliminated { .. } => Some(ReductionKind::Eliminated),
    }
}

/// The records of a kind among those from place `from` up to place `n`.
pub open spec fn records(tape: Seq<Rule>, from: nat, n: nat, kind: int) -> nat
    decreases n,
{
    if n <= from {
        0
    } else {
        records(tape, from, (n - 1) as nat, kind) + (if kind_of(tape[n - 1]) matches Some(found)
            && found.position() == kind {
            1nat
        } else {
            0
        })
    }
}

/// A count, as far as a counter goes.
pub open spec fn at_most(n: int) -> int {
    if n > usize::MAX {
        usize::MAX as int
    } else {
        n
    }
}

/// Credit the records from a place on to a rule family.
pub fn credit(reductions: &mut Reductions, rule: RuleId, tape: &Vec<Rule>, from: usize)
    requires
        old(reductions).wf(),
        forall|r: int, k: int|
            0 <= r < RULES && 0 <= k < KINDS ==> 0 <= #[trigger] old(reductions).at(r, k)
                <= usize::MAX,
    ensures
        final(reductions).wf(),
        forall|r: int, k: int|
            0 <= r < RULES && 0 <= k < KINDS ==> #[trigger] final(reductions).at(r, k) == at_most(
                old(reductions).at(r, k) + (if r == rule.position() {
                    records(tape@, from as nat, tape@.len(), k) as int
                } else {
                    0
                }),
            ),
{
    let ghost start = *reductions;
    let mut n: usize = if from < tape.len() {
        from
    } else {
        tape.len()
    };
    proof {
        assert forall|k: int| #[trigger] records(tape@, from as nat, n as nat, k) == 0 by {}
    }
    while n < tape.len()
        invariant
            n <= tape@.len(),
            n >= from || n == tape@.len(),
            reductions.wf(),
            forall|r: int, k: int|
                0 <= r < RULES && 0 <= k < KINDS ==> 0 <= #[trigger] start.at(r, k) <= usize::MAX,
            forall|r: int, k: int|
                0 <= r < RULES && 0 <= k < KINDS ==> #[trigger] reductions.at(r, k) == at_most(
                    start.at(r, k) + (if r == rule.position() {
                        records(tape@, from as nat, n as nat, k) as int
                    } else {
                        0
                    }),
                ),
        decreases tape@.len() - n,
    {
        let ghost before = *reductions;
        match record_kind(&tape[n]) {
            Some(kind) => {
                proof {
                    assert(0 <= rule.position() < RULES && 0 <= kind.position() < KINDS);
                }
                if reductions.count(rule, kind) < usize::MAX {
                    reductions.add(rule, kind);
                }
            },
            None => {},
        }
        n = n + 1;
        proof {
            assert forall|r: int, k: int| 0 <= r < RULES && 0 <= k < KINDS implies
                #[trigger] reductions.at(r, k) == at_most(
                start.at(r, k) + (if r == rule.position() {
                    records(tape@, from as nat, n as nat, k) as int
                } else {
                    0
                }),
            ) by {
                assert(before.at(r, k) == before.at(r, k));
                assert(start.at(r, k) >= 0);
            }
        }
    }
}

} // verus!
