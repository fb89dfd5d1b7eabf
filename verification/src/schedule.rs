//! The order of the rules. Cheap cleanup surrounds fast and medium phases; fast
//! phases repeat while they pay, and a cycle ends with a medium phase.

use crate::arithmetic::Arithmetic;
use crate::bounds::RowDomain;
use crate::linked;
use crate::model::Model;
use crate::number::{one, zero, Real};
use crate::queues;
use crate::settings::{Progress, Rules};
use vstd::prelude::*;

verus! {

/// The bit pattern of one twentieth.
pub const TWENTIETH: u64 = 0x3fa999999999999a;

/// One thing to do to the model.
#[derive(Clone, Copy, Debug, PartialEq, Eq, Structural)]
pub enum Action {
    FixedVariables,
    SimplifyCones,
    EmptyColumns,
    SimpleDualFix,
    SingletonRows,
    EmptyRows,
    /// The cheap rules, until they change nothing.
    Cleanup,
    SingletonColumns,
    DoubletonEqualities,
    ShortEqualities,
    PropagateRounds,
    PropagateBounds,
    CoupledDualFix,
    ParallelRows,
    ParallelColumns,
    EqualityDependencies,
    SparsifyRows,
    RemoveRedundantBounds,
    FoldLp,
    ImpliedFreeEqualities,
    BoundShift,
    DualPropagation,
    DominatedColumns,
}

/// An action, if its rule is on.
pub open spec fn when(on: bool, action: Action) -> Seq<Action> {
    if on {
        seq![action]
    } else {
        Seq::empty()
    }
}

fn add_when(list: &mut Vec<Action>, on: bool, action: Action)
    ensures
        final(list)@ == old(list)@ + when(on, action),
{
    if on {
        list.push(action);
    }
    assert(list@ =~= old(list)@ + when(on, action));
}

fn add_always(list: &mut Vec<Action>, action: Action)
    ensures
        final(list)@ == old(list)@ + seq![action],
{
    list.push(action);
    assert(list@ =~= old(list)@ + seq![action]);
}

/// The cheap rules, in order.
pub open spec fn cleanup_order(rules: Rules, cones: bool) -> Seq<Action> {
    when(rules.fixed_variables, Action::FixedVariables) + when(
        rules.cones && cones,
        Action::SimplifyCones,
    ) + when(rules.empty_columns, Action::EmptyColumns) + when(
        rules.dual_fixing,
        Action::SimpleDualFix,
    ) + when(rules.singleton_rows, Action::SingletonRows) + when(
        rules.empty_rows,
        Action::EmptyRows,
    ) + when(rules.cones && cones, Action::SimplifyCones)
}

/// One pass of cleanup. Passes repeat until one leaves the model as it was.
pub fn cleanup_actions(rules: Rules, cones: bool) -> (list: Vec<Action>)
    ensures
        list@ == cleanup_order(rules, cones),
{
    let mut list: Vec<Action> = Vec::new();
    add_when(&mut list, rules.fixed_variables, Action::FixedVariables);
    add_when(&mut list, rules.cones && cones, Action::SimplifyCones);
    add_when(&mut list, rules.empty_columns, Action::EmptyColumns);
    add_when(&mut list, rules.dual_fixing, Action::SimpleDualFix);
    add_when(&mut list, rules.singleton_rows, Action::SingletonRows);
    add_when(&mut list, rules.empty_rows, Action::EmptyRows);
    add_when(&mut list, rules.cones && cones, Action::SimplifyCones);
    assert(list@ =~= cleanup_order(rules, cones));
    list
}

/// A fast phase, after its first cleanup.
pub open spec fn fast_order(rules: Rules) -> Seq<Action> {
    when(rules.singleton_columns, Action::SingletonColumns) + seq![Action::Cleanup] + when(
        rules.implied_free_equalities,
        Action::ImpliedFreeEqualities,
    ) + when(
        rules.doubleton_equalities,
        Action::DoubletonEqualities,
    ) + when(rules.short_equalities, Action::ShortEqualities) + seq![Action::Cleanup]
}

pub fn fast_actions(rules: Rules) -> (list: Vec<Action>)
    ensures
        list@ == fast_order(rules),
{
    let mut list: Vec<Action> = Vec::new();
    add_when(&mut list, rules.singleton_columns, Action::SingletonColumns);
    list.push(Action::Cleanup);
    add_when(&mut list, rules.implied_free_equalities, Action::ImpliedFreeEqualities);
    add_when(&mut list, rules.doubleton_equalities, Action::DoubletonEqualities);
    add_when(&mut list, rules.short_equalities, Action::ShortEqualities);
    list.push(Action::Cleanup);
    assert(list@ =~= fast_order(rules));
    list
}

/// A medium phase, after its first cleanup.
pub open spec fn medium_order(rules: Rules) -> Seq<Action> {
    when(rules.bound_propagation, Action::PropagateRounds) + when(
        rules.dual_fixing,
        Action::CoupledDualFix,
    ) + seq![Action::Cleanup] + when(
        rules.implied_free_equalities,
        Action::ImpliedFreeEqualities,
    ) + when(rules.short_equalities, Action::ShortEqualities) + seq![
        Action::Cleanup,
    ] + when(rules.parallel_rows, Action::ParallelRows) + when(
        rules.parallel_columns,
        Action::ParallelColumns,
    ) + when(rules.dominated_columns, Action::DominatedColumns) + seq![Action::Cleanup]
}

pub fn medium_actions(rules: Rules) -> (list: Vec<Action>)
    ensures
        list@ == medium_order(rules),
{
    let mut list: Vec<Action> = Vec::new();
    add_when(&mut list, rules.bound_propagation, Action::PropagateRounds);
    assert(list@ =~= when(rules.bound_propagation, Action::PropagateRounds));
    add_when(&mut list, rules.dual_fixing, Action::CoupledDualFix);
    add_always(&mut list, Action::Cleanup);
    add_when(&mut list, rules.implied_free_equalities, Action::ImpliedFreeEqualities);
    add_when(&mut list, rules.short_equalities, Action::ShortEqualities);
    add_always(&mut list, Action::Cleanup);
    add_when(&mut list, rules.parallel_rows, Action::ParallelRows);
    add_when(&mut list, rules.parallel_columns, Action::ParallelColumns);
    add_when(&mut list, rules.dominated_columns, Action::DominatedColumns);
    add_always(&mut list, Action::Cleanup);
    list
}

/// One pass that drains the consequences of a structural change, with a round of
/// propagation where asked for.
pub open spec fn drain_order(rules: Rules, propagate: bool) -> Seq<Action> {
    seq![Action::Cleanup] + when(
        propagate && rules.bound_propagation,
        Action::PropagateBounds,
    ) + when(rules.singleton_columns, Action::SingletonColumns) + when(
        rules.implied_free_equalities,
        Action::ImpliedFreeEqualities,
    ) + when(rules.doubleton_equalities, Action::DoubletonEqualities) + when(
        rules.short_equalities,
        Action::ShortEqualities,
    ) + seq![Action::Cleanup]
}

pub fn drain_actions(rules: Rules, propagate: bool) -> (list: Vec<Action>)
    ensures
        list@ == drain_order(rules, propagate),
{
    let mut list: Vec<Action> = Vec::new();
    list.push(Action::Cleanup);
    add_when(&mut list, propagate && rules.bound_propagation, Action::PropagateBounds);
    add_when(&mut list, rules.singleton_columns, Action::SingletonColumns);
    add_when(&mut list, rules.implied_free_equalities, Action::ImpliedFreeEqualities);
    add_when(&mut list, rules.doubleton_equalities, Action::DoubletonEqualities);
    add_when(&mut list, rules.short_equalities, Action::ShortEqualities);
    list.push(Action::Cleanup);
    assert(list@ =~= drain_order(rules, propagate));
    list
}

/// The number that stands for a count.
pub open spec fn counted<C: Fn(usize) -> Real>(count: C, n: usize) -> Real {
    choose|r: Real| call_ensures(count, (n,), r)
}

/// A function of the count alone.
pub open spec fn counts<C: Fn(usize) -> Real>(count: C) -> bool {
    &&& forall|n: usize| #[trigger] call_requires(count, (n,))
    &&& forall|n: usize, r: Real, s: Real| #[trigger]
        call_ensures(count, (n,), r) && #[trigger] call_ensures(count, (n,), s) ==> r == s
}

/// A share between nothing and all; the standard share where there is none.
pub open spec fn share(minimum: Real) -> Real {
    if minimum.nan() {
        Real { bits: TWENTIETH }
    } else if minimum.lt(zero()) {
        zero()
    } else if one().lt(minimum) {
        one()
    } else {
        minimum
    }
}

impl<
    P: Fn(Real, Real) -> Real,
    T: Fn(Real, Real) -> Real,
    D: Fn(Real, Real) -> Real,
    H: Fn(Real, Real) -> Real,
> Arithmetic<P, T, D, H> {
    /// Whether a phase paid.
    pub open spec fn progressed<C: Fn(usize) -> Real>(
        &self,
        policy: Progress,
        before: usize,
        after: usize,
        changed: bool,
        count: C,
    ) -> bool {
        match policy {
            Progress::AnyChange => changed,
            Progress::Nonzeros { minimum_reduction } => before > 0 && counted(count, after).lt(
                self.product(
                    self.difference(one(), share(minimum_reduction)),
                    counted(count, before),
                ),
            ),
        }
    }

    pub fn significant_progress<C: Fn(usize) -> Real>(
        &self,
        policy: Progress,
        before: usize,
        after: usize,
        changed: bool,
        count: &C,
    ) -> (b: bool)
        requires
            self.wf(),
            counts(*count),
        ensures
            b == self.progressed(policy, before, after, changed, *count),
    {
        match policy {
            Progress::AnyChange => changed,
            Progress::Nonzeros { minimum_reduction } => {
                let threshold = if minimum_reduction.is_nan() {
                    Real::from_bits(TWENTIETH)
                } else if minimum_reduction.less(zero()) {
                    zero()
                } else if one().less(minimum_reduction) {
                    one()
                } else {
                    minimum_reduction
                };
                let (left, right): (Real, Real) = (count(after), count(before));
                assert(left == counted(*count, after));
                assert(right == counted(*count, before));
                before > 0 && left.less(
                    self.product_of(self.difference_of(one(), threshold), right),
                )
            },
        }
    }
}

/// The rules that run once, after the cycles.
pub open spec fn closing_order(rules: Rules) -> Seq<Action> {
    when(rules.equality_dependencies, Action::EqualityDependencies) + when(
        rules.sparsification,
        Action::SparsifyRows,
    ) + when(rules.redundant_bounds, Action::RemoveRedundantBounds) + when(
        rules.implied_free_equalities,
        Action::ImpliedFreeEqualities,
    ) + when(rules.bound_shift, Action::BoundShift) + when(
        rules.dual_propagation,
        Action::DualPropagation,
    )
}

/// Where a run stands.
#[derive(Clone, Copy, Debug, PartialEq, Eq, Structural)]
pub struct Schedule {
    pub progress: Progress,
    pub fast: bool,
    pub cycle_size: usize,
    pub cycle_revision: usize,
    /// The model at the start of the current phase.
    pub before: usize,
    pub before_revision: usize,
    pub fast_phases: usize,
    pub medium_phases: usize,
    pub time_limit: bool,
}

/// What follows a phase.
#[derive(Clone, Copy, Debug, PartialEq, Eq, Structural)]
pub enum After {
    /// Another phase.
    Repeat,
    /// Another phase, with every equality looked at again.
    Revisit,
    /// The cycles are over.
    Finish,
}

impl Schedule {
    /// A run starts with a fast phase.
    pub fn begin(progress: Progress, size: usize, revision: usize) -> (schedule: Self)
        ensures
            schedule == (Schedule {
                progress,
                fast: true,
                cycle_size: size,
                cycle_revision: revision,
                before: size,
                before_revision: revision,
                fast_phases: 0,
                medium_phases: 0,
                time_limit: false,
            }),
    {
        Schedule {
            progress,
            fast: true,
            cycle_size: size,
            cycle_revision: revision,
            before: size,
            before_revision: revision,
            fast_phases: 0,
            medium_phases: 0,
            time_limit: false,
        }
    }

    /// Whether another phase may start.
    pub fn proceed(&mut self, time_up: bool) -> (go: bool)
        ensures
            go == !time_up,
            *final(self) == (Schedule {
                time_limit: old(self).time_limit || time_up,
                ..*old(self)
            }),
    {
        if time_up {
            self.time_limit = true;
        }
        !time_up
    }

    /// Start a phase after its cleanup, on a model of this size, and list what it
    /// does.
    pub fn start(&mut self, rules: Rules, size: usize, revision: usize) -> (list: Vec<Action>)
        requires
            old(self).fast_phases < usize::MAX,
            old(self).medium_phases < usize::MAX,
        ensures
            list@ == (if old(self).fast {
                fast_order(rules)
            } else {
                medium_order(rules)
            }),
            *final(self) == (Schedule {
                before: size,
                before_revision: revision,
                fast_phases: (old(self).fast_phases + if old(self).fast {
                    1int
                } else {
                    0
                }) as usize,
                medium_phases: (old(self).medium_phases + if old(self).fast {
                    0int
                } else {
                    1
                }) as usize,
                ..*old(self)
            }),
    {
        self.before = size;
        self.before_revision = revision;
        if self.fast {
            self.fast_phases = self.fast_phases + 1;
            fast_actions(rules)
        } else {
            self.medium_phases = self.medium_phases + 1;
            medium_actions(rules)
        }
    }

    /// The next standing, and what follows.
    pub open spec fn ended<
        P: Fn(Real, Real) -> Real,
        T: Fn(Real, Real) -> Real,
        D: Fn(Real, Real) -> Real,
        H: Fn(Real, Real) -> Real,
        C: Fn(usize) -> Real,
    >(self, arithmetic: Arithmetic<P, T, D, H>, size: usize, revision: usize, count: C) -> (
        Schedule,
        After,
    ) {
        if self.fast {
            (
                Schedule {
                    fast: arithmetic.progressed(
                        self.progress,
                        self.before,
                        size,
                        self.before_revision != revision,
                        count,
                    ),
                    ..self
                },
                After::Repeat,
            )
        } else if !arithmetic.progressed(
            self.progress,
            self.cycle_size,
            size,
            self.cycle_revision != revision,
            count,
        ) {
            (self, After::Finish)
        } else {
            (
                Schedule { fast: true, cycle_size: size, cycle_revision: revision, ..self },
                if self.progress is AnyChange {
                    After::Revisit
                } else {
                    After::Repeat
                },
            )
        }
    }

    /// End a phase that left a model of this size.
    pub fn end<
        P: Fn(Real, Real) -> Real,
        T: Fn(Real, Real) -> Real,
        D: Fn(Real, Real) -> Real,
        H: Fn(Real, Real) -> Real,
        C: Fn(usize) -> Real,
    >(
        &mut self,
        arithmetic: &Arithmetic<P, T, D, H>,
        size: usize,
        revision: usize,
        count: &C,
    ) -> (after: After)
        requires
            arithmetic.wf(),
            counts(*count),
        ensures
            (*final(self), after) == old(self).ended(*arithmetic, size, revision, *count),
    {
        if self.fast {
            self.fast = arithmetic.significant_progress(
                self.progress,
                self.before,
                size,
                self.before_revision != revision,
                count,
            );
            return After::Repeat;
        }
        if !arithmetic.significant_progress(
            self.progress,
            self.cycle_size,
            size,
            self.cycle_revision != revision,
            count,
        ) {
            return After::Finish;
        }
        self.cycle_size = size;
        self.cycle_revision = revision;
        self.fast = true;
        match self.progress {
            Progress::AnyChange => After::Revisit,
            _ => After::Repeat,
        }
    }

    /// What is tried once the cycles are over, unless the time is. Each that
    /// changes the model is followed by passes that drain the consequences.
    pub fn closing(&self, rules: Rules) -> (list: Vec<Action>)
        ensures
            self.time_limit ==> list@.len() == 0,
            !self.time_limit ==> list@ == closing_order(rules),
    {
        let mut list: Vec<Action> = Vec::new();
        if self.time_limit {
            return list;
        }
        add_when(&mut list, rules.equality_dependencies, Action::EqualityDependencies);
        add_when(&mut list, rules.sparsification, Action::SparsifyRows);
        add_when(&mut list, rules.redundant_bounds, Action::RemoveRedundantBounds);
        add_when(&mut list, rules.implied_free_equalities, Action::ImpliedFreeEqualities);
        add_when(&mut list, rules.bound_shift, Action::BoundShift);
        add_when(&mut list, rules.dual_propagation, Action::DualPropagation);
        assert(list@ =~= closing_order(rules));
        list
    }
}

/// The equalities of two entries, or of more, from row `i` on.
pub open spec fn revisited(model: Model, list: Seq<usize>, two: bool, i: int) -> Seq<usize>
    decreases model.rows@.len() - i,
{
    if i >= model.rows@.len() {
        list
    } else {
        let length = linked::line_items(model.a@, false, i).len();
        let fits = if two {
            length == 2
        } else {
            length >= 3
        };
        revisited(
            model,
            if fits && (model.rows@[i] matches RowDomain::Linear(b) && b.is_equality()) {
                queues::scheduled(list, i as usize)
            } else {
                list
            },
            two,
            i + 1,
        )
    }
}

impl Model {
    /// Look at every equality again: a pivot's degree or curvature can change
    /// without an edit of the equality itself.
    pub fn revisit_equalities(&mut self)
        requires
            old(self).wf(),
        ensures
            final(self).wf(),
            final(self).a == old(self).a,
            final(self).rows == old(self).rows,
            final(self).bounds == old(self).bounds,
            final(self).revision == old(self).revision,
            final(self).tape == old(self).tape,
            final(self).queues.doubleton_rows@ == revisited(
                *old(self),
                old(self).queues.doubleton_rows@,
                true,
                0,
            ),
            final(self).queues.short_equalities@ == revisited(
                *old(self),
                old(self).queues.short_equalities@,
                false,
                0,
            ),
    {
        let ghost start = *self;
        let mut i: usize = 0;
        while i < self.rows.len()
            invariant
                i <= self.rows@.len(),
                start == *old(self),
                self.wf(),
                self.a == start.a,
                self.rows == start.rows,
                self.bounds == start.bounds,
                self.revision == start.revision,
                self.tape == start.tape,
                revisited(start, start.queues.doubleton_rows@, true, 0) == revisited(
                    start,
                    self.queues.doubleton_rows@,
                    true,
                    i as int,
                ),
                revisited(start, start.queues.short_equalities@, false, 0) == revisited(
                    start,
                    self.queues.short_equalities@,
                    false,
                    i as int,
                ),
            decreases self.rows@.len() - i,
        {
            let equality = match self.rows[i] {
                RowDomain::Linear(b) => b.equality(),
                _ => false,
            };
            if equality {
                let length: usize = self.a.row(i).len();
                assert(self.rows.len() == self.rows@.len());
                if length == 2 {
                    self.queues.doubleton_rows.push(i);
                } else if length >= 3 {
                    self.queues.short_equalities.push(i);
                }
            }
            i = i + 1;
        }
    }
}

/// A run whose policy counts any change goes on exactly while the model changes.
pub proof fn any_change_continues<
    P: Fn(Real, Real) -> Real,
    T: Fn(Real, Real) -> Real,
    D: Fn(Real, Real) -> Real,
    H: Fn(Real, Real) -> Real,
    C: Fn(usize) -> Real,
>(
    schedule: Schedule,
    arithmetic: Arithmetic<P, T, D, H>,
    size: usize,
    revision: usize,
    count: C,
)
    requires
        schedule.progress is AnyChange,
    ensures
        schedule.fast ==> schedule.ended(arithmetic, size, revision, count).0.fast == (
        schedule.before_revision != revision),
        !schedule.fast ==> (schedule.ended(arithmetic, size, revision, count).1 is Finish) == (
        schedule.cycle_revision == revision),
{
}

} // verus!
