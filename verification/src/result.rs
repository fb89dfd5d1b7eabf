//! Presolve outcomes, model sizes and execution statistics.

use vstd::prelude::*;

verus! {

/// Number of rule families.
pub const RULES: usize = 21;

/// Number of reduction kinds.
pub const KINDS: usize = 20;

/// Dimensions and nonzeros of a problem.
#[derive(Clone, Copy, Debug, Default, PartialEq, Eq, Structural)]
pub struct Size {
    pub variables: usize,
    pub linear_rows: usize,
    pub conic_rows: usize,
    /// Nonzero values, excluding explicitly stored zeros.
    pub a_nonzeros: usize,
    pub g_nonzeros: usize,
    /// Nonzeros of the full symmetric matrix: off-diagonal pairs count twice.
    pub p_nonzeros: usize,
}

/// Short-equality candidate decisions. Counts include revisits across passes.
#[derive(Clone, Copy, Debug, Default, PartialEq, Eq, Structural)]
pub struct EqualityStats {
    pub rows_examined: usize,
    /// Rows outside row limits, plus candidates outside column or domain limits.
    pub structural_rejections: usize,
    pub pivot_rejections: usize,
    pub work_rejections: usize,
    pub attempts: usize,
    /// Sum of the five rejection categories below.
    pub rejected_updates: usize,
    pub numerical_rejections: usize,
    pub constraint_fill_rejections: usize,
    pub quadratic_fill_rejections: usize,
    pub hessian_growth_rejections: usize,
    pub deadline_rejections: usize,
    pub accepted: usize,
    pub estimated_work: usize,
}

/// Scheduler phases completed, including a phase cut short by a certificate.
#[derive(Clone, Copy, Debug, Default, PartialEq, Eq, Structural)]
pub struct Phases {
    pub fast: usize,
    pub medium: usize,
}

/// What one presolve call did.
#[derive(Clone, Debug)]
pub struct Stats {
    pub equalities: EqualityStats,
    /// Elapsed nanoseconds.
    pub elapsed: u64,
    pub time_limit_reached: bool,
    pub before: Size,
    /// None when presolve stops on a certificate before producing a problem.
    pub after: Option<Size>,
    pub parallel_comparisons: usize,
    /// Whether Hessian coefficients or variable coordinates changed.
    pub quadratic_changed: bool,
    pub reductions: Reductions,
    pub phases: Phases,
}

/// Rule families that attribute reductions.
#[derive(Clone, Copy, Debug, PartialEq, Eq, Hash, Structural)]
pub enum RuleId {
    FixedVariables,
    EmptyColumns,
    QuadraticElimination,
    EmptyRows,
    DualFixing,
    DualPropagation,
    SingletonRows,
    SingletonColumns,
    DoubletonEqualities,
    ShortEqualities,
    ImpliedFreeEqualities,
    BoundShift,
    LpFolding,
    EqualityDependencies,
    BoundPropagation,
    RedundantBounds,
    ParallelRows,
    ParallelColumns,
    DominatedColumns,
    Sparsification,
    Cones,
}

impl RuleId {
    /// The position in the list of all.
    pub open spec fn position(self) -> int {
        match self {
            RuleId::FixedVariables => 0,
            RuleId::EmptyColumns => 1,
            RuleId::QuadraticElimination => 2,
            RuleId::EmptyRows => 3,
            RuleId::DualFixing => 4,
            RuleId::DualPropagation => 5,
            RuleId::SingletonRows => 6,
            RuleId::SingletonColumns => 7,
            RuleId::DoubletonEqualities => 8,
            RuleId::ShortEqualities => 9,
            RuleId::ImpliedFreeEqualities => 10,
            RuleId::BoundShift => 11,
            RuleId::LpFolding => 12,
            RuleId::EqualityDependencies => 13,
            RuleId::BoundPropagation => 14,
            RuleId::RedundantBounds => 15,
            RuleId::ParallelRows => 16,
            RuleId::ParallelColumns => 17,
            RuleId::DominatedColumns => 18,
            RuleId::Sparsification => 19,
            RuleId::Cones => 20,
        }
    }

    pub open spec fn text(self) -> Seq<char> {
        match self {
            RuleId::FixedVariables => "fixed_variables"@,
            RuleId::EmptyColumns => "empty_columns"@,
            RuleId::QuadraticElimination => "quadratic_elimination"@,
            RuleId::EmptyRows => "empty_rows"@,
            RuleId::DualFixing => "dual_fixing"@,
            RuleId::DualPropagation => "dual_propagation"@,
            RuleId::SingletonRows => "singleton_rows"@,
            RuleId::SingletonColumns => "singleton_columns"@,
            RuleId::DoubletonEqualities => "doubleton_equalities"@,
            RuleId::ShortEqualities => "short_equalities"@,
            RuleId::ImpliedFreeEqualities => "implied_free_equalities"@,
            RuleId::BoundShift => "bound_shift"@,
            RuleId::LpFolding => "lp_folding"@,
            RuleId::EqualityDependencies => "equality_dependencies"@,
            RuleId::BoundPropagation => "bound_propagation"@,
            RuleId::RedundantBounds => "redundant_bounds"@,
            RuleId::ParallelRows => "parallel_rows"@,
            RuleId::ParallelColumns => "parallel_columns"@,
            RuleId::DominatedColumns => "dominated_columns"@,
            RuleId::Sparsification => "sparsification"@,
            RuleId::Cones => "cones"@,
        }
    }

    pub fn index(self) -> (i: usize)
        ensures
            i == self.position(),
            i < RULES,
    {
        match self {
            RuleId::FixedVariables => 0,
            RuleId::EmptyColumns => 1,
            RuleId::QuadraticElimination => 2,
            RuleId::EmptyRows => 3,
            RuleId::DualFixing => 4,
            RuleId::DualPropagation => 5,
            RuleId::SingletonRows => 6,
            RuleId::SingletonColumns => 7,
            RuleId::DoubletonEqualities => 8,
            RuleId::ShortEqualities => 9,
            RuleId::ImpliedFreeEqualities => 10,
            RuleId::BoundShift => 11,
            RuleId::LpFolding => 12,
            RuleId::EqualityDependencies => 13,
            RuleId::BoundPropagation => 14,
            RuleId::RedundantBounds => 15,
            RuleId::ParallelRows => 16,
            RuleId::ParallelColumns => 17,
            RuleId::DominatedColumns => 18,
            RuleId::Sparsification => 19,
            RuleId::Cones => 20,
        }
    }

    /// All of them, in order.
    pub fn all() -> (list: Vec<Self>)
        ensures
            list@.len() == RULES,
            forall|i: int| 0 <= i < list@.len() ==> (#[trigger] list@[i]).position() == i,
            forall|x: Self| #[trigger] list@.contains(x),
    {
        let mut list: Vec<Self> = Vec::new();
        list.push(RuleId::FixedVariables);
        list.push(RuleId::EmptyColumns);
        list.push(RuleId::QuadraticElimination);
        list.push(RuleId::EmptyRows);
        list.push(RuleId::DualFixing);
        list.push(RuleId::DualPropagation);
        list.push(RuleId::SingletonRows);
        list.push(RuleId::SingletonColumns);
        list.push(RuleId::DoubletonEqualities);
        list.push(RuleId::ShortEqualities);
        list.push(RuleId::ImpliedFreeEqualities);
        list.push(RuleId::BoundShift);
        list.push(RuleId::LpFolding);
        list.push(RuleId::EqualityDependencies);
        list.push(RuleId::BoundPropagation);
        list.push(RuleId::RedundantBounds);
        list.push(RuleId::ParallelRows);
        list.push(RuleId::ParallelColumns);
        list.push(RuleId::DominatedColumns);
        list.push(RuleId::Sparsification);
        list.push(RuleId::Cones);
        proof {
            assert forall|x: Self| #[trigger] list@.contains(x) by {
                assert(list@[x.position()] == x);
            }
        }
        list
    }

    /// The name in reports.
    pub fn name(self) -> (text: &'static str)
        ensures
            text@ == self.text(),
    {
        match self {
            RuleId::FixedVariables => "fixed_variables",
            RuleId::EmptyColumns => "empty_columns",
            RuleId::QuadraticElimination => "quadratic_elimination",
            RuleId::EmptyRows => "empty_rows",
            RuleId::DualFixing => "dual_fixing",
            RuleId::DualPropagation => "dual_propagation",
            RuleId::SingletonRows => "singleton_rows",
            RuleId::SingletonColumns => "singleton_columns",
            RuleId::DoubletonEqualities => "doubleton_equalities",
            RuleId::ShortEqualities => "short_equalities",
            RuleId::ImpliedFreeEqualities => "implied_free_equalities",
            RuleId::BoundShift => "bound_shift",
            RuleId::LpFolding => "lp_folding",
            RuleId::EqualityDependencies => "equality_dependencies",
            RuleId::BoundPropagation => "bound_propagation",
            RuleId::RedundantBounds => "redundant_bounds",
            RuleId::ParallelRows => "parallel_rows",
            RuleId::ParallelColumns => "parallel_columns",
            RuleId::DominatedColumns => "dominated_columns",
            RuleId::Sparsification => "sparsification",
            RuleId::Cones => "cones",
        }
    }
}

/// Positions tell rules apart.
pub proof fn rule_positions_are_distinct(a: RuleId, b: RuleId)
    requires
        a.position() == b.position(),
    ensures
        a == b,
{
}

/// Kinds of model transformation. All but a relaxed bound correspond to one
/// recovery record; relaxing an implied bound needs no recovery.
#[derive(Clone, Copy, Debug, PartialEq, Eq, Hash, Structural)]
pub enum ReductionKind {
    LpFold,
    BoundShift,
    DoubletonChain,
    SocAggregated,
    ConeSlack,
    SocToLinear,
    SocFace,
    PsdZeroFace,
    RowCombination,
    Fixed,
    Substituted,
    DependentRow,
    MergedRow,
    DeletedRow,
    TightenedBound,
    RelaxedBound,
    TightenedRow,
    ParallelColumns,
    Unlocked,
    Eliminated,
}

impl ReductionKind {
    /// The position in the list of all.
    pub open spec fn position(self) -> int {
        match self {
            ReductionKind::LpFold => 0,
            ReductionKind::BoundShift => 1,
            ReductionKind::DoubletonChain => 2,
            ReductionKind::SocAggregated => 3,
            ReductionKind::ConeSlack => 4,
            ReductionKind::SocToLinear => 5,
            ReductionKind::SocFace => 6,
            ReductionKind::PsdZeroFace => 7,
            ReductionKind::RowCombination => 8,
            ReductionKind::Fixed => 9,
            ReductionKind::Substituted => 10,
            ReductionKind::DependentRow => 11,
            ReductionKind::MergedRow => 12,
            ReductionKind::DeletedRow => 13,
            ReductionKind::TightenedBound => 14,
            ReductionKind::RelaxedBound => 15,
            ReductionKind::TightenedRow => 16,
            ReductionKind::ParallelColumns => 17,
            ReductionKind::Unlocked => 18,
            ReductionKind::Eliminated => 19,
        }
    }

    pub open spec fn text(self) -> Seq<char> {
        match self {
            ReductionKind::LpFold => "lp_fold"@,
            ReductionKind::BoundShift => "bound_shift"@,
            ReductionKind::DoubletonChain => "doubleton_chain"@,
            ReductionKind::SocAggregated => "soc_aggregated"@,
            ReductionKind::ConeSlack => "cone_slack"@,
            ReductionKind::SocToLinear => "soc_to_linear"@,
            ReductionKind::SocFace => "soc_face"@,
            ReductionKind::PsdZeroFace => "psd_zero_face"@,
            ReductionKind::RowCombination => "row_combination"@,
            ReductionKind::Fixed => "fixed"@,
            ReductionKind::Substituted => "substituted"@,
            ReductionKind::DependentRow => "dependent_row"@,
            ReductionKind::MergedRow => "merged_row"@,
            ReductionKind::DeletedRow => "deleted_row"@,
            ReductionKind::TightenedBound => "tightened_bound"@,
            ReductionKind::RelaxedBound => "relaxed_bound"@,
            ReductionKind::TightenedRow => "tightened_row"@,
            ReductionKind::ParallelColumns => "parallel_columns"@,
            ReductionKind::Unlocked => "unlocked"@,
            ReductionKind::Eliminated => "eliminated"@,
        }
    }

    pub fn index(self) -> (i: usize)
        ensures
            i == self.position(),
            i < KINDS,
    {
        match self {
            ReductionKind::LpFold => 0,
            ReductionKind::BoundShift => 1,
            ReductionKind::DoubletonChain => 2,
            ReductionKind::SocAggregated => 3,
            ReductionKind::ConeSlack => 4,
            ReductionKind::SocToLinear => 5,
            ReductionKind::SocFace => 6,
            ReductionKind::PsdZeroFace => 7,
            ReductionKind::RowCombination => 8,
            ReductionKind::Fixed => 9,
            ReductionKind::Substituted => 10,
            ReductionKind::DependentRow => 11,
            ReductionKind::MergedRow => 12,
            ReductionKind::DeletedRow => 13,
            ReductionKind::TightenedBound => 14,
            ReductionKind::RelaxedBound => 15,
            ReductionKind::TightenedRow => 16,
            ReductionKind::ParallelColumns => 17,
            ReductionKind::Unlocked => 18,
            ReductionKind::Eliminated => 19,
        }
    }

    /// All of them, in order.
    pub fn all() -> (list: Vec<Self>)
        ensures
            list@.len() == KINDS,
            forall|i: int| 0 <= i < list@.len() ==> (#[trigger] list@[i]).position() == i,
            forall|x: Self| #[trigger] list@.contains(x),
    {
        let mut list: Vec<Self> = Vec::new();
        list.push(ReductionKind::LpFold);
        list.push(ReductionKind::BoundShift);
        list.push(ReductionKind::DoubletonChain);
        list.push(ReductionKind::SocAggregated);
        list.push(ReductionKind::ConeSlack);
        list.push(ReductionKind::SocToLinear);
        list.push(ReductionKind::SocFace);
        list.push(ReductionKind::PsdZeroFace);
        list.push(ReductionKind::RowCombination);
        list.push(ReductionKind::Fixed);
        list.push(ReductionKind::Substituted);
        list.push(ReductionKind::DependentRow);
        list.push(ReductionKind::MergedRow);
        list.push(ReductionKind::DeletedRow);
        list.push(ReductionKind::TightenedBound);
        list.push(ReductionKind::RelaxedBound);
        list.push(ReductionKind::TightenedRow);
        list.push(ReductionKind::ParallelColumns);
        list.push(ReductionKind::Unlocked);
        list.push(ReductionKind::Eliminated);
        proof {
            assert forall|x: Self| #[trigger] list@.contains(x) by {
                assert(list@[x.position()] == x);
            }
        }
        list
    }

    /// The name in reports.
    pub fn name(self) -> (text: &'static str)
        ensures
            text@ == self.text(),
    {
        match self {
            ReductionKind::LpFold => "lp_fold",
            ReductionKind::BoundShift => "bound_shift",
            ReductionKind::DoubletonChain => "doubleton_chain",
            ReductionKind::SocAggregated => "soc_aggregated",
            ReductionKind::ConeSlack => "cone_slack",
            ReductionKind::SocToLinear => "soc_to_linear",
            ReductionKind::SocFace => "soc_face",
            ReductionKind::PsdZeroFace => "psd_zero_face",
            ReductionKind::RowCombination => "row_combination",
            ReductionKind::Fixed => "fixed",
            ReductionKind::Substituted => "substituted",
            ReductionKind::DependentRow => "dependent_row",
            ReductionKind::MergedRow => "merged_row",
            ReductionKind::DeletedRow => "deleted_row",
            ReductionKind::TightenedBound => "tightened_bound",
            ReductionKind::RelaxedBound => "relaxed_bound",
            ReductionKind::TightenedRow => "tightened_row",
            ReductionKind::ParallelColumns => "parallel_columns",
            ReductionKind::Unlocked => "unlocked",
            ReductionKind::Eliminated => "eliminated",
        }
    }
}

/// Positions tell kinds apart.
pub proof fn kind_positions_are_distinct(a: ReductionKind, b: ReductionKind)
    requires
        a.position() == b.position(),
    ensures
        a == b,
{
}

/// Reductions applied during one presolve call, counted by the rule that
/// applied them and by kind.
#[derive(Clone, Debug)]
pub struct Reductions {
    counts: Vec<Vec<usize>>,
}

/// The sum of the first `n` values of a function.
pub open spec fn sum(f: spec_fn(int) -> int, n: nat) -> int
    decreases n,
{
    if n == 0 {
        0
    } else {
        sum(f, (n - 1) as nat) + f(n - 1)
    }
}

pub proof fn sums_agree(f: spec_fn(int) -> int, g: spec_fn(int) -> int, n: nat)
    requires
        forall|i: int| 0 <= i < n ==> #[trigger] f(i) == g(i),
    ensures
        sum(f, n) == sum(g, n),
    decreases n,
{
    if n > 0 {
        sums_agree(f, g, (n - 1) as nat);
    }
}

proof fn sum_of_sums(
    f: spec_fn(int) -> int,
    g: spec_fn(int) -> int,
    h: spec_fn(int) -> int,
    n: nat,
)
    requires
        forall|i: int| 0 <= i < n ==> #[trigger] h(i) == f(i) + g(i),
    ensures
        sum(h, n) == sum(f, n) + sum(g, n),
    decreases n,
{
    if n > 0 {
        sum_of_sums(f, g, h, (n - 1) as nat);
    }
}

proof fn sum_grows(f: spec_fn(int) -> int, m: nat, n: nat)
    requires
        m <= n,
        forall|i: int| 0 <= i < n ==> #[trigger] f(i) >= 0,
    ensures
        0 <= sum(f, m) <= sum(f, n),
    decreases n,
{
    if m < n {
        sum_grows(f, m, (n - 1) as nat);
    } else if n > 0 {
        sum_grows(f, (n - 1) as nat, (n - 1) as nat);
        assert(f(n - 1) >= 0);
    }
}

/// Summing a grid by rows or by columns gives the same total.
pub proof fn sums_exchange(grid: spec_fn(int, int) -> int, m: nat, n: nat)
    ensures
        sum(|r: int| sum(|k: int| grid(r, k), n), m) == sum(
            |k: int| sum(|r: int| grid(r, k), m),
            n,
        ),
    decreases m,
{
    let columns = |k: int| sum(|r: int| grid(r, k), m);
    if m == 0 {
        sum_is_zero(columns, n);
    } else {
        let less = (m - 1) as nat;
        sums_exchange(grid, less, n);
        let before = |k: int| sum(|r: int| grid(r, k), less);
        let row = |k: int| grid(less as int, k);
        assert forall|k: int| 0 <= k < n implies #[trigger] columns(k) == before(k) + row(k) by {}
        sum_of_sums(before, row, columns, n);
        let rows = |r: int| sum(|k: int| grid(r, k), n);
        assert(rows(less as int) == sum(row, n)) by {
            sums_agree(|k: int| grid(less as int, k), row, n);
        }
    }
}

proof fn sum_is_zero(f: spec_fn(int) -> int, n: nat)
    requires
        forall|i: int| 0 <= i < n ==> #[trigger] f(i) == 0,
    ensures
        sum(f, n) == 0,
    decreases n,
{
    if n > 0 {
        sum_is_zero(f, (n - 1) as nat);
    }
}

impl Reductions {
    pub closed spec fn wf(&self) -> bool {
        &&& self.counts@.len() == RULES
        &&& forall|r: int| 0 <= r < RULES ==> (#[trigger] self.counts@[r])@.len() == KINDS
    }

    /// The count of a rule and a kind, by their positions.
    pub closed spec fn at(&self, r: int, k: int) -> int {
        self.counts@[r]@[k] as int
    }

    pub open spec fn rule_sum(&self, r: int) -> int {
        sum(|k: int| self.at(r, k), KINDS as nat)
    }

    pub open spec fn kind_sum(&self, k: int) -> int {
        sum(|r: int| self.at(r, k), RULES as nat)
    }

    pub open spec fn all_sum(&self) -> int {
        sum(|r: int| self.rule_sum(r), RULES as nat)
    }

    pub fn new() -> (reductions: Self)
        ensures
            reductions.wf(),
            forall|r: int, k: int|
                0 <= r < RULES && 0 <= k < KINDS ==> #[trigger] reductions.at(r, k) == 0,
    {
        let mut counts: Vec<Vec<usize>> = Vec::new();
        let mut r: usize = 0;
        while r < RULES
            invariant
                r <= RULES,
                counts@.len() == r,
                forall|i: int| 0 <= i < r ==> (#[trigger] counts@[i])@.len() == KINDS,
                forall|i: int, k: int|
                    0 <= i < r && 0 <= k < KINDS ==> #[trigger] counts@[i]@[k] == 0,
            decreases RULES - r,
        {
            let mut row: Vec<usize> = Vec::new();
            let mut k: usize = 0;
            while k < KINDS
                invariant
                    k <= KINDS,
                    row@.len() == k,
                    forall|i: int| 0 <= i < k ==> #[trigger] row@[i] == 0,
                decreases KINDS - k,
            {
                row.push(0);
                k = k + 1;
            }
            counts.push(row);
            r = r + 1;
        }
        Reductions { counts }
    }

    pub fn count(&self, rule: RuleId, kind: ReductionKind) -> (n: usize)
        requires
            self.wf(),
        ensures
            n == self.at(rule.position(), kind.position()),
    {
        let r: usize = rule.index();
        let k: usize = kind.index();
        self.counts[r][k]
    }

    /// All reductions that a rule applied.
    pub fn rule_total(&self, rule: RuleId) -> (n: usize)
        requires
            self.wf(),
            self.rule_sum(rule.position()) <= usize::MAX,
        ensures
            n == self.rule_sum(rule.position()),
    {
        let r: usize = rule.index();
        self.row_total(r)
    }

    fn row_total(&self, r: usize) -> (n: usize)
        requires
            self.wf(),
            r < RULES,
            self.rule_sum(r as int) <= usize::MAX,
        ensures
            n == self.rule_sum(r as int),
    {
        let ghost f = |k: int| self.at(r as int, k);
        let mut total: usize = 0;
        let mut k: usize = 0;
        while k < KINDS
            invariant
                k <= KINDS,
                self.wf(),
                r < RULES,
                f == (|k: int| self.at(r as int, k)),
                sum(f, KINDS as nat) <= usize::MAX,
                total == sum(f, k as nat),
            decreases KINDS - k,
        {
            proof {
                assert forall|i: int| 0 <= i < KINDS implies #[trigger] f(i) >= 0 by {}
                sum_grows(f, (k + 1) as nat, KINDS as nat);
            }
            total = total + self.counts[r][k];
            k = k + 1;
        }
        total
    }

    /// All reductions of a kind.
    pub fn kind_total(&self, kind: ReductionKind) -> (n: usize)
        requires
            self.wf(),
            self.kind_sum(kind.position()) <= usize::MAX,
        ensures
            n == self.kind_sum(kind.position()),
    {
        let k: usize = kind.index();
        let ghost f = |r: int| self.at(r, k as int);
        let mut total: usize = 0;
        let mut r: usize = 0;
        while r < RULES
            invariant
                r <= RULES,
                self.wf(),
                k < KINDS,
                f == (|r: int| self.at(r, k as int)),
                sum(f, RULES as nat) <= usize::MAX,
                total == sum(f, r as nat),
            decreases RULES - r,
        {
            proof {
                assert forall|i: int| 0 <= i < RULES implies #[trigger] f(i) >= 0 by {}
                sum_grows(f, (r + 1) as nat, RULES as nat);
            }
            total = total + self.counts[r][k];
            r = r + 1;
        }
        total
    }

    pub fn total(&self) -> (n: usize)
        requires
            self.wf(),
            self.all_sum() <= usize::MAX,
        ensures
            n == self.all_sum(),
    {
        let ghost f = |r: int| self.rule_sum(r);
        let mut total: usize = 0;
        let mut r: usize = 0;
        proof {
            assert forall|i: int| 0 <= i < RULES implies #[trigger] f(i) >= 0 by {
                let g = |k: int| self.at(i, k);
                assert forall|k: int| 0 <= k < KINDS implies #[trigger] g(k) >= 0 by {}
                sum_grows(g, 0, KINDS as nat);
            }
        }
        while r < RULES
            invariant
                r <= RULES,
                self.wf(),
                f == (|r: int| self.rule_sum(r)),
                forall|i: int| 0 <= i < RULES ==> #[trigger] f(i) >= 0,
                sum(f, RULES as nat) <= usize::MAX,
                total == sum(f, r as nat),
            decreases RULES - r,
        {
            proof {
                sum_grows(f, (r + 1) as nat, RULES as nat);
                sum_grows(f, r as nat, r as nat);
                assert(f(r as int) == self.rule_sum(r as int));
            }
            let row: usize = self.row_total(r);
            total = total + row;
            r = r + 1;
        }
        total
    }

    /// Nonzero counts of the first `k` kinds of a rule.
    pub open spec fn listed_row(&self, rules: Seq<RuleId>, kinds: Seq<ReductionKind>, r: int, k: nat)
        -> Seq<(RuleId, ReductionKind, usize)>
        decreases k,
    {
        if k == 0 {
            Seq::empty()
        } else {
            let before = self.listed_row(rules, kinds, r, (k - 1) as nat);
            if self.at(r, k - 1) == 0 {
                before
            } else {
                before.push((rules[r], kinds[k - 1], self.at(r, k - 1) as usize))
            }
        }
    }

    pub open spec fn listed(&self, rules: Seq<RuleId>, kinds: Seq<ReductionKind>, r: nat) -> Seq<
        (RuleId, ReductionKind, usize),
    >
        decreases r,
    {
        if r == 0 {
            Seq::empty()
        } else {
            self.listed(rules, kinds, (r - 1) as nat) + self.listed_row(
                rules,
                kinds,
                r - 1,
                KINDS as nat,
            )
        }
    }

    /// Nonzero counts, by rule and then by kind.
    pub fn iter(&self) -> (list: Vec<(RuleId, ReductionKind, usize)>)
        requires
            self.wf(),
        ensures
            forall|rules: Seq<RuleId>, kinds: Seq<ReductionKind>|
                rules.len() == RULES && kinds.len() == KINDS && (forall|i: int|
                    0 <= i < RULES ==> (#[trigger] rules[i]).position() == i) && (forall|i: int|
                    0 <= i < KINDS ==> (#[trigger] kinds[i]).position() == i) ==> list@
                    == #[trigger] self.listed(rules, kinds, RULES as nat),
    {
        let rules = RuleId::all();
        let kinds = ReductionKind::all();
        let mut list: Vec<(RuleId, ReductionKind, usize)> = Vec::new();
        let mut r: usize = 0;
        while r < RULES
            invariant
                r <= RULES,
                self.wf(),
                rules@.len() == RULES,
                kinds@.len() == KINDS,
                list@ == self.listed(rules@, kinds@, r as nat),
            decreases RULES - r,
        {
            let ghost start = list@;
            let mut k: usize = 0;
            assert(start =~= start + self.listed_row(rules@, kinds@, r as int, 0));
            while k < KINDS
                invariant
                    k <= KINDS,
                    r < RULES,
                    self.wf(),
                    rules@.len() == RULES,
                    kinds@.len() == KINDS,
                    list@ == start + self.listed_row(rules@, kinds@, r as int, k as nat),
                decreases KINDS - k,
            {
                let n: usize = self.counts[r][k];
                if n != 0 {
                    list.push((rules[r], kinds[k], n));
                }
                k = k + 1;
                assert(list@ =~= start + self.listed_row(rules@, kinds@, r as int, k as nat));
            }
            r = r + 1;
        }
        proof {
            assert forall|others: Seq<RuleId>, sorts: Seq<ReductionKind>|
                others.len() == RULES && sorts.len() == KINDS && (forall|i: int|
                    0 <= i < RULES ==> (#[trigger] others[i]).position() == i) && (forall|i: int|
                    0 <= i < KINDS ==> (#[trigger] sorts[i]).position() == i) implies list@
                == #[trigger] self.listed(others, sorts, RULES as nat) by {
                assert forall|i: int| 0 <= i < RULES implies others[i] == rules@[i] by {
                    assert(rules@[i].position() == i);
                    rule_positions_are_distinct(others[i], rules@[i]);
                }
                assert forall|i: int| 0 <= i < KINDS implies sorts[i] == kinds@[i] by {
                    assert(kinds@[i].position() == i);
                    kind_positions_are_distinct(sorts[i], kinds@[i]);
                }
                assert(others =~= rules@);
                assert(sorts =~= kinds@);
            }
        }
        list
    }

    /// Count one reduction.
    pub fn add(&mut self, rule: RuleId, kind: ReductionKind)
        requires
            old(self).wf(),
            old(self).at(rule.position(), kind.position()) < usize::MAX,
        ensures
            final(self).wf(),
            forall|r: int, k: int|
                0 <= r < RULES && 0 <= k < KINDS ==> #[trigger] final(self).at(r, k) == old(
                    self,
                ).at(r, k) + (if r == rule.position() && k == kind.position() {
                    1int
                } else {
                    0
                }),
    {
        let r: usize = rule.index();
        let k: usize = kind.index();
        let ghost start = *self;
        let mut row: Vec<usize> = Vec::new();
        std::mem::swap(&mut row, &mut self.counts[r]);
        let n: usize = row[k];
        row.set(k, n + 1);
        self.counts.set(r, row);
        assert forall|i: int, j: int|
            0 <= i < RULES && 0 <= j < KINDS implies #[trigger] self.at(i, j) == start.at(i, j) + (
        if i == rule.position() && j == kind.position() {
            1int
        } else {
            0
        }) by {}
    }

    /// The reductions of all kinds together are the reductions of all rules
    /// together.
    pub proof fn totals_agree(&self)
        ensures
            self.all_sum() == sum(|k: int| self.kind_sum(k), KINDS as nat),
    {
        let grid = |r: int, k: int| self.at(r, k);
        sums_exchange(grid, RULES as nat, KINDS as nat);
        let rows = |r: int| sum(|k: int| grid(r, k), KINDS as nat);
        let columns = |k: int| sum(|r: int| grid(r, k), RULES as nat);
        assert forall|r: int| 0 <= r < RULES implies #[trigger] rows(r) == (|r: int|
            self.rule_sum(r))(r) by {
            sums_agree(|k: int| grid(r, k), |k: int| self.at(r, k), KINDS as nat);
        }
        sums_agree(rows, |r: int| self.rule_sum(r), RULES as nat);
        assert forall|k: int| 0 <= k < KINDS implies #[trigger] columns(k) == (|k: int|
            self.kind_sum(k))(k) by {
            sums_agree(|r: int| grid(r, k), |r: int| self.at(r, k), RULES as nat);
        }
        sums_agree(columns, |k: int| self.kind_sum(k), KINDS as nat);
    }
}

} // verus!
