//! Rule selection, numerical tolerances and work limits.

use crate::number::{one, Real};
use vstd::prelude::*;

verus! {

/// Independent switches for rule families.
#[derive(Clone, Copy, Debug, PartialEq, Eq, Structural)]
pub struct Rules {
    pub fixed_variables: bool,
    pub empty_columns: bool,
    pub empty_rows: bool,
    pub dual_fixing: bool,
    pub singleton_rows: bool,
    pub singleton_columns: bool,
    pub doubleton_equalities: bool,
    pub short_equalities: bool,
    pub equality_dependencies: bool,
    pub bound_propagation: bool,
    pub redundant_bounds: bool,
    pub parallel_rows: bool,
    pub parallel_columns: bool,
    pub sparsification: bool,
    pub cones: bool,
    pub implied_free_equalities: bool,
    pub bound_shift: bool,
    pub lp_folding: bool,
    pub dual_propagation: bool,
    pub dominated_columns: bool,
}

impl Rules {
    /// No rule at all.
    #[verifier::allow_in_spec]
    pub fn none() -> Rules
        returns
            (Rules {
                fixed_variables: false,
                empty_columns: false,
                empty_rows: false,
                dual_fixing: false,
                singleton_rows: false,
                singleton_columns: false,
                doubleton_equalities: false,
                short_equalities: false,
                equality_dependencies: false,
                bound_propagation: false,
                redundant_bounds: false,
                parallel_rows: false,
                parallel_columns: false,
                sparsification: false,
                cones: false,
                implied_free_equalities: false,
                bound_shift: false,
                lp_folding: false,
                dual_propagation: false,
                dominated_columns: false,
            }),
    {
        Rules {
            fixed_variables: false,
            empty_columns: false,
            empty_rows: false,
            dual_fixing: false,
            singleton_rows: false,
            singleton_columns: false,
            doubleton_equalities: false,
            short_equalities: false,
            equality_dependencies: false,
            bound_propagation: false,
            redundant_bounds: false,
            parallel_rows: false,
            parallel_columns: false,
            sparsification: false,
            cones: false,
            implied_free_equalities: false,
            bound_shift: false,
            lp_folding: false,
            dual_propagation: false,
            dominated_columns: false,
        }
    }
}

impl Rules {
    /// The standard choice.
    pub open spec fn standard() -> Self {
        Rules {
            fixed_variables: true,
            empty_columns: true,
            empty_rows: true,
            dual_fixing: true,
            singleton_rows: true,
            singleton_columns: true,
            doubleton_equalities: true,
            short_equalities: true,
            equality_dependencies: false,
            bound_propagation: true,
            redundant_bounds: true,
            parallel_rows: true,
            parallel_columns: true,
            sparsification: true,
            cones: true,
            implied_free_equalities: false,
            bound_shift: false,
            lp_folding: false,
            dual_propagation: false,
            dominated_columns: false,
        }
    }
}

impl Default for Rules {
    fn default() -> (rules: Self)
        ensures
            rules == Rules::standard(),
    {
        Rules {
            fixed_variables: true,
            empty_columns: true,
            empty_rows: true,
            dual_fixing: true,
            singleton_rows: true,
            singleton_columns: true,
            doubleton_equalities: true,
            short_equalities: true,
            equality_dependencies: false,
            bound_propagation: true,
            redundant_bounds: true,
            parallel_rows: true,
            parallel_columns: true,
            sparsification: true,
            cones: true,
            implied_free_equalities: false,
            bound_shift: false,
            lp_folding: false,
            dual_propagation: false,
            dominated_columns: false,
        }
    }
}

/// Work allowances count estimated sparse-entry visits, not elapsed time.
/// The independent time limit applies even without a limit here.
#[derive(Clone, Copy, Debug, PartialEq, Eq, Structural)]
pub enum WorkLimit {
    Default,
    Entries(usize),
    Unlimited,
}

impl WorkLimit {
    pub open spec fn allowance(self, default: usize) -> usize {
        match self {
            WorkLimit::Default => default,
            WorkLimit::Entries(n) => n,
            WorkLimit::Unlimited => usize::MAX,
        }
    }

    /// The allowance in entries.
    pub fn resolve(self, default: usize) -> (n: usize)
        ensures
            n == self.allowance(default),
    {
        match self {
            WorkLimit::Default => default,
            WorkLimit::Entries(n) => n,
            WorkLimit::Unlimited => usize::MAX,
        }
    }
}

impl Default for WorkLimit {
    fn default() -> (limit: Self)
        ensures
            limit == WorkLimit::Default,
    {
        WorkLimit::Default
    }
}

/// Tolerances.
#[derive(Clone, Copy, Debug, PartialEq, Eq, Structural)]
pub struct Numerics {
    /// Relative feasibility margin. Geometric rules require exact structural zeros.
    pub feasibility: Real,
    pub parallel: Real,
    pub huge_bound: Real,
}

impl Numerics {
    /// The standard choice.
    pub open spec fn standard() -> Self {
        Numerics {
            feasibility: (Real { bits: 0x3e112e0be826d695 }),
            parallel: (Real { bits: 0x3d719799812dea11 }),
            huge_bound: (Real { bits: 0x416312d000000000 }),
        }
    }
}

impl Default for Numerics {
    fn default() -> (settings: Self)
        ensures
            settings == Numerics::standard(),
    {
        Numerics {
            feasibility: Real::from_bits(0x3e112e0be826d695),
            parallel: Real::from_bits(0x3d719799812dea11),
            huge_bound: Real::from_bits(0x416312d000000000),
        }
    }
}

/// Candidate restrictions for substituting equalities.
#[derive(Clone, Copy, Debug, PartialEq, Eq, Structural)]
pub struct EqualitySettings {
    /// Minimum pivot magnitude divided by the row maximum.
    pub relative_pivot: Real,
    /// Maximum pivot attempts per equality per pass; zero disables them.
    pub max_pivot_attempts: usize,
    /// Rank candidates by estimated work, after preferring free variables.
    pub cost_aware: bool,
    pub max_row_length: usize,
    pub min_column_length: usize,
    pub max_column_length: usize,
    pub require_free_variable: bool,
    pub require_linear_variable: bool,
    /// Limit fill to the entries removed with the equation and pivot column.
    pub preserve_nonzeros: bool,
    /// Default allowance: twice the current constraint nonzeros per pass.
    pub work_limit: WorkLimit,
}

impl EqualitySettings {
    /// The standard choice.
    pub open spec fn standard() -> Self {
        EqualitySettings {
            relative_pivot: one(),
            max_pivot_attempts: 1,
            cost_aware: false,
            max_row_length: 8,
            min_column_length: 2,
            max_column_length: 8,
            require_free_variable: true,
            require_linear_variable: true,
            preserve_nonzeros: true,
            work_limit: WorkLimit::Default,
        }
    }
}

impl Default for EqualitySettings {
    fn default() -> (settings: Self)
        ensures
            settings == EqualitySettings::standard(),
    {
        EqualitySettings {
            relative_pivot: one(),
            max_pivot_attempts: 1,
            cost_aware: false,
            max_row_length: 8,
            min_column_length: 2,
            max_column_length: 8,
            require_free_variable: true,
            require_linear_variable: true,
            preserve_nonzeros: true,
            work_limit: WorkLimit::Default,
        }
    }
}

/// Limits of bound propagation.
#[derive(Clone, Copy, Debug, PartialEq, Eq, Structural)]
pub struct PropagationSettings {
    /// Accept a finite non-fixing bound change only above this fraction of the
    /// old bound magnitude and the feasibility-scaled floor below.
    pub minimum_relative_gain: Real,
    /// Absolute gain floor, as a factor of the feasibility tolerance.
    pub minimum_gain_factor: Real,
    /// Extra rounds after the initial propagation pass.
    pub additional_rounds: usize,
    pub work_limit: WorkLimit,
}

impl PropagationSettings {
    /// The standard choice.
    pub open spec fn standard() -> Self {
        PropagationSettings {
            minimum_relative_gain: (Real { bits: 0x3f847ae147ae147b }),
            minimum_gain_factor: (Real { bits: 0x40c3880000000000 }),
            additional_rounds: 3,
            work_limit: WorkLimit::Default,
        }
    }
}

impl Default for PropagationSettings {
    fn default() -> (settings: Self)
        ensures
            settings == PropagationSettings::standard(),
    {
        PropagationSettings {
            minimum_relative_gain: Real::from_bits(0x3f847ae147ae147b),
            minimum_gain_factor: Real::from_bits(0x40c3880000000000),
            additional_rounds: 3,
            work_limit: WorkLimit::Default,
        }
    }
}

/// Limits of row cancellation.
#[derive(Clone, Copy, Debug, PartialEq, Eq, Structural)]
pub struct SparsificationSettings {
    /// Allow inequality references, which introduce an auxiliary variable.
    pub allow_auxiliary_variables: bool,
    pub work_limit: WorkLimit,
}

impl SparsificationSettings {
    /// The standard choice.
    pub open spec fn standard() -> Self {
        SparsificationSettings {
            allow_auxiliary_variables: true,
            work_limit: WorkLimit::Default,
        }
    }
}

impl Default for SparsificationSettings {
    fn default() -> (settings: Self)
        ensures
            settings == SparsificationSettings::standard(),
    {
        SparsificationSettings {
            allow_auxiliary_variables: true,
            work_limit: WorkLimit::Default,
        }
    }
}

/// Scratch-basis bounds for equality dependency detection.
#[derive(Clone, Copy, Debug, PartialEq, Eq, Structural)]
pub struct DependencySettings {
    /// Maximum input and intermediate scratch row length.
    pub max_row_length: usize,
    /// Maximum independent rows retained in the scratch basis.
    pub max_basis_rows: usize,
    /// Default: four times the constraint nonzeros.
    pub work_limit: WorkLimit,
}

impl DependencySettings {
    /// The standard choice.
    pub open spec fn standard() -> Self {
        DependencySettings {
            max_row_length: 128,
            max_basis_rows: 64,
            work_limit: WorkLimit::Default,
        }
    }
}

impl Default for DependencySettings {
    fn default() -> (settings: Self)
        ensures
            settings == DependencySettings::standard(),
    {
        DependencySettings {
            max_row_length: 128,
            max_basis_rows: 64,
            work_limit: WorkLimit::Default,
        }
    }
}

/// Decide whether to repeat the fast phases and full exploration cycles.
#[derive(Clone, Copy, Debug, PartialEq, Eq, Structural)]
pub enum Progress {
    /// Require a strictly larger fractional reduction of nonzeros.
    Nonzeros { minimum_reduction: Real },
    /// Continue after any model edit.
    AnyChange,
}

impl Progress {
    /// The standard choice.
    pub open spec fn standard() -> Self {
        Progress::Nonzeros { minimum_reduction: Real { bits: 0x3fa999999999999a } }
    }
}

impl Default for Progress {
    fn default() -> (progress: Self)
        ensures
            progress == Progress::standard(),
    {
        Progress::Nonzeros { minimum_reduction: Real::from_bits(0x3fa999999999999a) }
    }
}

/// Limits of a fold along equal colors.
#[derive(Clone, Copy, Debug, PartialEq, Eq, Structural)]
pub struct FoldingSettings {
    /// Rounds of refinement; zero disables folding.
    pub max_rounds: usize,
    pub work_limit: WorkLimit,
}

impl FoldingSettings {
    /// The standard choice.
    pub open spec fn standard() -> Self {
        FoldingSettings {
            max_rounds: 64,
            work_limit: WorkLimit::Default,
        }
    }
}

impl Default for FoldingSettings {
    fn default() -> (settings: Self)
        ensures
            settings == FoldingSettings::standard(),
    {
        FoldingSettings {
            max_rounds: 64,
            work_limit: WorkLimit::Default,
        }
    }
}

/// Limits of shifts along rows of one side.
#[derive(Clone, Copy, Debug, PartialEq, Eq, Structural)]
pub struct BoundShiftSettings {
    /// Bound on a slope and on its reciprocal.
    pub max_ratio: Real,
    pub max_column_length: usize,
    /// Maximum newly introduced coefficients per shift.
    pub max_fill: usize,
    pub work_limit: WorkLimit,
}

impl BoundShiftSettings {
    /// The standard choice.
    pub open spec fn standard() -> Self {
        BoundShiftSettings {
            max_ratio: Real { bits: 0x408f400000000000 },
            max_column_length: 16,
            max_fill: 64,
            work_limit: WorkLimit::Default,
        }
    }
}

impl Default for BoundShiftSettings {
    fn default() -> (settings: Self)
        ensures
            settings == BoundShiftSettings::standard(),
    {
        BoundShiftSettings {
            max_ratio: Real::from_bits(0x408f400000000000),
            max_column_length: 16,
            max_fill: 64,
            work_limit: WorkLimit::Default,
        }
    }
}

/// Limits of the search for dominated columns.
#[derive(Clone, Copy, Debug, PartialEq, Eq, Structural)]
pub struct DominatedSettings {
    /// Compare columns of any two rows.
    pub general_search: bool,
    pub work_limit: WorkLimit,
}

impl DominatedSettings {
    /// The standard choice.
    pub open spec fn standard() -> Self {
        DominatedSettings {
            general_search: true,
            work_limit: WorkLimit::Default,
        }
    }
}

impl Default for DominatedSettings {
    fn default() -> (settings: Self)
        ensures
            settings == DominatedSettings::standard(),
    {
        DominatedSettings {
            general_search: true,
            work_limit: WorkLimit::Default,
        }
    }
}

/// All settings of a presolve call.
#[derive(Clone, Copy, Debug, PartialEq, Eq, Structural)]
pub struct Settings {
    /// Soft budget per call, in nanoseconds.
    pub time_limit: u64,
    pub rules: Rules,
    pub numerics: Numerics,
    /// Maximum newly introduced coefficients per substitution.
    pub substitution_fill: usize,
    /// Allow substitutions to increase the number of Hessian nonzeros.
    pub allow_hessian_growth: bool,
    pub equalities: EqualitySettings,
    pub dependencies: DependencySettings,
    pub propagation: PropagationSettings,
    pub progress: Progress,
    pub sparsification: SparsificationSettings,
    pub folding: FoldingSettings,
    pub bound_shift: BoundShiftSettings,
    pub dominated_columns: DominatedSettings,
    /// Visits of dual propagation.
    pub dual_propagation: WorkLimit,
    /// Maximum thread count: one is serial, zero selects automatically.
    pub threads: usize,
}

impl Default for Settings {
    fn default() -> (settings: Self)
        ensures
            settings.time_limit == 60_000_000_000,
            settings.rules == Rules::standard(),
            settings.numerics == Numerics::standard(),
            settings.substitution_fill == 64,
            !settings.allow_hessian_growth,
            settings.equalities == EqualitySettings::standard(),
            settings.dependencies == DependencySettings::standard(),
            settings.propagation == PropagationSettings::standard(),
            settings.progress == Progress::standard(),
            settings.sparsification == SparsificationSettings::standard(),
            settings.folding == FoldingSettings::standard(),
            settings.bound_shift == BoundShiftSettings::standard(),
            settings.dominated_columns == DominatedSettings::standard(),
            settings.dual_propagation == WorkLimit::Default,
            settings.threads == 1,
    {
        Settings {
            time_limit: 60_000_000_000,
            rules: Rules::default(),
            numerics: Numerics::default(),
            substitution_fill: 64,
            allow_hessian_growth: false,
            equalities: EqualitySettings::default(),
            dependencies: DependencySettings::default(),
            propagation: PropagationSettings::default(),
            progress: Progress::default(),
            sparsification: SparsificationSettings::default(),
            folding: FoldingSettings::default(),
            bound_shift: BoundShiftSettings::default(),
            dominated_columns: DominatedSettings::default(),
            dual_propagation: WorkLimit::Default,
            threads: 1,
        }
    }
}

impl Settings {
    /// Favor dimensional reduction within the caller's soft time budget.
    /// Allow unlimited fill and Hessian growth, bounded and quadratic equality
    /// pivots, and exploration after any edit. Candidate row and column lengths
    /// are capped, and sparsification uses only equality references.
    pub fn aggressive(time_limit: u64) -> (settings: Self)
        ensures
            settings.time_limit == time_limit,
            settings.substitution_fill == usize::MAX,
            settings.allow_hessian_growth,
            settings.rules == (Rules { equality_dependencies: true, ..Rules::standard() }),
            settings.numerics == Numerics::standard(),
            settings.equalities == (EqualitySettings {
                relative_pivot: one(),
                max_pivot_attempts: 1,
                cost_aware: false,
                max_row_length: 16,
                min_column_length: 1,
                max_column_length: 16,
                require_free_variable: false,
                require_linear_variable: false,
                preserve_nonzeros: false,
                work_limit: WorkLimit::Unlimited,
            }),
            settings.dependencies == DependencySettings::standard(),
            settings.propagation == (PropagationSettings {
                minimum_relative_gain: Real { bits: 0x3f747ae147ae147b },
                minimum_gain_factor: Real { bits: 0x40c3880000000000 },
                additional_rounds: usize::MAX,
                work_limit: WorkLimit::Unlimited,
            }),
            settings.progress == Progress::AnyChange,
            settings.sparsification == (SparsificationSettings {
                allow_auxiliary_variables: false,
                work_limit: WorkLimit::Default,
            }),
            settings.folding == FoldingSettings::standard(),
            settings.bound_shift == BoundShiftSettings::standard(),
            settings.dominated_columns == DominatedSettings::standard(),
            settings.dual_propagation == WorkLimit::Default,
            settings.threads == 1,
    {
        let rules = Rules { equality_dependencies: true, ..Rules::default() };
        let equalities = EqualitySettings {
            relative_pivot: one(),
            max_pivot_attempts: 1,
            cost_aware: false,
            max_row_length: 16,
            min_column_length: 1,
            max_column_length: 16,
            require_free_variable: false,
            require_linear_variable: false,
            preserve_nonzeros: false,
            work_limit: WorkLimit::Unlimited,
        };
        let propagation = PropagationSettings {
            minimum_relative_gain: Real::from_bits(0x3f747ae147ae147b),
            additional_rounds: usize::MAX,
            work_limit: WorkLimit::Unlimited,
            ..PropagationSettings::default()
        };
        let sparsification = SparsificationSettings {
            allow_auxiliary_variables: false,
            work_limit: WorkLimit::Default,
        };
        Settings {
            time_limit,
            rules,
            numerics: Numerics::default(),
            substitution_fill: usize::MAX,
            allow_hessian_growth: true,
            equalities,
            dependencies: DependencySettings::default(),
            propagation,
            progress: Progress::AnyChange,
            sparsification,
            folding: FoldingSettings::default(),
            bound_shift: BoundShiftSettings::default(),
            dominated_columns: DominatedSettings::default(),
            dual_propagation: WorkLimit::Default,
            threads: 1,
        }
    }
}

} // verus!
