pub mod activity;
pub mod arithmetic;
pub mod assembly;
pub mod backsolve;
pub mod batch;
pub mod blocks;
pub mod bounding;
pub mod bounds;
pub mod bundles;
pub mod certificates;
pub mod chains;
pub mod choices;
pub mod classify;
pub mod compare;
pub mod components;
pub mod cone;
pub mod cones;
pub mod conic;
pub mod corpus;
pub mod coupled;
pub mod credits;
pub mod csc;
pub mod definite;
pub mod dependencies;
pub mod direction;
pub mod dominated;
pub mod dual;
pub mod eliminate;
pub mod exact;
pub mod export;
pub mod feasible;
pub mod fixing;
pub mod folding;
pub mod grouping;
pub mod hessian;
pub mod implied;
pub mod json;
pub mod lifting;
pub mod linked;
pub mod listing;
pub mod meaning;
pub mod merge;
pub mod model;
pub mod mps;
pub mod multipliers;
pub mod names;
pub mod number;
pub mod objective;
pub mod order;
pub mod pack;
pub mod packing;
pub mod pair;
pub mod parallel;
pub mod passes;
pub mod peeling;
pub mod pivots;
pub mod postsolve;
pub mod problem;
pub mod propagation;
pub mod queues;
pub mod reader;
pub mod reasons;
pub mod recovery;
pub mod regrowth;
pub mod redundant;
pub mod render;
pub mod report;
pub mod result;
pub mod results;
pub mod rewrite;
pub mod schedule;
pub mod semidefinite;
pub mod settings;
pub mod shift;
pub mod simplify;
pub mod singletons;
pub mod snapshot;
pub mod sorting;
pub mod soundness;
pub mod source;
pub mod sparsify;
pub mod stationarity;
pub mod strings;
pub mod substitution;
pub mod summation;
pub mod sums;
pub mod symmetric;
pub mod symmetry;
pub mod table;
pub mod tape;
pub mod text;
pub mod totals;
pub mod transaction;
pub mod trees;
pub mod triplets;
pub mod twins;
pub mod warm;
pub mod working;
