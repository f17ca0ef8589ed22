//! The parameters of a run, and the rules that turn the texts of the command
//! line into them.

use crate::text::{count_written, parse_u32, parse_usize, size_written};
use vstd::prelude::*;
use vstd::utf8::encode_utf8;

verus! {

/// How the cluster centers are seeded when nothing is known beforehand.
#[derive(Clone, Copy, Debug, PartialEq, Eq, Structural)]
pub enum ClusterInit {
    KmeansPP,
    RandomUniform,
    RandomAssignment,
    MiddleVariance,
}

/// The parameters of a run. They do not change once they are made.
#[derive(Clone, Debug)]
pub struct Params {
    pub ref_mtx: String,
    pub alt_mtx: String,
    pub barcodes: String,
    pub num_clusters: usize,
    pub min_alt: u32,
    pub min_ref: u32,
    pub output_dir: String,
    pub restarts: u32,
    pub known_cell_assignments: Option<String>,
    pub known_genotypes: Option<String>,
    pub known_genotypes_sample_names: Vec<String>,
    pub initialization_strategy: ClusterInit,
}

/// The options as the command line gives them: texts, and nothing where an
/// option was left out.
#[derive(Clone, Debug)]
pub struct RawParams {
    pub ref_matrix: String,
    pub alt_matrix: String,
    pub barcodes: String,
    pub num_clusters: String,
    pub min_alt: Option<String>,
    pub min_ref: Option<String>,
    pub output_dir: String,
    pub restarts: Option<String>,
    pub known_cell_assignments: Option<String>,
    pub known_genotypes: Option<String>,
    pub known_genotypes_sample_names: Vec<String>,
    pub initialization_strategy: Option<String>,
}

/// Why the options make no parameters.
#[derive(Clone, Copy, Debug, PartialEq, Eq, Structural)]
pub enum ConfigError {
    /// The number of clusters is no number, or zero.
    NumClusters,
    /// The least number of cells with an alternate read is no number.
    MinAlt,
    /// The least number of cells with a reference read is no number.
    MinRef,
    /// The number of restarts is no number.
    Restarts,
    /// Known genotypes and known cell assignments are both given.
    KnownInputsConflict,
    /// The initialization strategy has a name that is not known.
    InitializationStrategy,
}

/// The least number of supporting cells where the options name none.
pub open spec fn default_min_support() -> u32 {
    4
}

/// The number of restarts where the options name none.
pub open spec fn default_restarts() -> u32 {
    100
}

/// The strategy where the options name none.
pub open spec fn default_strategy() -> ClusterInit {
    ClusterInit::KmeansPP
}

/// The strategy that a name stands for.
pub open spec fn strategy_named(name: Seq<char>) -> Option<ClusterInit> {
    if name == "kmeans++"@ {
        Some(ClusterInit::KmeansPP)
    } else if name == "random_uniform"@ {
        Some(ClusterInit::RandomUniform)
    } else if name == "random_cell_assignment"@ {
        Some(ClusterInit::RandomAssignment)
    } else if name == "middle_variance"@ {
        Some(ClusterInit::MiddleVariance)
    } else {
        None
    }
}

/// The count that an option gives: the default where it was left out, the
/// number that its text writes where that is one of 32 bits, else nothing.
pub open spec fn count_or(text: Option<String>, default: u32) -> Option<u32> {
    match text {
        None => Some(default),
        Some(t) => count_written(encode_utf8(t@)),
    }
}

/// The number of clusters that a text gives: the number that it writes, if
/// that is positive and fits the machine's word.
pub open spec fn clusters_written(text: Seq<char>) -> Option<usize> {
    match size_written(encode_utf8(text)) {
        Some(n) => if n > 0 {
            Some(n)
        } else {
            None
        },
        None => None,
    }
}

/// The strategy that an option gives: the default where it was left out, the
/// strategy that its text names where it names one, else nothing.
pub open spec fn strategy_or_default(text: Option<String>) -> Option<ClusterInit> {
    match text {
        None => Some(default_strategy()),
        Some(t) => strategy_named(t@),
    }
}

/// What is wrong with the options, if anything is. Where several things are
/// wrong, the first in the order of `ConfigError` is reported.
pub open spec fn config_fault(raw: RawParams) -> Option<ConfigError> {
    if clusters_written(raw.num_clusters@) is None {
        Some(ConfigError::NumClusters)
    } else if count_or(raw.min_alt, default_min_support()) is None {
        Some(ConfigError::MinAlt)
    } else if count_or(raw.min_ref, default_min_support()) is None {
        Some(ConfigError::MinRef)
    } else if count_or(raw.restarts, default_restarts()) is None {
        Some(ConfigError::Restarts)
    } else if raw.known_genotypes is Some && raw.known_cell_assignments is Some {
        Some(ConfigError::KnownInputsConflict)
    } else if strategy_or_default(raw.initialization_strategy) is None {
        Some(ConfigError::InitializationStrategy)
    } else {
        None
    }
}

/// The parameters that sound options make.
pub open spec fn configured(raw: RawParams) -> Params {
    Params {
        ref_mtx: raw.ref_matrix,
        alt_mtx: raw.alt_matrix,
        barcodes: raw.barcodes,
        num_clusters: clusters_written(raw.num_clusters@).unwrap(),
        min_alt: count_or(raw.min_alt, default_min_support()).unwrap(),
        min_ref: count_or(raw.min_ref, default_min_support()).unwrap(),
        output_dir: raw.output_dir,
        restarts: count_or(raw.restarts, default_restarts()).unwrap(),
        known_cell_assignments: raw.known_cell_assignments,
        known_genotypes: raw.known_genotypes,
        known_genotypes_sample_names: raw.known_genotypes_sample_names,
        initialization_strategy: strategy_or_default(raw.initialization_strategy).unwrap(),
    }
}

/// Reads the name of a strategy.
pub fn parse_strategy(name: &String) -> (r: Option<ClusterInit>)
    ensures
        r == strategy_named(name@),
{
    if *name == "kmeans++".to_owned() {
        Some(ClusterInit::KmeansPP)
    } else if *name == "random_uniform".to_owned() {
        Some(ClusterInit::RandomUniform)
    } else if *name == "random_cell_assignment".to_owned() {
        Some(ClusterInit::RandomAssignment)
    } else if *name == "middle_variance".to_owned() {
        Some(ClusterInit::MiddleVariance)
    } else {
        None
    }
}

/// Reads an option that gives a count.
pub fn parse_count_or(text: &Option<String>, default: u32) -> (r: Option<u32>)
    ensures
        r == count_or(*text, default),
{
    match text {
        None => Some(default),
        Some(t) => parse_u32(t.as_str().as_bytes()),
    }
}

/// Makes the parameters of a run from the options, or says what is wrong
/// with them.
pub fn check_params(raw: RawParams) -> (r: Result<Params, ConfigError>)
    ensures
        match r {
            Ok(p) => config_fault(raw) is None && p == configured(raw),
            Err(e) => config_fault(raw) == Some(e),
        },
{
    let num_clusters: usize = match parse_usize(raw.num_clusters.as_str().as_bytes()) {
        Some(n) => n,
        None => {
            return Err(ConfigError::NumClusters);
        },
    };
    if num_clusters == 0 {
        return Err(ConfigError::NumClusters);
    }
    let min_alt: u32 = match parse_count_or(&raw.min_alt, 4) {
        Some(n) => n,
        None => {
            return Err(ConfigError::MinAlt);
        },
    };
    let min_ref: u32 = match parse_count_or(&raw.min_ref, 4) {
        Some(n) => n,
        None => {
            return Err(ConfigError::MinRef);
        },
    };
    let restarts: u32 = match parse_count_or(&raw.restarts, 100) {
        Some(n) => n,
        None => {
            return Err(ConfigError::Restarts);
        },
    };
    if raw.known_genotypes.is_some() && raw.known_cell_assignments.is_some() {
        return Err(ConfigError::KnownInputsConflict);
    }
    let strategy: ClusterInit = match &raw.initialization_strategy {
        None => ClusterInit::KmeansPP,
        Some(name) => match parse_strategy(name) {
            Some(s) => s,
            None => {
                return Err(ConfigError::InitializationStrategy);
            },
        },
    };
    Ok(
        Params {
            ref_mtx: raw.ref_matrix,
            alt_mtx: raw.alt_matrix,
            barcodes: raw.barcodes,
            num_clusters,
            min_alt,
            min_ref,
            output_dir: raw.output_dir,
            restarts,
            known_cell_assignments: raw.known_cell_assignments,
            known_genotypes: raw.known_genotypes,
            known_genotypes_sample_names: raw.known_genotypes_sample_names,
            initialization_strategy: strategy,
        },
    )
}

} // verus!
