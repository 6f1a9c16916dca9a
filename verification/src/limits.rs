//! Hard bounds that each analysis accepts, with their defaults.
use crate::envelope::{invalid, AnalysisError};
use vstd::prelude::*;

verus! {

/// Whether `x` lies in the closed range `lo..=hi`.
pub open spec fn within(x: u32, lo: int, hi: int) -> bool {
    lo <= x <= hi
}

/// Bounds of a call-graph analysis.
#[derive(Debug, Clone, Copy)]
pub struct AnalysisLimits {
    pub max_nodes: u32,
    pub max_edges: u32,
    pub max_visits: u32,
    pub max_depth: u32,
    pub max_response_bytes: u32,
}

impl AnalysisLimits {
    /// Whether the limits lie within the supported bounds.
    pub open spec fn supported(self) -> bool {
        within(self.max_nodes, 1, 10_000) && within(self.max_edges, 1, 50_000) && within(
            self.max_visits,
            1,
            10_000,
        ) && self.max_depth <= 64 && within(self.max_response_bytes, 256, 2_097_152)
    }

    /// Accepts supported limits; refuses others as invalid input.
    pub fn validate(self) -> (r: Result<(), AnalysisError>)
        ensures
            r is Ok <==> self.supported(),
            r is Err ==> (r matches Err(AnalysisError::InvalidInput(m)) && m@ == "limits require 1..10000 nodes/visits, 1..50000 edges, depth <=64 and 256..2097152 response bytes"@),
    {
        if self.max_nodes < 1 || self.max_nodes > 10_000 || self.max_edges < 1 || self.max_edges
            > 50_000 || self.max_visits < 1 || self.max_visits > 10_000 || self.max_depth > 64
            || self.max_response_bytes < 256 || self.max_response_bytes > 2 * 1024 * 1024 {
            return Err(
                invalid(
                    "limits require 1..10000 nodes/visits, 1..50000 edges, depth <=64 and 256..2097152 response bytes",
                ),
            );
        }
        Ok(())
    }
}

impl Default for AnalysisLimits {
    fn default() -> (r: Self)
        ensures
            r.max_nodes == 200,
            r.max_edges == 500,
            r.max_visits == 200,
            r.max_depth == 8,
            r.max_response_bytes == 2_097_152,
    {
        AnalysisLimits {
            max_nodes: 200,
            max_edges: 500,
            max_visits: 200,
            max_depth: 8,
            max_response_bytes: 2_097_152,
        }
    }
}

/// Bounds of a reaching-definitions analysis. `max_facts` applies separately to input
/// facts, retained abstract-state facts and output facts.
#[derive(Debug, Clone, Copy)]
pub struct DataflowLimits {
    pub max_blocks: u32,
    pub max_locals: u32,
    pub max_facts: u32,
    pub max_iterations: u32,
    pub max_response_bytes: u32,
}

impl DataflowLimits {
    /// Whether the limits lie within the supported bounds.
    pub open spec fn supported(self) -> bool {
        within(self.max_blocks, 1, 4096) && within(self.max_locals, 1, 4096) && within(
            self.max_facts,
            1,
            200_000,
        ) && within(self.max_iterations, 1, 1_000_000) && within(
            self.max_response_bytes,
            1024,
            2_097_152,
        )
    }

    /// Accepts supported limits; refuses others as invalid input.
    pub fn validate(self) -> (r: Result<(), AnalysisError>)
        ensures
            r is Ok <==> self.supported(),
            r is Err ==> (r matches Err(AnalysisError::InvalidInput(m)) && m@ == "limits require 1..4096 blocks/locals, 1..200000 facts, 1..1000000 iterations, and 1024..2097152 response bytes"@),
    {
        if self.max_blocks < 1 || self.max_blocks > 4096 || self.max_locals < 1 || self.max_locals
            > 4096 || self.max_facts < 1 || self.max_facts > 200_000 || self.max_iterations < 1
            || self.max_iterations > 1_000_000 || self.max_response_bytes < 1024
            || self.max_response_bytes > 2 * 1024 * 1024 {
            return Err(
                invalid(
                    "limits require 1..4096 blocks/locals, 1..200000 facts, 1..1000000 iterations, and 1024..2097152 response bytes",
                ),
            );
        }
        Ok(())
    }
}

impl Default for DataflowLimits {
    fn default() -> (r: Self)
        ensures
            r.max_blocks == 1000,
            r.max_locals == 1000,
            r.max_facts == 50_000,
            r.max_iterations == 100_000,
            r.max_response_bytes == 2_097_152,
    {
        DataflowLimits {
            max_blocks: 1000,
            max_locals: 1000,
            max_facts: 50_000,
            max_iterations: 100_000,
            max_response_bytes: 2_097_152,
        }
    }
}

/// Bounds of a syntax-maintainability measure. `max_locations` bounds each collection of
/// source locations independently.
#[derive(Debug, Clone, Copy, PartialEq, Eq, Structural)]
pub struct MaintainabilityLimits {
    pub max_source_bytes: u32,
    pub max_nodes: u32,
    pub max_tokens: u32,
    pub max_locations: u32,
    pub max_response_bytes: u32,
}

impl MaintainabilityLimits {
    /// Whether the limits lie within the supported bounds.
    pub open spec fn supported(self) -> bool {
        within(self.max_source_bytes, 1, 1_048_576) && within(self.max_nodes, 1, 100_000)
            && within(self.max_tokens, 1, 200_000) && within(self.max_locations, 1, 5000)
            && within(self.max_response_bytes, 1024, 2_097_152)
    }

    /// Accepts supported limits; refuses others as invalid input.
    pub fn validate(self) -> (r: Result<(), AnalysisError>)
        ensures
            r is Ok <==> self.supported(),
            r is Err ==> (r matches Err(AnalysisError::InvalidInput(m)) && m@ == "maintainability limits outside supported bounds"@),
    {
        if self.max_source_bytes < 1 || self.max_source_bytes > 1_048_576 || self.max_nodes < 1
            || self.max_nodes > 100_000 || self.max_tokens < 1 || self.max_tokens > 200_000
            || self.max_locations < 1 || self.max_locations > 5000 || self.max_response_bytes
            < 1024 || self.max_response_bytes > 2_097_152 {
            return Err(invalid("maintainability limits outside supported bounds"));
        }
        Ok(())
    }
}

impl Default for MaintainabilityLimits {
    fn default() -> (r: Self)
        ensures
            r.max_source_bytes == 262_144,
            r.max_nodes == 20_000,
            r.max_tokens == 50_000,
            r.max_locations == 1000,
            r.max_response_bytes == 1_048_576,
    {
        MaintainabilityLimits {
            max_source_bytes: 262_144,
            max_nodes: 20_000,
            max_tokens: 50_000,
            max_locations: 1000,
            max_response_bytes: 1_048_576,
        }
    }
}

/// Bounds of a state-machine inference.
#[derive(Debug, Clone, Copy)]
pub struct StateMachineLimits {
    pub max_body_bytes: u32,
    pub max_nodes: u32,
    pub max_transitions: u32,
    pub max_unknowns: u32,
    pub max_response_bytes: u32,
}

impl StateMachineLimits {
    /// Whether the limits lie within the supported bounds.
    pub open spec fn supported(self) -> bool {
        within(self.max_body_bytes, 1, 1_048_576) && within(self.max_nodes, 1, 100_000) && within(
            self.max_transitions,
            1,
            500,
        ) && within(self.max_unknowns, 1, 500) && within(self.max_response_bytes, 1024, 2_097_152)
    }

    /// Accepts supported limits; refuses others as invalid input.
    pub fn validate(self) -> (r: Result<(), AnalysisError>)
        ensures
            r is Ok <==> self.supported(),
            r is Err ==> (r matches Err(AnalysisError::InvalidInput(m)) && m@ == "state-machine limits outside supported bounds"@),
    {
        if self.max_body_bytes < 1 || self.max_body_bytes > 1_048_576 || self.max_nodes < 1
            || self.max_nodes > 100_000 || self.max_transitions < 1 || self.max_transitions > 500
            || self.max_unknowns < 1 || self.max_unknowns > 500 || self.max_response_bytes < 1024
            || self.max_response_bytes > 2_097_152 {
            return Err(invalid("state-machine limits outside supported bounds"));
        }
        Ok(())
    }
}

impl Default for StateMachineLimits {
    fn default() -> (r: Self)
        ensures
            r.max_body_bytes == 262_144,
            r.max_nodes == 20_000,
            r.max_transitions == 200,
            r.max_unknowns == 100,
            r.max_response_bytes == 1_048_576,
    {
        StateMachineLimits {
            max_body_bytes: 262_144,
            max_nodes: 20_000,
            max_transitions: 200,
            max_unknowns: 100,
            max_response_bytes: 1_048_576,
        }
    }
}

/// Bounds of a compiler-CFG complexity measure.
#[derive(Debug, Clone, Copy, PartialEq, Eq, Structural)]
pub struct CompilerComplexityLimits {
    pub max_blocks: u32,
    pub max_edges: u32,
    pub max_response_bytes: u32,
}

impl CompilerComplexityLimits {
    /// Whether the limits lie within the supported bounds.
    pub open spec fn supported(self) -> bool {
        within(self.max_blocks, 1, 4096) && within(self.max_edges, 1, 20_000) && within(
            self.max_response_bytes,
            1024,
            2_097_152,
        )
    }

    /// Accepts supported limits; refuses others as invalid input.
    pub fn validate(self) -> (r: Result<(), AnalysisError>)
        ensures
            r is Ok <==> self.supported(),
            r is Err ==> (r matches Err(AnalysisError::InvalidInput(m)) && m@ == "CFG limits require 1..4096 blocks, 1..20000 edges and 1024..2097152 response bytes"@),
    {
        if self.max_blocks < 1 || self.max_blocks > 4096 || self.max_edges < 1 || self.max_edges
            > 20_000 || self.max_response_bytes < 1024 || self.max_response_bytes > 2_097_152 {
            return Err(
                invalid(
                    "CFG limits require 1..4096 blocks, 1..20000 edges and 1024..2097152 response bytes",
                ),
            );
        }
        Ok(())
    }
}

impl Default for CompilerComplexityLimits {
    fn default() -> (r: Self)
        ensures
            r.max_blocks == 200,
            r.max_edges == 2000,
            r.max_response_bytes == 262_144,
    {
        CompilerComplexityLimits { max_blocks: 200, max_edges: 2000, max_response_bytes: 262_144 }
    }
}

} // verus!
