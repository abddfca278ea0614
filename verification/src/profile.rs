//! Where the time of decode steps goes.

use crate::schedule::Phase;
use vstd::prelude::*;

verus! {

/// Microseconds spent in each phase, and the number of tokens decoded.
#[derive(Clone, Debug, PartialEq, Eq)]
pub struct Profile {
    pub embed_us: u64,
    pub attn_norms_us: u64,
    pub qkv_gemv_us: u64,
    pub attn_cpu_us: u64,
    pub o_gemv_us: u64,
    pub shared_mlp_us: u64,
    pub router_us: u64,
    pub moe_us: u64,
    pub combine_us: u64,
    pub lm_head_us: u64,
    pub tokens: u64,
}

impl Default for Profile {
    /// Nothing spent and nothing decoded.
    fn default() -> (r: Profile)
        ensures
            r.total() == 0,
            r.tokens == 0,
            forall|phase: Phase| r.spent(phase) == 0,
    {
        Profile {
            embed_us: 0,
            attn_norms_us: 0,
            qkv_gemv_us: 0,
            attn_cpu_us: 0,
            o_gemv_us: 0,
            shared_mlp_us: 0,
            router_us: 0,
            moe_us: 0,
            combine_us: 0,
            lm_head_us: 0,
            tokens: 0,
        }
    }
}

impl Profile {
    /// Microseconds spent in a phase.
    pub open spec fn spent(&self, phase: Phase) -> u64 {
        match phase {
            Phase::Embed => self.embed_us,
            Phase::AttnNorms => self.attn_norms_us,
            Phase::QkvGemv => self.qkv_gemv_us,
            Phase::Attn => self.attn_cpu_us,
            Phase::OutGemv => self.o_gemv_us,
            Phase::SharedMlp => self.shared_mlp_us,
            Phase::Router => self.router_us,
            Phase::Moe => self.moe_us,
            Phase::Combine => self.combine_us,
            Phase::LmHead => self.lm_head_us,
        }
    }

    /// Microseconds spent in all.
    pub open spec fn total(&self) -> int {
        self.embed_us + self.attn_norms_us + self.qkv_gemv_us + self.attn_cpu_us + self.o_gemv_us
            + self.shared_mlp_us + self.router_us + self.moe_us + self.combine_us + self.lm_head_us
    }

    /// Counts microseconds for a phase.
    pub fn record(&mut self, phase: Phase, micros: u64)
        requires
            old(self).spent(phase) + micros <= u64::MAX,
        ensures
            final(self).spent(phase) == old(self).spent(phase) + micros,
            forall|other: Phase|
                other != phase ==> #[trigger] final(self).spent(other) == old(self).spent(other),
            final(self).tokens == old(self).tokens,
            final(self).total() == old(self).total() + micros,
    {
        match phase {
            Phase::Embed => self.embed_us = self.embed_us + micros,
            Phase::AttnNorms => self.attn_norms_us = self.attn_norms_us + micros,
            Phase::QkvGemv => self.qkv_gemv_us = self.qkv_gemv_us + micros,
            Phase::Attn => self.attn_cpu_us = self.attn_cpu_us + micros,
            Phase::OutGemv => self.o_gemv_us = self.o_gemv_us + micros,
            Phase::SharedMlp => self.shared_mlp_us = self.shared_mlp_us + micros,
            Phase::Router => self.router_us = self.router_us + micros,
            Phase::Moe => self.moe_us = self.moe_us + micros,
            Phase::Combine => self.combine_us = self.combine_us + micros,
            Phase::LmHead => self.lm_head_us = self.lm_head_us + micros,
        }
    }

    /// Counts decoded tokens.
    pub fn count(&mut self, n: usize)
        requires
            old(self).tokens + n <= u64::MAX,
        ensures
            final(self).tokens == old(self).tokens + n,
            forall|phase: Phase| #[trigger] final(self).spent(phase) == old(self).spent(phase),
            final(self).total() == old(self).total(),
    {
        self.tokens = self.tokens + n as u64;
    }

    /// Microseconds spent in all, where that fits 64 bits.
    pub fn sum(&self) -> (r: Option<u64>)
        ensures
            r == if self.total() <= u64::MAX {
                Some(self.total() as u64)
            } else {
                None
            },
    {
        let all: u128 = self.embed_us as u128 + self.attn_norms_us as u128
            + self.qkv_gemv_us as u128 + self.attn_cpu_us as u128 + self.o_gemv_us as u128
            + self.shared_mlp_us as u128 + self.router_us as u128 + self.moe_us as u128
            + self.combine_us as u128 + self.lm_head_us as u128;
        if all <= u64::MAX as u128 {
            Some(all as u64)
        } else {
            None
        }
    }
}

/// Each phase has a counter of its own, and what was spent in all is what was spent in
/// the phases.
pub proof fn phases_have_their_counters(p: Profile)
    ensures
        p.spent(Phase::Embed) == p.embed_us,
        p.spent(Phase::AttnNorms) == p.attn_norms_us,
        p.spent(Phase::QkvGemv) == p.qkv_gemv_us,
        p.spent(Phase::Attn) == p.attn_cpu_us,
        p.spent(Phase::OutGemv) == p.o_gemv_us,
        p.spent(Phase::SharedMlp) == p.shared_mlp_us,
        p.spent(Phase::Router) == p.router_us,
        p.spent(Phase::Moe) == p.moe_us,
        p.spent(Phase::Combine) == p.combine_us,
        p.spent(Phase::LmHead) == p.lm_head_us,
        p.total() == p.spent(Phase::Embed) + p.spent(Phase::AttnNorms) + p.spent(Phase::QkvGemv)
            + p.spent(Phase::Attn) + p.spent(Phase::OutGemv) + p.spent(Phase::SharedMlp) + p.spent(
            Phase::Router,
        ) + p.spent(Phase::Moe) + p.spent(Phase::Combine) + p.spent(Phase::LmHead),
{
}

} // verus!
