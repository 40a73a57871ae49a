use vstd::prelude::*;

use crate::firewall::{batch_view, config_instructions, deletions_for, handle_new_config, FirewallConfig, Instruction};

verus! {

/// The enforcer's state: the configuration to enforce, and the batch that
/// was last applied to the kernel, whose objects the next batch removes.
#[derive(Debug)]
pub struct Enforcer {
    pub config: FirewallConfig,
    pub applied: Vec<Instruction>,
}

impl Enforcer {
    /// An enforcer for `config` that has applied nothing yet.
    pub fn new(config: FirewallConfig) -> (r: Enforcer)
        ensures
            r.config == config,
            r.applied@.len() == 0,
    {
        Enforcer { config, applied: Vec::new() }
    }

    /// Takes `config` as the configuration to enforce.
    pub fn apply_new_config(&mut self, config: FirewallConfig)
        ensures
            final(self).config == config,
            final(self).applied == old(self).applied,
    {
        self.config = config;
    }

    /// The batch that replaces the ruleset last applied by the one of the
    /// current configuration.
    pub fn next_batch(&self) -> (r: Vec<Instruction>)
        ensures
            batch_view(r@) == deletions_for(batch_view(self.applied@)) + config_instructions(
                self.config,
            ),
    {
        handle_new_config(&self.applied, &self.config)
    }

    /// Records that the kernel applied `batch`.
    pub fn record_applied(&mut self, batch: Vec<Instruction>)
        ensures
            final(self).applied == batch,
            final(self).config == old(self).config,
    {
        self.applied = batch;
    }
}

} // verus!
