//! Classifications used when an agent's signal is split into its
//! exact (exploration), coexact (exploitation) and harmonic (prior
//! knowledge) parts.

use vstd::prelude::*;

verus! {

/// The dominant mode of an agent.
#[derive(Clone, Copy, Debug, PartialEq, Eq, Structural)]
pub enum AgentMode {
    /// Exact component dominant: agent is learning through exploration
    Exploration,
    /// Coexact component dominant: agent is following instruction/exploitation
    Exploitation,
    /// Harmonic component dominant: agent is relying on prior knowledge
    PriorKnowledge,
}

/// The display name of a mode.
pub open spec fn mode_name(m: AgentMode) -> Seq<char> {
    match m {
        AgentMode::Exploration => "Exploration"@,
        AgentMode::Exploitation => "Exploitation"@,
        AgentMode::PriorKnowledge => "PriorKnowledge"@,
    }
}

impl AgentMode {
    /// The dominant mode from the comparisons of the three energy ratios:
    /// exploration wins ties, then exploitation.
    pub fn dominant(
        exploration_ge_exploitation: bool,
        exploration_ge_prior: bool,
        exploitation_ge_prior: bool,
    ) -> (m: AgentMode)
        ensures
            m == (if exploration_ge_exploitation && exploration_ge_prior {
                AgentMode::Exploration
            } else if exploitation_ge_prior {
                AgentMode::Exploitation
            } else {
                AgentMode::PriorKnowledge
            }),
    {
        if exploration_ge_exploitation && exploration_ge_prior {
            AgentMode::Exploration
        } else if exploitation_ge_prior {
            AgentMode::Exploitation
        } else {
            AgentMode::PriorKnowledge
        }
    }

    /// The display name of this mode.
    pub fn to_string(&self) -> (s: String)
        ensures
            s@ == mode_name(*self),
    {
        match self {
            AgentMode::Exploration => String::from_str("Exploration"),
            AgentMode::Exploitation => String::from_str("Exploitation"),
            AgentMode::PriorKnowledge => String::from_str("PriorKnowledge"),
        }
    }
}

/// Learning strategy recommendations.
#[derive(Clone, Copy, Debug, PartialEq, Eq, Structural)]
pub enum LearningStrategy {
    /// Agents should explore more
    MoreExploration,
    /// Agents should exploit more
    MoreExploitation,
    /// Leverage existing prior knowledge
    LeveragePriors,
    /// Current balance is good
    Balanced,
}

/// The display name of a strategy.
pub open spec fn strategy_name(s: LearningStrategy) -> Seq<char> {
    match s {
        LearningStrategy::MoreExploration => "MoreExploration"@,
        LearningStrategy::MoreExploitation => "MoreExploitation"@,
        LearningStrategy::LeveragePriors => "LeveragePriors"@,
        LearningStrategy::Balanced => "Balanced"@,
    }
}

impl LearningStrategy {
    /// The recommendation for a system from its average ratios: leverage
    /// priors when they dominate; otherwise push toward whichever of
    /// exploration and exploitation is behind; balanced when they are level.
    pub fn recommend(priors_dominate: bool, exploration_exceeds: bool, exploitation_exceeds: bool) -> (s:
        LearningStrategy)
        ensures
            s == (if priors_dominate {
                LearningStrategy::LeveragePriors
            } else if exploration_exceeds {
                LearningStrategy::MoreExploitation
            } else if exploitation_exceeds {
                LearningStrategy::MoreExploration
            } else {
                LearningStrategy::Balanced
            }),
    {
        if priors_dominate {
            LearningStrategy::LeveragePriors
        } else if exploration_exceeds {
            LearningStrategy::MoreExploitation
        } else if exploitation_exceeds {
            LearningStrategy::MoreExploration
        } else {
            LearningStrategy::Balanced
        }
    }

    /// The display name of this strategy.
    pub fn to_string(&self) -> (s: String)
        ensures
            s@ == strategy_name(*self),
    {
        match self {
            LearningStrategy::MoreExploration => String::from_str("MoreExploration"),
            LearningStrategy::MoreExploitation => String::from_str("MoreExploitation"),
            LearningStrategy::LeveragePriors => String::from_str("LeveragePriors"),
            LearningStrategy::Balanced => String::from_str("Balanced"),
        }
    }
}

} // verus!
