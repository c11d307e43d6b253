use lau_hodge_decomposition_agents::agent::{AgentMode, LearningStrategy};

#[test]
fn test_agent_mode_display() {
    assert_eq!(AgentMode::Exploration.to_string(), "Exploration");
    assert_eq!(AgentMode::Exploitation.to_string(), "Exploitation");
    assert_eq!(AgentMode::PriorKnowledge.to_string(), "PriorKnowledge");
}

#[test]
fn test_learning_strategy_display() {
    assert_eq!(LearningStrategy::Balanced.to_string(), "Balanced");
}

#[test]
fn learning_strategy_names() {
    assert_eq!(LearningStrategy::MoreExploration.to_string(), "MoreExploration");
    assert_eq!(LearningStrategy::MoreExploitation.to_string(), "MoreExploitation");
    assert_eq!(LearningStrategy::LeveragePriors.to_string(), "LeveragePriors");
}

#[test]
fn dominant_mode_prefers_exploration_on_ties() {
    assert_eq!(AgentMode::dominant(true, true, true), AgentMode::Exploration);
    assert_eq!(AgentMode::dominant(true, false, false), AgentMode::PriorKnowledge);
    assert_eq!(AgentMode::dominant(false, true, true), AgentMode::Exploitation);
    assert_eq!(AgentMode::dominant(false, false, true), AgentMode::Exploitation);
    assert_eq!(AgentMode::dominant(false, false, false), AgentMode::PriorKnowledge);
}

#[test]
fn recommendation_rules() {
    assert_eq!(LearningStrategy::recommend(true, true, false), LearningStrategy::LeveragePriors);
    assert_eq!(LearningStrategy::recommend(false, true, false), LearningStrategy::MoreExploitation);
    assert_eq!(LearningStrategy::recommend(false, false, true), LearningStrategy::MoreExploration);
    assert_eq!(LearningStrategy::recommend(false, false, false), LearningStrategy::Balanced);
}
