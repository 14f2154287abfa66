use uaps_engine::dispatching::{
    DispatchingConfig, DispatchingContext, DispatchingLayer, DispatchingPreset, DispatchingRuleName,
    MultiLayerDispatchingConfig, RuleSwitchCondition, RuleSwitchRule, WeightedRule,
};
use uaps_engine::job::{Job, Operation};

fn make_job(id: &str, priority: i32, duration_ms: i64, due_date: Option<i64>) -> Job {
    let job = Job::new(id)
        .with_priority(priority)
        .with_operation(Operation::new(&format!("{}-OP1", id), id, 1).with_time(0, duration_ms, 0));
    match due_date {
        Some(d) => job.with_due_date(d),
        None => job,
    }
}

#[test]
fn test_rule_name_parsing() {
    assert_eq!(DispatchingRuleName::parse("spt"), Some(DispatchingRuleName::Spt));
    assert_eq!(DispatchingRuleName::parse("EDD"), Some(DispatchingRuleName::Edd));
    assert_eq!(DispatchingRuleName::parse("s/ro"), Some(DispatchingRuleName::Sro));
    assert_eq!(DispatchingRuleName::parse("unknown"), None);
}

#[test]
fn rule_names_round_trip() {
    let all = [
        DispatchingRuleName::Spt, DispatchingRuleName::Lpt, DispatchingRuleName::Lwkr, DispatchingRuleName::Mwkr,
        DispatchingRuleName::Wspt, DispatchingRuleName::Edd, DispatchingRuleName::Mst, DispatchingRuleName::Cr,
        DispatchingRuleName::Sro, DispatchingRuleName::Atc, DispatchingRuleName::Fifo, DispatchingRuleName::Winq,
        DispatchingRuleName::Lpul, DispatchingRuleName::Priority, DispatchingRuleName::Mopnr,
        DispatchingRuleName::Random,
    ];
    for r in all {
        assert_eq!(DispatchingRuleName::parse(r.as_str()), Some(r));
        assert_eq!(DispatchingRuleName::parse_upper(r.as_str()), Some(r));
    }
    assert_eq!(DispatchingRuleName::Sro.as_str(), "S/RO");
    assert_eq!(DispatchingRuleName::parse("Sro"), Some(DispatchingRuleName::Sro));
    assert_eq!(DispatchingRuleName::parse_upper("spt"), None);
    assert_eq!(DispatchingRuleName::default(), DispatchingRuleName::Fifo);
}

#[test]
fn every_listed_rule_is_selectable_by_name() {
    for (name, rule) in [
        ("fifo", DispatchingRuleName::Fifo),
        ("Spt", DispatchingRuleName::Spt),
        ("LPT", DispatchingRuleName::Lpt),
        ("edd", DispatchingRuleName::Edd),
        ("Slack", DispatchingRuleName::Mst),
        ("cr", DispatchingRuleName::Cr),
        ("priority", DispatchingRuleName::Priority),
        ("LWKR", DispatchingRuleName::Lwkr),
        ("mwkr", DispatchingRuleName::Mwkr),
        ("mopnr", DispatchingRuleName::Mopnr),
        ("Random", DispatchingRuleName::Random),
    ] {
        assert_eq!(DispatchingRuleName::parse(name), Some(rule));
    }
    assert_eq!(DispatchingRuleName::Mopnr.as_str(), "MOPNR");
    assert_eq!(DispatchingRuleName::Random.as_str(), "RANDOM");
}

#[test]
fn simple_config_weights() {
    let c = DispatchingConfig::new(DispatchingRuleName::Edd).with_tie_breaker(DispatchingRuleName::Spt);
    assert_eq!(c.tie_breaker, Some(DispatchingRuleName::Spt));
    assert_eq!(
        c.weighted_rules(),
        vec![
            WeightedRule { rule: DispatchingRuleName::Edd, weight_milli: 1000 },
            WeightedRule { rule: DispatchingRuleName::Spt, weight_milli: 0 },
        ]
    );
    assert_eq!(DispatchingConfig::new(DispatchingRuleName::Spt).weighted_rules().len(), 1);
}

#[test]
fn test_multi_layer_config() {
    let config = MultiLayerDispatchingConfig::new(DispatchingRuleName::Fifo)
        .with_layer(DispatchingLayer::new("primary", DispatchingRuleName::Edd))
        .with_layer(DispatchingLayer::new("secondary", DispatchingRuleName::Spt).with_weight(500))
        .with_layer(DispatchingLayer::new("tie_breaker", DispatchingRuleName::Fifo).as_tie_breaker());
    assert_eq!(config.layers.len(), 3);
    assert_eq!(config.layers[0].weight_milli, 1000);
    assert_eq!(config.layers[1].weight_milli, 500);
    assert_eq!(config.layers[2].weight_milli, 0);
}

#[test]
fn layer_weight_is_clamped() {
    assert_eq!(DispatchingLayer::new("x", DispatchingRuleName::Spt).with_weight(1500).weight_milli, 1000);
    assert_eq!(DispatchingLayer::new("x", DispatchingRuleName::Spt).with_weight(-3).weight_milli, 0);
}

#[test]
fn test_dispatching_context_from_jobs() {
    let now = 1_700_000_000_000i64;
    let jobs = vec![
        make_job("urgent", 1, 1000, Some(now - 3_600_000)),
        make_job("normal", 5, 1000, None),
        make_job("low", 10, 1000, None),
    ];
    let ctx = DispatchingContext::from_jobs(&jobs, now);
    assert_eq!(ctx.queue_length, 3);
    assert_eq!(ctx.min_priority, Some(1));
    assert!(ctx.delayed_job_count >= 1);
    assert_eq!(ctx.delayed_job_count, 1);
}

#[test]
fn context_of_no_jobs() {
    let ctx = DispatchingContext::from_jobs(&[], 0);
    assert_eq!(ctx.queue_length, 0);
    assert_eq!(ctx.min_priority, None);
    assert_eq!(ctx.delayed_job_count, 0);
}

#[test]
fn test_rule_switch_condition_time() {
    let ctx = DispatchingContext::new(10_000);
    let before = RuleSwitchCondition::TimeBefore { threshold_ms: 20_000 };
    let after = RuleSwitchCondition::TimeAfter { threshold_ms: 5_000 };
    assert!(before.evaluate(&ctx));
    assert!(after.evaluate(&ctx));
}

#[test]
fn test_rule_switch_condition_urgent() {
    let ctx_urgent = DispatchingContext { min_priority: Some(1), ..Default::default() };
    let ctx_normal = DispatchingContext { min_priority: Some(5), ..Default::default() };
    let condition = RuleSwitchCondition::HasUrgentJobs { priority_threshold: 2 };
    assert!(condition.evaluate(&ctx_urgent));
    assert!(!condition.evaluate(&ctx_normal));
}

#[test]
fn test_dynamic_rule_selection() {
    let config = MultiLayerDispatchingConfig::new(DispatchingRuleName::Fifo)
        .with_switch_rule(
            RuleSwitchRule::new(RuleSwitchCondition::HasUrgentJobs { priority_threshold: 2 }, DispatchingRuleName::Priority)
                .with_priority(100),
        )
        .with_switch_rule(
            RuleSwitchRule::new(RuleSwitchCondition::DelayedJobsExceed { count: 3 }, DispatchingRuleName::Edd).with_priority(50),
        );
    let ctx_urgent = DispatchingContext { min_priority: Some(1), ..Default::default() };
    assert_eq!(config.select_rule(&ctx_urgent), DispatchingRuleName::Priority);
    let ctx_delayed = DispatchingContext { delayed_job_count: 5, min_priority: Some(5), ..Default::default() };
    assert_eq!(config.select_rule(&ctx_delayed), DispatchingRuleName::Edd);
    let ctx_normal = DispatchingContext::default();
    assert_eq!(config.select_rule(&ctx_normal), DispatchingRuleName::Fifo);
}

#[test]
fn higher_priority_switch_rule_wins_regardless_of_order() {
    let config = MultiLayerDispatchingConfig::new(DispatchingRuleName::Fifo)
        .with_switch_rule(RuleSwitchRule::new(RuleSwitchCondition::Always, DispatchingRuleName::Spt).with_priority(1))
        .with_switch_rule(RuleSwitchRule::new(RuleSwitchCondition::Always, DispatchingRuleName::Lpt).with_priority(9))
        .with_switch_rule(RuleSwitchRule::new(RuleSwitchCondition::Always, DispatchingRuleName::Cr).with_priority(9));
    assert_eq!(config.select_rule(&DispatchingContext::default()), DispatchingRuleName::Lpt);
    let w = config.weighted_rules(&DispatchingContext::default());
    assert_eq!(w, vec![WeightedRule { rule: DispatchingRuleName::Lpt, weight_milli: 1000 }]);
}

#[test]
fn test_dispatching_preset() {
    let config = DispatchingPreset::DueDateFocused.to_config();
    assert_eq!(config.default_rule, DispatchingRuleName::Edd);
    assert_eq!(config.layers.len(), 2);
    assert_eq!(config.layers[0].rule, DispatchingRuleName::Edd);
    assert_eq!(config.layers[1].rule, DispatchingRuleName::Spt);
}

#[test]
fn test_adaptive_preset() {
    let config = DispatchingPreset::ThroughputMaximize.to_adaptive_config();
    assert_eq!(config.default_rule, DispatchingRuleName::Spt);
    assert_eq!(config.switch_rules.len(), 2);
    let ctx_urgent = DispatchingContext { min_priority: Some(1), ..Default::default() };
    assert_eq!(config.select_rule(&ctx_urgent), DispatchingRuleName::Priority);
}

#[test]
fn test_multi_layer_to_simple_config() {
    let multi = MultiLayerDispatchingConfig::new(DispatchingRuleName::Fifo)
        .with_layer(DispatchingLayer::new("primary", DispatchingRuleName::Edd))
        .with_layer(DispatchingLayer::new("tie", DispatchingRuleName::Spt).as_tie_breaker());
    let simple = multi.to_simple_config();
    assert_eq!(simple.primary_rule, DispatchingRuleName::Edd);
    assert_eq!(simple.tie_breaker, Some(DispatchingRuleName::Spt));
    let layered = multi.weighted_rules(&DispatchingContext::default());
    assert_eq!(layered.len(), 2);
    assert_eq!(layered[1].weight_milli, 0);
}

#[test]
fn test_utilization_condition() {
    let ctx = DispatchingContext::new(0).with_utilization("M1", 850).with_utilization("M2", 500);
    let above = RuleSwitchCondition::UtilizationAbove { resource_id: "M1".to_string(), threshold_milli: 800 };
    let below = RuleSwitchCondition::UtilizationBelow { resource_id: "M2".to_string(), threshold_milli: 600 };
    assert!(above.evaluate(&ctx));
    assert!(below.evaluate(&ctx));
    let unknown = RuleSwitchCondition::UtilizationAbove { resource_id: "M9".to_string(), threshold_milli: 0 };
    assert!(!unknown.evaluate(&ctx));
    let updated = ctx.with_utilization("M1", 100);
    assert!(!above.evaluate(&updated));
}

#[test]
fn slack_names_the_minimum_slack_rule() {
    assert_eq!(DispatchingRuleName::parse("SLACK"), Some(DispatchingRuleName::Mst));
    assert_eq!(DispatchingRuleName::parse("slack"), Some(DispatchingRuleName::Mst));
    assert_eq!(DispatchingRuleName::parse("MST"), Some(DispatchingRuleName::Mst));
}

#[test]
fn late_jobs_counted_only_at_representable_times() {
    let jobs = vec![
        Job::new("J1").with_due_date(1_000).with_priority(3),
        Job::new("J2").with_due_date(9_000).with_priority(1),
        Job::new("J3").with_priority(2),
    ];
    let ctx = DispatchingContext::from_jobs_checked(&jobs, 5_000, true);
    assert_eq!(ctx.delayed_job_count, 1);
    assert_eq!(ctx.queue_length, 3);
    assert_eq!(ctx.min_priority, Some(1));
    let ctx = DispatchingContext::from_jobs_checked(&jobs, 5_000, false);
    assert_eq!(ctx.delayed_job_count, 0);
}

#[test]
fn late_jobs_need_a_time_chrono_represents() {
    let jobs = vec![Job::new("J1").with_due_date(1_000)];
    assert_eq!(DispatchingContext::from_jobs(&jobs, 8_210_266_876_799_999).delayed_job_count, 1);
    assert_eq!(DispatchingContext::from_jobs(&jobs, 8_210_266_876_800_000).delayed_job_count, 0);
    let early = vec![Job::new("J0").with_due_date(-8_334_601_228_800_001)];
    assert_eq!(DispatchingContext::from_jobs(&early, -8_334_601_228_800_000).delayed_job_count, 1);
    assert_eq!(DispatchingContext::from_jobs(&early, -8_334_601_228_800_001).delayed_job_count, 0);
}

#[test]
fn preset_layers_are_named() {
    let c = DispatchingPreset::DueDateFocused.to_config();
    let names: Vec<&str> = c.layers.iter().map(|l| l.name.as_str()).collect();
    assert_eq!(names, vec!["due_date", "tie_breaker"]);
    let c = DispatchingPreset::LoadBalancing.to_adaptive_config();
    let names: Vec<&str> = c.layers.iter().map(|l| l.name.as_str()).collect();
    assert_eq!(names, vec!["utilization", "queue"]);
}
