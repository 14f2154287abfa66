use uaps_engine::campaign::{CampaignConfig, CampaignPlanner};
use uaps_engine::job::Job;
use uaps_engine::setup::{SetupMatrix, SetupMatrixCollection};

fn create_test_jobs() -> Vec<Job> {
    vec![
        Job::new("J1").with_product("PRODUCT-A").with_priority(1).with_due_date(100_000),
        Job::new("J2").with_product("PRODUCT-A").with_priority(2).with_due_date(200_000),
        Job::new("J3").with_product("PRODUCT-A").with_priority(1).with_due_date(150_000),
        Job::new("J4").with_product("PRODUCT-B").with_priority(3).with_due_date(300_000),
        Job::new("J5").with_product("PRODUCT-B").with_priority(2).with_due_date(250_000),
        Job::new("J6").with_product("PRODUCT-C").with_priority(1).with_due_date(180_000),
    ]
}

#[test]
fn test_create_campaigns() {
    let jobs = create_test_jobs();
    let config = CampaignConfig { min_campaign_size: 2, max_campaign_size: 5, ..Default::default() };

    let planner = CampaignPlanner::new(config);
    let campaigns = planner.create_campaigns(&jobs);

    assert_eq!(campaigns.len(), 2);

    let product_a_campaign = campaigns.iter().find(|c| c.product_name == "PRODUCT-A").unwrap();
    assert_eq!(product_a_campaign.job_ids.len(), 3);

    let product_b_campaign = campaigns.iter().find(|c| c.product_name == "PRODUCT-B").unwrap();
    assert_eq!(product_b_campaign.job_ids.len(), 2);
}

#[test]
fn test_campaign_sorting_by_priority() {
    let jobs = create_test_jobs();
    let config = CampaignConfig::default();

    let planner = CampaignPlanner::new(config);
    let campaigns = planner.create_campaigns(&jobs);

    assert_eq!(campaigns[0].product_name, "PRODUCT-A");
}

#[test]
fn test_campaign_job_sequence() {
    let jobs = create_test_jobs();
    let config = CampaignConfig::default();

    let planner = CampaignPlanner::new(config);
    let campaigns = planner.create_campaigns(&jobs);
    let sequence = planner.get_job_sequence(&campaigns, &jobs);

    assert_eq!(sequence.len(), 6);

    let j1_pos = sequence.iter().position(|id| id == "J1").unwrap();
    let j2_pos = sequence.iter().position(|id| id == "J2").unwrap();
    let j3_pos = sequence.iter().position(|id| id == "J3").unwrap();

    let min_pos = j1_pos.min(j2_pos).min(j3_pos);
    let max_pos = j1_pos.max(j2_pos).max(j3_pos);
    assert_eq!(max_pos - min_pos, 2);
}

#[test]
fn test_setup_saving_estimation() {
    let setup_matrix = SetupMatrix::new("M1")
        .with_default_setup(10_000)
        .with_setup("PRODUCT-A", "PRODUCT-A", 1_000);

    let matrices = SetupMatrixCollection::new().with_matrix(setup_matrix);

    let config = CampaignConfig::default();
    let planner = CampaignPlanner::new(config).with_setup_matrices(matrices);

    let saving = planner.estimate_setup_saving("PRODUCT-A", 3);
    assert!(saving > 0);
}

#[test]
fn test_campaign_stats() {
    let jobs = create_test_jobs();
    let config = CampaignConfig::default();

    let planner = CampaignPlanner::new(config);
    let campaigns = planner.create_campaigns(&jobs);
    let stats = planner.calculate_stats(&campaigns);

    assert_eq!(stats.total_campaigns, 2);
    assert_eq!(stats.total_jobs_in_campaigns, 5);
    assert!(stats.avg_campaign_size_milli > 2000);
}

#[test]
fn test_max_campaign_size() {
    let jobs: Vec<Job> = (0..15).map(|i| Job::new(&format!("J{}", i)).with_product("PRODUCT-X")).collect();

    let config = CampaignConfig { min_campaign_size: 2, max_campaign_size: 5, ..Default::default() };

    let planner = CampaignPlanner::new(config);
    let campaigns = planner.create_campaigns(&jobs);

    assert_eq!(campaigns.len(), 3);
    for campaign in &campaigns {
        assert!(campaign.job_ids.len() <= 5);
    }
}

#[test]
fn test_no_campaigns_below_min_size() {
    let jobs = vec![
        Job::new("J1").with_product("PRODUCT-A"),
        Job::new("J2").with_product("PRODUCT-B"),
        Job::new("J3").with_product("PRODUCT-C"),
    ];

    let config = CampaignConfig { min_campaign_size: 2, ..Default::default() };

    let planner = CampaignPlanner::new(config);
    let campaigns = planner.create_campaigns(&jobs);

    assert_eq!(campaigns.len(), 0);
}

#[test]
fn campaigns_have_ids_dates_priorities_and_savings() {
    let jobs = create_test_jobs();
    let planner = CampaignPlanner::new(CampaignConfig::default());
    let campaigns = planner.create_campaigns(&jobs);
    assert_eq!(campaigns[0].id, "CAMPAIGN-0");
    assert_eq!(campaigns[0].job_ids, vec!["J1".to_string(), "J3".to_string(), "J2".to_string()]);
    assert_eq!(campaigns[0].priority, 1);
    assert_eq!(campaigns[0].earliest_due_date, Some(100_000));
    assert_eq!(campaigns[0].estimated_setup_saving_ms, 20_000);
    assert_eq!(campaigns[1].id, "CAMPAIGN-1");
    assert_eq!(campaigns[1].job_ids, vec!["J5".to_string(), "J4".to_string()]);
    assert_eq!(campaigns[1].priority, 2);
    assert_eq!(campaigns[1].earliest_due_date, Some(250_000));
    assert_eq!(campaigns[1].estimated_setup_saving_ms, 10_000);
}

#[test]
fn campaigns_order_by_priority_then_due_date() {
    let jobs = vec![
        Job::new("A1").with_product("A").with_priority(2).with_due_date(500),
        Job::new("A2").with_product("A").with_priority(2).with_due_date(600),
        Job::new("B1").with_product("B").with_priority(2).with_due_date(100),
        Job::new("B2").with_product("B").with_priority(2),
        Job::new("C1").with_product("C").with_priority(1),
        Job::new("C2").with_product("C").with_priority(3),
    ];
    let planner = CampaignPlanner::new(CampaignConfig::default());
    let campaigns = planner.create_campaigns(&jobs);
    let order: Vec<&str> = campaigns.iter().map(|c| c.product_name.as_str()).collect();
    assert_eq!(order, vec!["C", "B", "A"]);
    assert_eq!(campaigns[0].earliest_due_date, None);
    assert_eq!(campaigns[1].job_ids, vec!["B1".to_string(), "B2".to_string()]);
}

#[test]
fn jobs_without_product_group_by_their_own_id() {
    let jobs = vec![Job::new("X"), Job::new("X"), Job::new("Y")];
    let planner = CampaignPlanner::new(CampaignConfig::default());
    let campaigns = planner.create_campaigns(&jobs);
    assert_eq!(campaigns.len(), 1);
    assert_eq!(campaigns[0].product_name, "X");
    assert_eq!(campaigns[0].job_ids.len(), 2);
}

#[test]
fn short_last_run_is_dropped() {
    let jobs: Vec<Job> = (0..7).map(|i| Job::new(&format!("J{}", i)).with_product("P")).collect();
    let config = CampaignConfig { min_campaign_size: 2, max_campaign_size: 3, ..Default::default() };
    let planner = CampaignPlanner::new(config);
    let campaigns = planner.create_campaigns(&jobs);
    assert_eq!(campaigns.len(), 2);
    assert_eq!(campaigns[0].job_ids, vec!["J0".to_string(), "J1".to_string(), "J2".to_string()]);
    assert_eq!(campaigns[1].job_ids, vec!["J3".to_string(), "J4".to_string(), "J5".to_string()]);
}

#[test]
fn saving_uses_the_default_machine_matrix() {
    let matrix = SetupMatrix::new("").with_default_setup(30_000).with_setup("P", "P", 4_000);
    let planner = CampaignPlanner::new(CampaignConfig::default())
        .with_setup_matrices(SetupMatrixCollection::new().with_matrix(matrix));
    assert_eq!(planner.estimate_setup_saving("P", 3), 12_000);
    assert_eq!(planner.estimate_setup_saving("Q", 3), 20_000);
    assert_eq!(planner.estimate_setup_saving("P", 1), 0);
    let costly = SetupMatrix::new("").with_setup("R", "R", 15_000);
    let planner = CampaignPlanner::new(CampaignConfig::default())
        .with_setup_matrices(SetupMatrixCollection::new().with_matrix(costly));
    assert_eq!(planner.estimate_setup_saving("R", 4), 0);
}

#[test]
fn setup_matrix_lookup() {
    let matrix = SetupMatrix::new("EQP-001")
        .with_default_setup(10_000)
        .with_setup("ProductA", "ProductB", 20_000)
        .with_setup("ProductB", "ProductA", 15_000);
    let matrices = SetupMatrixCollection::new().with_matrix(matrix);
    assert_eq!(matrices.get_setup_time("EQP-001", None, "ProductA"), 10_000);
    assert_eq!(matrices.get_setup_time("EQP-001", Some("ProductA"), "ProductB"), 20_000);
    assert_eq!(matrices.get_setup_time("EQP-001", Some("ProductB"), "ProductA"), 15_000);
    assert_eq!(matrices.get_setup_time("EQP-001", Some("ProductA"), "ProductA"), 0);
    assert_eq!(matrices.get_setup_time("EQP-001", Some("ProductA"), "ProductC"), 10_000);
    assert_eq!(matrices.get_setup_time("EQP-002", Some("ProductA"), "ProductB"), 0);
}

#[test]
fn job_sequence_keeps_campaign_order_and_skips_repeats() {
    let jobs = create_test_jobs();
    let planner = CampaignPlanner::new(CampaignConfig::default());
    let campaigns = planner.create_campaigns(&jobs);
    let sequence = planner.get_job_sequence(&campaigns, &jobs);
    assert_eq!(sequence, vec!["J1", "J3", "J2", "J5", "J4", "J6"]);
}

#[test]
fn stats_of_no_campaigns() {
    let planner = CampaignPlanner::new(CampaignConfig::default());
    let stats = planner.calculate_stats(&[]);
    assert_eq!(stats.total_campaigns, 0);
    assert_eq!(stats.total_jobs_in_campaigns, 0);
    assert_eq!(stats.avg_campaign_size_milli, 0);
    assert_eq!(stats.total_estimated_setup_saving_ms, 0);
}

#[test]
fn stats_totals() {
    let jobs = create_test_jobs();
    let planner = CampaignPlanner::new(CampaignConfig::default());
    let campaigns = planner.create_campaigns(&jobs);
    let stats = planner.calculate_stats(&campaigns);
    assert_eq!(stats.avg_campaign_size_milli, 2_500);
    assert_eq!(stats.total_estimated_setup_saving_ms, 30_000);
}

#[test]
fn default_campaign_config() {
    let config = CampaignConfig::default();
    assert_eq!(config.min_campaign_size, 2);
    assert_eq!(config.max_campaign_size, 10);
    assert_eq!(config.setup_saving_threshold_ms, 5_000);
    assert_eq!(config.due_date_weight_milli, 500);
}
