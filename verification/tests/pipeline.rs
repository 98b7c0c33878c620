use lian_world::generation::algorithm::{PhaseHeader, StepMeta};
use lian_world::generation::pipeline::{derive_step_seed, GenerationPipeline, StepStatus};

fn step(display_index: u32, name: &str) -> StepMeta {
    StepMeta { display_index, name: name.to_string(), description: format!("{name} desc"), doc_url: None }
}

fn header(id: &str, name: &str, steps: Vec<StepMeta>, has_params: bool) -> PhaseHeader {
    PhaseHeader { id: id.to_string(), name: name.to_string(), description: String::new(), steps, has_params }
}

/// Two phases: "A" with sub-steps 0..3, "B" with sub-steps 0..2.
fn two_phase_pipeline(seed: u64) -> GenerationPipeline {
    let mut p = GenerationPipeline::new(seed);
    p.register(header("a", "A", vec![step(0, "a0"), step(1, "a1"), step(2, "a2")], true));
    p.register(header("b", "B", vec![step(0, "b0"), step(1, "b1")], false));
    p
}

fn expected_seed(master: u64, index: usize, w: u32, h: u32) -> u64 {
    let size_mix = ((w as u64) << 32) | (h as u64);
    master
        .wrapping_add(index as u64)
        .wrapping_mul(6_364_136_223_846_793_005)
        .wrapping_add(1_442_695_040_888_963_407)
        .wrapping_add(size_mix.wrapping_mul(2_862_933_555_777_941_757))
}

#[test]
fn derive_step_seed_matches_formula() {
    assert_eq!(derive_step_seed(0, 0, 0, 0), 1_442_695_040_888_963_407);
    for &(m, i, w, h) in &[(42u64, 3usize, 4200u32, 1200u32), (u64::MAX, 7, 8400, 2400), (1, 0, 1, 1)] {
        assert_eq!(derive_step_seed(m, i, w, h), expected_seed(m, i, w, h));
    }
}

#[test]
fn derive_step_seed_separates_world_sizes() {
    let sizes = [(4200u32, 1200u32), (6400, 1800), (8400, 2400), (1200, 4200), (4200, 1201)];
    for a in 0..sizes.len() {
        for b in 0..sizes.len() {
            let sa = derive_step_seed(12345, 2, sizes[a].0, sizes[a].1);
            let sb = derive_step_seed(12345, 2, sizes[b].0, sizes[b].1);
            assert_eq!(sa == sb, a == b);
        }
    }
}

#[test]
fn pipeline_counts_and_cursor() {
    let mut p = two_phase_pipeline(7);
    assert_eq!(p.total_sub_steps(), 5);
    assert_eq!(p.executed_sub_steps(), 0);
    assert!(!p.is_complete());
    for k in 0..5 {
        let plan = p.plan_next_step(100, 50).expect("a sub-step remains");
        assert_eq!(plan.flat_index, k);
        assert_eq!(plan.step_seed, derive_step_seed(7, k, 100, 50));
        assert_eq!((plan.phase_index, plan.sub_index), p.flat_to_position(k));
        p.commit_step();
        assert_eq!(p.executed_sub_steps(), k + 1);
    }
    assert!(p.is_complete());
    assert_eq!(p.plan_next_step(100, 50), None);
    assert_eq!(p.flat_to_position(3), (1, 0));
    assert_eq!(p.flat_to_position(5), (2, 0));
    assert_eq!(p.flat_to_position(99), (2, 0));
}

#[test]
fn replay_after_rewind_reproduces_plans() {
    let mut p = two_phase_pipeline(99);
    let mut first = Vec::new();
    while let Some(plan) = p.plan_next_step(640, 360) {
        first.push(plan);
        p.commit_step();
    }
    p.rewind();
    assert_eq!(p.executed_sub_steps(), 0);
    assert_eq!((p.current_phase_index(), p.current_sub_index()), (0, 0));
    let mut second = Vec::new();
    while let Some(plan) = p.plan_next_step(640, 360) {
        second.push(plan);
        p.commit_step();
    }
    assert_eq!(first, second);
}

#[test]
fn backward_targets() {
    let mut p = two_phase_pipeline(1);
    assert_eq!(p.backward_sub_target(), None);
    assert_eq!(p.backward_phase_target(), None);
    p.commit_step();
    p.commit_step();
    // inside phase A: back to its start
    assert_eq!(p.backward_sub_target(), Some(1));
    assert_eq!(p.backward_phase_target(), Some(0));
    p.commit_step();
    // at the start of phase B: back to the start of phase A
    assert_eq!(p.backward_phase_target(), Some(0));
    p.commit_step();
    // inside phase B: back to its start
    assert_eq!(p.backward_phase_target(), Some(3));
    assert_eq!(p.backward_sub_target(), Some(3));
}

#[test]
fn current_algorithm_and_names() {
    let mut p = GenerationPipeline::new(0);
    assert_eq!(p.current_algorithm_index(), None);
    assert_eq!(p.last_executed_name(), None);
    p.register(header("a", "A", vec![step(0, "a0"), step(1, "a1"), step(2, "a2")], true));
    p.register(header("b", "B", vec![step(0, "b0"), step(1, "b1")], false));
    assert_eq!(p.current_algorithm_index(), Some(0));
    assert_eq!(p.current_step_display_id().as_deref(), Some("1.0"));
    p.commit_step();
    p.commit_step();
    p.commit_step();
    // at a phase boundary the last executed phase is shown
    assert_eq!(p.current_algorithm_index(), Some(0));
    assert_eq!(p.last_executed_name().as_deref(), Some("A - a2"));
    assert_eq!(p.current_step_display_id().as_deref(), Some("2.0"));
    p.commit_step();
    assert_eq!(p.current_algorithm_index(), Some(1));
    p.commit_step();
    assert_eq!(p.current_step_display_id(), None);
    assert_eq!(p.current_algorithm_index(), Some(1));
    assert_eq!(p.last_executed_name().as_deref(), Some("B - b1"));
}

#[test]
fn phase_info_statuses() {
    let mut p = two_phase_pipeline(0);
    p.commit_step();
    p.commit_step();
    let info = p.phase_info_list();
    assert_eq!(info.len(), 2);
    assert_eq!(info[0].display_index, 1);
    assert_eq!(info[0].algorithm_id, "a");
    assert!(info[0].has_params);
    assert_eq!(info[0].status, StepStatus::Current);
    assert_eq!(info[1].status, StepStatus::Pending);
    let subs: Vec<StepStatus> = info[0].sub_steps.iter().map(|s| s.status).collect();
    assert_eq!(subs, vec![StepStatus::Completed, StepStatus::Completed, StepStatus::Current]);
    assert_eq!(info[0].sub_steps[2].display_id, "1.2");
    assert_eq!(info[1].sub_steps[1].display_id, "2.1");
    assert_eq!(info[1].sub_steps[0].name, "b0");
    assert_eq!(info[1].sub_steps[0].description, "b0 desc");
    p.commit_step();
    let info = p.phase_info_list();
    assert_eq!(info[0].status, StepStatus::Completed);
    assert_eq!(info[1].status, StepStatus::Pending);
    assert_eq!(info[1].sub_steps[0].status, StepStatus::Current);
}

#[test]
fn seed_and_register_after_completion() {
    let mut p = GenerationPipeline::new(5);
    assert_eq!(p.seed(), 5);
    p.set_seed(6);
    assert_eq!(p.seed(), 6);
    p.register(header("a", "A", vec![step(0, "a0")], false));
    p.commit_step();
    assert!(p.is_complete());
    p.register(header("b", "B", vec![step(0, "b0")], false));
    assert!(!p.is_complete());
    assert_eq!(p.current_phase_index(), 1);
    assert_eq!(p.executed_sub_steps(), 1);
}
