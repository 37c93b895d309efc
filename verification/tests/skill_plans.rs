use eve_sde_mcp::params::SkillPlanTarget;
use eve_sde_mcp::skills::{build_skill_plan, skill_sp_rank, SkillData, SkillPlanError, SkillSpError};

fn skill_data(ranks: &[(u64, u64)], prereqs: &[(u64, Vec<(u64, u8)>)], names: &[(u64, &str)]) -> SkillData {
    SkillData {
        ranks: ranks.iter().copied().collect(),
        prereqs: prereqs.iter().cloned().collect(),
        names: names.iter().map(|&(id, n)| (id, n.to_string())).collect(),
    }
}

/// The skill-plan slice of the SDE fixture: Mining (rank 1), Astrogeology
/// (rank 3, needs Mining III), Mining Barge (rank 4, needs Astrogeology III),
/// the Covetor (needs Mining Barge III) and an ORE strip miner (needs Mining V).
fn fixture() -> SkillData {
    skill_data(
        &[(3386, 1), (3410, 3), (17940, 4)],
        &[
            (3410, vec![(3386, 3)]),
            (17940, vec![(3410, 3)]),
            (17476, vec![(17940, 3)]),
            (87562, vec![(3386, 5)]),
        ],
        &[(3386, "Mining"), (3410, "Astrogeology"), (17940, "Mining Barge"), (17476, "Covetor")],
    )
}

fn target(type_id: u64) -> SkillPlanTarget {
    SkillPlanTarget { type_id, level_override: None }
}

#[test]
fn build_skill_plan_dedupes_to_highest_level_and_topo_sorts() {
    let sd = fixture();
    let plan = build_skill_plan(&sd, &vec![target(17476), target(87562)]).unwrap();

    let ids: Vec<u64> = plan.plan.iter().map(|s| s.skill_id).collect();
    assert_eq!(ids, vec![3386, 3410, 17940], "Mining → Astrogeology → Mining Barge");

    let mining = &plan.plan[0];
    assert_eq!(mining.required_level, 5, "deduped to highest demanded level");
    assert_eq!(mining.required_by, vec![17476, 87562], "provenance unions both targets");
    assert_eq!(mining.sp_for_level, 256000);
    assert_eq!(plan.total_sp, 312000);
    assert_eq!(plan.plan.last().unwrap().cumulative_sp, 312000);

    let covetor = plan.targets.iter().find(|t| t.type_id == 17476).unwrap();
    assert_eq!(covetor.tree[0].skill_id, 17940);
    assert_eq!(covetor.tree[0].rank, 4);
}

#[test]
fn build_skill_plan_errors_on_cycle() {
    let sd = skill_data(
        &[(100, 1), (101, 1)],
        &[(100, vec![(101, 1)]), (101, vec![(100, 1)])],
        &[(100, "Loop A"), (101, "Loop B")],
    );
    let err = match build_skill_plan(&sd, &vec![target(100)]) {
        Err(e) => e.message(),
        Ok(_) => panic!("expected cycle error"),
    };
    assert!(err.contains("cycle"), "expected cycle error, got: {err}");
}

#[test]
fn skill_plan_steps_carry_full_sp_curve() {
    let sd = fixture();
    let plan = build_skill_plan(&sd, &vec![target(87562)]).unwrap();
    let mining = plan.plan.iter().find(|s| s.skill_id == 3386).unwrap();
    assert_eq!(mining.sp_by_level.len(), 5);
    assert_eq!(mining.sp_by_level[0].sp_to_reach, 250);
    assert_eq!(mining.sp_by_level[4].sp_to_reach, mining.sp_for_level);
}

#[test]
fn build_skill_plan_errors_when_depth_exceeded() {
    let mut ranks = vec![];
    let mut prereqs = vec![];
    for id in 100u64..=114 {
        ranks.push((id, 1));
        prereqs.push((id, vec![(id + 1, 1u8)]));
    }
    ranks.push((115, 1));
    let sd = skill_data(&ranks, &prereqs, &[]);
    let err = match build_skill_plan(&sd, &vec![target(100)]) {
        Err(e) => e.message(),
        Ok(_) => panic!("expected depth error"),
    };
    assert!(err.contains("depth"), "expected depth error, got: {err}");
}

#[test]
fn build_skill_plan_handles_empty_targets() {
    let sd = fixture();
    let plan = build_skill_plan(&sd, &vec![]).unwrap();
    assert!(plan.plan.is_empty());
    assert!(plan.targets.is_empty());
    assert_eq!(plan.total_sp, 0);
}

#[test]
fn build_skill_plan_flags_assumed_rank_for_rankless_skill() {
    let sd = skill_data(&[], &[(200, vec![(201, 3)])], &[]);
    let plan = build_skill_plan(&sd, &vec![target(200)]).unwrap();
    let step = plan.plan.iter().find(|s| s.skill_id == 201).unwrap();
    assert!(step.rank_assumed, "rank-less skill should be flagged");
    assert_eq!(step.rank, 1, "defaults to rank 1");
}

#[test]
fn skill_plan_level_override_is_clamped() {
    // A skill target trains to its override, clamped into 1..=5.
    let sd = fixture();
    let plan = build_skill_plan(&sd, &vec![SkillPlanTarget { type_id: 3386, level_override: Some(9) }]).unwrap();
    assert_eq!(plan.plan.len(), 1);
    assert_eq!(plan.plan[0].required_level, 5);
    let plan = build_skill_plan(&sd, &vec![SkillPlanTarget { type_id: 3386, level_override: Some(2) }]).unwrap();
    assert_eq!(plan.plan[0].required_level, 2);
    assert_eq!(plan.total_sp, 1414);
}

#[test]
fn skill_plan_error_messages_name_the_fault() {
    assert_eq!(SkillPlanError::Cycle(100).message(), "skill prerequisite cycle detected at skill 100");
    assert_eq!(SkillPlanError::DepthExceeded.message(), "skill prerequisite depth exceeds 12");
    assert_eq!(SkillPlanError::CycleInPlan.message(), "skill prerequisite cycle detected");
}

#[test]
fn skill_sp_rank_takes_the_rank_or_looks_it_up() {
    let sd = fixture();
    assert_eq!(skill_sp_rank(&sd, Some(7), Some(3410)), Ok(7));
    assert_eq!(skill_sp_rank(&sd, None, Some(3410)), Ok(3));
    assert_eq!(skill_sp_rank(&sd, None, Some(17476)), Err(SkillSpError::NotASkill(17476)));
    assert_eq!(skill_sp_rank(&sd, None, None), Err(SkillSpError::NothingGiven));
}
