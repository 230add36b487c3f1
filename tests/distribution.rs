use swim_groups::assign::{check_feasibility, plan_groups, Group};
use swim_groups::distribution::{create_distribution, Slot};
use swim_groups::failure::Failure;
use swim_groups::instruction::{get_instruction, Instruction};
use swim_groups::order::{classify, rank};
use swim_groups::participant::Participant;

fn p(name: &str, age: u32, skill: u32, duration: u32) -> Participant {
    Participant::new(name.to_string(), age, skill, duration)
}

fn names(slots: &[Slot]) -> Vec<(String, Option<String>, Option<String>)> {
    slots
        .iter()
        .map(|s| {
            (
                s.escort.name.clone(),
                s.first.as_ref().map(|x| x.ward.name.clone()),
                s.second.as_ref().map(|x| x.ward.name.clone()),
            )
        })
        .collect()
}

fn triple(e: &str, a: Option<&str>, b: Option<&str>) -> (String, Option<String>, Option<String>) {
    (e.to_string(), a.map(|x| x.to_string()), b.map(|x| x.to_string()))
}

#[test]
fn instruction_table() {
    assert_eq!(get_instruction(&p("a", 1, 8, 59)), Ok(Instruction::Unsupervised));
    assert_eq!(get_instruction(&p("a", 1, 9, 60)), Ok(Instruction::FullDepthRoundTrip));
    assert_eq!(get_instruction(&p("a", 1, 7, 54)), Ok(Instruction::SingleDepthDescent));
    assert_eq!(get_instruction(&p("a", 1, 7, 55)), Ok(Instruction::FullDepthRoundTrip));
    assert_eq!(get_instruction(&p("a", 1, 6, 54)), Ok(Instruction::DepthAndReturn));
    assert_eq!(get_instruction(&p("a", 1, 6, 55)), Ok(Instruction::ThreePracticeDivesAndReturn));
    assert_eq!(get_instruction(&p("a", 1, 5, 54)), Ok(Instruction::ThreePracticeDivesAndReturn));
    assert_eq!(get_instruction(&p("a", 1, 5, 55)), Ok(Instruction::TwoPracticeDivesAndReturn));
    assert_eq!(get_instruction(&p("a", 1, 4, 10)), Err(Failure::InvalidSkillLevel(4)));
}

#[test]
fn instruction_texts() {
    assert_eq!(Instruction::ThreePracticeDivesAndReturn.text(), "3 practice dives + depth-and-return");
    assert_eq!(Instruction::Unsupervised.text(), "unsupervised pass");
    assert_eq!(Instruction::TwoPracticeDivesAndReturn.text(), "2 practice dives + depth-and-return");
}

#[test]
fn classification_by_skill_and_time() {
    let ps = vec![p("a", 10, 8, 59), p("b", 10, 8, 60), p("c", 10, 7, 10), p("d", 10, 9, 0)];
    let (es, ws) = classify(&ps);
    assert_eq!(es, vec![0, 3]);
    assert_eq!(ws, vec![1, 2]);
}

#[test]
fn ranking_is_descending_and_stable() {
    let ps = vec![p("a", 10, 5, 5), p("b", 20, 5, 5), p("c", 20, 6, 5), p("d", 20, 6, 9), p("e", 10, 5, 5)];
    let order = rank(&ps, &vec![0, 1, 2, 3, 4]);
    assert_eq!(order, vec![3, 2, 1, 0, 4]);
}

#[test]
fn feasibility_checks() {
    assert_eq!(check_feasibility(1, 3), Err(Failure::InsufficientEscorts));
    assert_eq!(check_feasibility(1, 1), Err(Failure::GroupTooSmall));
    assert_eq!(check_feasibility(0, 0), Err(Failure::GroupTooSmall));
    assert_eq!(check_feasibility(0, 1), Err(Failure::InsufficientEscorts));
    assert_eq!(check_feasibility(1, 2), Ok(()));
    assert_eq!(check_feasibility(3, 0), Ok(()));
}

#[test]
fn two_swimmers_are_too_few() {
    let ps = vec![p("A", 120, 9, 40), p("B", 30, 5, 50)];
    assert_eq!(create_distribution(&ps).err(), Some(Failure::GroupTooSmall));
    assert_eq!(get_instruction(&ps[1]), Ok(Instruction::ThreePracticeDivesAndReturn));
}

#[test]
fn escort_with_younger_ward() {
    let ps = vec![p("A", 120, 9, 40), p("B", 30, 5, 50), p("C", 20, 5, 50)];
    let slots = create_distribution(&ps).unwrap();
    assert_eq!(names(&slots), vec![triple("A", Some("B"), Some("C"))]);
    assert_eq!(slots[0].first.as_ref().unwrap().instruction, Instruction::ThreePracticeDivesAndReturn);
    assert_eq!(slots[0].first.as_ref().unwrap().instruction.text(), "3 practice dives + depth-and-return");
}

#[test]
fn too_many_wards() {
    let ps = vec![p("E", 100, 9, 30), p("a", 10, 5, 50), p("b", 11, 5, 50), p("c", 12, 5, 50)];
    assert_eq!(create_distribution(&ps).err(), Some(Failure::InsufficientEscorts));
}

#[test]
fn one_escort_one_ward() {
    let ps = vec![p("E", 100, 9, 30), p("a", 10, 5, 50)];
    assert_eq!(create_distribution(&ps).err(), Some(Failure::GroupTooSmall));
}

#[test]
fn empty_class() {
    let ps: Vec<Participant> = Vec::new();
    assert_eq!(create_distribution(&ps).err(), Some(Failure::GroupTooSmall));
}

#[test]
fn older_escort_found_first() {
    let ps = vec![p("X", 100, 9, 30), p("Y", 90, 9, 30), p("W", 95, 5, 50)];
    let slots = create_distribution(&ps).unwrap();
    assert_eq!(names(&slots), vec![triple("X", Some("W"), Some("Y"))]);
}

#[test]
fn no_escort_older_than_ward() {
    let ps = vec![p("X", 100, 9, 30), p("Y", 90, 9, 30), p("W", 120, 5, 50)];
    assert_eq!(create_distribution(&ps).err(), Some(Failure::NoOlderEscortAvailable(120)));
}

#[test]
fn unknown_skill_reported() {
    assert_eq!(get_instruction(&p("Z", 50, 10, 70)), Err(Failure::InvalidSkillLevel(10)));
    let ps = vec![p("X", 100, 9, 30), p("Y", 90, 8, 20), p("Z", 50, 10, 70)];
    assert_eq!(create_distribution(&ps).err(), Some(Failure::InvalidSkillLevel(10)));
}

#[test]
fn retry_steps_back_on_same_ward() {
    let ps = vec![
        p("A", 100, 9, 30),
        p("B", 90, 9, 30),
        p("C", 60, 9, 30),
        p("w1", 85, 5, 50),
        p("w2", 84, 5, 50),
        p("w3", 83, 5, 50),
        p("w4", 50, 5, 50),
    ];
    let groups = plan_groups(&ps).unwrap();
    assert_eq!(
        groups,
        vec![
            Group { escort: 0, first: Some(3), second: None },
            Group { escort: 1, first: Some(4), second: Some(5) },
            Group { escort: 2, first: Some(6), second: None },
        ]
    );
    let slots = create_distribution(&ps).unwrap();
    assert_eq!(
        names(&slots),
        vec![triple("A", Some("w1"), None), triple("B", Some("w2"), Some("w3")), triple("C", Some("w4"), None)]
    );
}

#[test]
fn leftover_escort_without_slot() {
    let ps = vec![
        p("A", 100, 9, 30),
        p("B", 90, 9, 30),
        p("C", 80, 9, 30),
        p("w1", 85, 5, 50),
        p("w2", 84, 5, 50),
        p("w3", 83, 5, 50),
        p("w4", 82, 5, 50),
    ];
    assert_eq!(create_distribution(&ps).err(), Some(Failure::NoSlotForLeftoverEscort("C".to_string())));
}

#[test]
fn free_escorts_become_wards() {
    let ps = vec![
        p("E1", 100, 9, 30),
        p("E2", 90, 9, 30),
        p("E3", 80, 9, 30),
        p("E4", 70, 9, 30),
        p("w", 10, 5, 50),
    ];
    let groups = plan_groups(&ps).unwrap();
    assert_eq!(
        groups,
        vec![
            Group { escort: 0, first: Some(4), second: None },
            Group { escort: 1, first: Some(2), second: Some(3) },
        ]
    );
    let slots = create_distribution(&ps).unwrap();
    assert_eq!(names(&slots), vec![triple("E1", Some("w"), None), triple("E2", Some("E3"), Some("E4"))]);
    assert_eq!(slots[1].first.as_ref().unwrap().instruction, Instruction::Unsupervised);
}

#[test]
fn reclassified_escort_needs_older_escort() {
    let ps = vec![
        p("E1", 100, 9, 30),
        p("E2", 80, 9, 30),
        p("E3", 80, 9, 20),
        p("E4", 70, 9, 30),
        p("w", 10, 5, 50),
    ];
    assert_eq!(create_distribution(&ps).err(), Some(Failure::NoOlderEscortAvailable(80)));
}

#[test]
fn leftover_escort_of_same_age() {
    let ps = vec![p("A", 50, 9, 40), p("B", 50, 9, 30), p("C", 10, 5, 50)];
    let slots = create_distribution(&ps).unwrap();
    assert_eq!(names(&slots), vec![triple("A", Some("C"), Some("B"))]);
    assert_eq!(slots[0].escort.age, slots[0].second.as_ref().unwrap().ward.age);
}

#[test]
fn every_participant_placed_once() {
    let ps = vec![
        p("E1", 100, 9, 30),
        p("E2", 90, 9, 30),
        p("E3", 80, 9, 30),
        p("E4", 70, 9, 30),
        p("w", 10, 5, 50),
        p("v", 12, 6, 70),
    ];
    let groups = plan_groups(&ps).unwrap();
    let mut seen = vec![0u32; ps.len()];
    for g in &groups {
        seen[g.escort] += 1;
        if let Some(x) = g.first {
            seen[x] += 1;
        }
        if let Some(x) = g.second {
            seen[x] += 1;
        }
    }
    assert_eq!(seen, vec![1; ps.len()]);
    for g in &groups {
        for x in [g.first, g.second].iter().flatten() {
            assert!(ps[g.escort].age > ps[*x].age);
        }
    }
}

#[test]
fn same_class_in_another_order() {
    let ps = vec![p("E1", 100, 9, 30), p("w", 10, 5, 50), p("E2", 90, 9, 30), p("v", 12, 6, 70), p("E3", 80, 8, 30)];
    let qs = vec![p("v", 12, 6, 70), p("E3", 80, 8, 30), p("E2", 90, 9, 30), p("w", 10, 5, 50), p("E1", 100, 9, 30)];
    let a = names(&create_distribution(&ps).unwrap());
    let b = names(&create_distribution(&qs).unwrap());
    assert_eq!(a, b);
    assert_eq!(a, names(&create_distribution(&ps).unwrap()));
}

#[test]
fn participant_predicates() {
    let a = p("a", 20, 8, 59);
    assert!(a.is_escort());
    assert!(!p("b", 20, 7, 10).is_escort());
    assert!(!p("c", 20, 9, 60).is_escort());
    assert!(a.outranks(&p("d", 19, 9, 90)));
    assert!(a.outranks(&p("e", 20, 7, 90)));
    assert!(a.outranks(&p("f", 20, 8, 58)));
    assert!(!a.outranks(&p("g", 20, 8, 59)));
    assert!(!a.outranks(&p("h", 21, 5, 0)));
    let copy = a.duplicate();
    assert_eq!((copy.name.as_str(), copy.age, copy.skill, copy.duration), ("a", 20, 8, 59));
}

#[test]
fn escorts_only_class() {
    let ps = vec![p("E1", 100, 9, 30), p("E2", 90, 9, 30), p("E3", 80, 9, 30)];
    let groups = plan_groups(&ps).unwrap();
    assert_eq!(groups, vec![Group { escort: 0, first: Some(1), second: Some(2) }]);
}
