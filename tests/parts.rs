use entromatica::error::{AlreadyExistsError, NotFoundError, OutOfRangeError};
use entromatica::entity::combine_entity_rules;
use entromatica::grouping::group_by_digest;
use entromatica::rules::compose_outcomes;

fn strings(items: &[&str]) -> Vec<String> {
    items.iter().map(|s| s.to_string()).collect()
}

#[test]
fn grouping_follows_first_occurrence() {
    let g = group_by_digest(&vec![5, 7, 5, 9, 7]);
    assert_eq!(g.keys, vec![5, 7, 9]);
    assert_eq!(g.group_of, vec![0, 1, 0, 2, 1]);
    assert_eq!(g.firsts, vec![0, 1, 3]);
}

#[test]
fn grouping_of_nothing_is_empty() {
    let g = group_by_digest(&Vec::new());
    assert!(g.keys.is_empty());
    assert!(g.group_of.is_empty());
    assert!(g.firsts.is_empty());
}

#[test]
fn equal_successors_are_merged() {
    let out = compose_outcomes(1, &vec![5, 5, 7], &strings(&["a", "b", "c"]), false);
    assert_eq!(out.len(), 2);
    assert_eq!(out[0].target, 5);
    assert_eq!(out[0].rules, vec![0, 1]);
    assert_eq!(out[0].description, "a | b");
    assert!(!out[0].with_nothing);
    assert_eq!(out[1].target, 7);
    assert_eq!(out[1].rules, vec![2]);
    assert_eq!(out[1].description, "c");
}

#[test]
fn nothing_merges_with_self_loop() {
    let out = compose_outcomes(5, &vec![5, 7, 5], &strings(&["a", "b", "c"]), true);
    assert_eq!(out.len(), 2);
    assert_eq!(out[0].target, 5);
    assert_eq!(out[0].rules, vec![0, 2]);
    assert_eq!(out[0].description, "a | c | Nothing");
    assert!(out[0].with_nothing);
    assert!(!out[1].with_nothing);
}

#[test]
fn nothing_alone_forms_its_own_outcome() {
    let out = compose_outcomes(9, &vec![5], &strings(&["a"]), true);
    assert_eq!(out.len(), 2);
    assert_eq!(out[1].target, 9);
    assert!(out[1].rules.is_empty());
    assert_eq!(out[1].description, "Nothing");
    assert!(out[1].with_nothing);
}

#[test]
fn no_applicable_rule_gives_only_nothing() {
    let out = compose_outcomes(3, &Vec::new(), &Vec::new(), true);
    assert_eq!(out.len(), 1);
    assert_eq!(out[0].target, 3);
    assert_eq!(out[0].description, "Nothing");
    let none = compose_outcomes(3, &Vec::new(), &Vec::new(), false);
    assert!(none.is_empty());
}

#[test]
fn error_values_keep_their_parts() {
    let a = AlreadyExistsError::new(1u64, "registry".to_string());
    assert_eq!(*a.object(), 1);
    assert_eq!(a.container(), "registry");
    let n = NotFoundError::new("state".to_string(), 4u8);
    assert_eq!(n.object(), "state");
    assert_eq!(*n.container(), 4);
    let o = OutOfRangeError::new(5i32, 0, 3);
    assert_eq!(*o.object(), 5);
    assert_eq!(*o.lower_bound(), 0);
    assert_eq!(*o.upper_bound(), 3);
    assert_eq!(o.clone(), o);
}

#[test]
fn two_entity_rules_give_four_joint_rules() {
    let names = strings(&["Predators", "Prey"]);
    let descriptions = strings(&["predator rule", "prey rule"]);
    let rules = combine_entity_rules(&names, &descriptions, &vec![true, true]);
    assert_eq!(rules.len(), 4);
    let mut members: Vec<Vec<usize>> = rules.iter().map(|c| c.members.clone()).collect();
    members.sort();
    assert_eq!(members, vec![vec![], vec![0], vec![0, 1], vec![1]]);
    let both = rules.iter().find(|c| c.members == vec![0, 1]).unwrap();
    assert_eq!(both.name, "Predators, Prey");
    assert_eq!(both.description, "predator rule,\n\nprey rule");
    let empty = rules.iter().find(|c| c.members.is_empty()).unwrap();
    assert_eq!(empty.name, "");
}

#[test]
fn entity_rules_without_weight_are_left_out() {
    let names = strings(&["a", "b", "c"]);
    let rules = combine_entity_rules(&names, &names, &vec![true, false, true]);
    assert_eq!(rules.len(), 4);
    assert!(rules.iter().all(|c| !c.members.contains(&1)));
}
