use myu::env::Env;
use myu::lts::Lts;
use myu::modal::all_successors;
use myu::modal::some_successor;
use myu::sets::disjoint;
use myu::sets::elements;
use myu::sets::equal;
use myu::sets::intersection;
use myu::sets::subset;
use myu::sets::union;
use std::collections::BTreeSet;

fn set(states: &[u32]) -> BTreeSet<u32> {
    states.iter().cloned().collect()
}

#[test]
fn sets_are_joined_and_cut() {
    let a = set(&[1, 2, 3, 9]);
    let b = set(&[0, 2, 9, 10]);
    assert_eq!(union(&a, &b), set(&[0, 1, 2, 3, 9, 10]));
    assert_eq!(intersection(&a, &b), set(&[2, 9]));
    assert_eq!(union(&a, &set(&[])), a);
    assert_eq!(intersection(&a, &set(&[])), set(&[]));
    assert_eq!(elements(&a), vec![1, 2, 3, 9]);
    assert_eq!(elements(&set(&[])), Vec::<u32>::new());
}

#[test]
fn sets_are_compared() {
    assert!(equal(&set(&[]), &set(&[])));
    assert!(equal(&set(&[3, 1]), &set(&[1, 3])));
    assert!(!equal(&set(&[1]), &set(&[1, 3])));
    assert!(!equal(&set(&[1, 2]), &set(&[1, 3])));
    assert!(!equal(&set(&[1, 3]), &set(&[])));
}

#[test]
fn environments_bind_variables() {
    let mut env = Env::new();
    assert!(!env.contains('X'));
    assert_eq!(env.insert('X', set(&[1])), None);
    assert_eq!(env.insert('Y', set(&[2])), None);
    assert!(env.contains('X') && env.contains('Y') && !env.contains('Z'));
    assert_eq!(env.get('X'), &set(&[1]));
    assert_eq!(env.insert('X', set(&[3, 4])), Some(set(&[1])));
    assert_eq!(env.get('X'), &set(&[3, 4]));
    assert_eq!(env.get('Y'), &set(&[2]));
}

#[test]
fn modalities_on_sets() {
    let mut lts = Lts::default();
    lts.add_edge(0, "a", 1);
    lts.add_edge(0, "a", 2);
    lts.add_edge(1, "a", 1);
    lts.add_edge(2, "b", 0);
    assert_eq!(some_successor(&lts, "a", &set(&[2])), set(&[0]));
    assert_eq!(some_successor(&lts, "a", &set(&[1])), set(&[0, 1]));
    assert_eq!(some_successor(&lts, "a", &set(&[])), set(&[]));
    assert_eq!(some_successor(&lts, "c", &set(&[0, 1, 2])), set(&[]));
    assert_eq!(all_successors(&lts, "a", &set(&[2])), set(&[2]));
    assert_eq!(all_successors(&lts, "a", &set(&[1])), set(&[1, 2]));
    assert_eq!(all_successors(&lts, "a", &set(&[1, 2])), set(&[0, 1, 2]));
    assert_eq!(all_successors(&lts, "c", &set(&[])), set(&[0, 1, 2]));
}

#[test]
fn sets_include_and_exclude() {
    assert!(subset(&set(&[]), &set(&[])));
    assert!(subset(&set(&[]), &set(&[4])));
    assert!(subset(&set(&[1, 3]), &set(&[1, 2, 3])));
    assert!(!subset(&set(&[1, 4]), &set(&[1, 2, 3])));
    assert!(!subset(&set(&[1]), &set(&[])));
    assert!(disjoint(&set(&[]), &set(&[])));
    assert!(disjoint(&set(&[1, 3]), &set(&[2, 4])));
    assert!(!disjoint(&set(&[1, 3]), &set(&[3])));
}
