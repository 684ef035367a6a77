use rusty_santa::{AssignError, Group};

/// Test a simple group assignment.
#[test]
fn group_simple() {
    let mut group = Group::new();

    group.add("a".into());
    group.add("b".into());
    group.add("c".into());

    let assignments = group.assign().unwrap();
    assert_eq!(assignments.len(), 3);

    for (from, to) in assignments {
        match from.as_ref() {
            "a" => assert!(to == "b" || to == "c"),
            "b" => assert!(to == "a" || to == "c"),
            "c" => assert!(to == "a" || to == "b"),
            _ => panic!(),
        }
    }
}

/// Test a group constellation that may fail.
#[test]
fn group_may_fail() {
    let mut group = Group::new();

    group.add("Sheldon".into());
    group.add("Amy".into());
    group.add("Leonard".into());
    group.add("Penny".into());
    group.add("Rajesh".into());

    group.exclude_pair("Sheldon".into(), "Amy".into());
    group.exclude_pair("Sheldon".into(), "Leonard".into());
    group.exclude_pair("Leonard".into(), "Penny".into());

    for _i in 0..1000 {
        let _ = group.assign();
    }
}

/// A rule referencing an unregistered name fails with `BadConstraint`
/// carrying that name, on every invocation, whatever the randomness does.
#[test]
fn unknown_name_always_bad_constraint() {
    let mut group = Group::new();
    group.add("a".into());
    group.add("b".into());
    group.add("c".into());
    group.exclude("a".into(), "z".into());

    for _i in 0..50 {
        match group.assign() {
            Err(AssignError::BadConstraint(name)) => assert_eq!(name, "z"),
            other => panic!("expected BadConstraint, got {:?}", other),
        }
    }
}

/// The offending name reported is the first unknown one in store order.
#[test]
fn bad_constraint_reports_first_unknown_name() {
    let mut group = Group::new();
    group.add("a".into());
    group.exclude_pair("nobody".into(), "a".into());
    group.exclude("a".into(), "stranger".into());
    match group.assign() {
        Err(AssignError::BadConstraint(name)) => assert_eq!(name, "nobody"),
        other => panic!("expected BadConstraint, got {:?}", other),
    }
}

/// With a single participant the diagonal exclusion leaves an empty basket
/// in every attempt, so the run always gives up and never panics.
#[test]
fn single_participant_gives_up() {
    let mut group = Group::new();
    group.add("solo".into());
    match group.assign() {
        Err(AssignError::GivingUp) => {},
        other => panic!("expected GivingUp, got {:?}", other),
    }
}

/// An empty group succeeds trivially with an empty assignment.
#[test]
fn empty_group_succeeds_empty() {
    let group = Group::new();
    let assignments = group.assign().unwrap();
    assert!(assignments.is_empty());
}

/// With no participants, any rule references unknown names.
#[test]
fn empty_group_with_rule_is_bad_constraint() {
    let mut group = Group::new();
    group.exclude_pair("x".into(), "y".into());
    match group.assign() {
        Err(AssignError::BadConstraint(name)) => assert_eq!(name, "x"),
        other => panic!("expected BadConstraint, got {:?}", other),
    }
}

/// Adding the same name twice leaves the same group as adding it once.
#[test]
fn add_is_idempotent() {
    let mut group = Group::new();
    group.add("a".into());
    group.add("a".into());
    group.add("b".into());
    assert!(group.contains_name("a"));
    assert!(group.contains_name("b"));

    // Two participants have exactly one derangement: they swap.
    let assignments = group.assign().unwrap();
    assert_eq!(assignments.len(), 2);
    for (from, to) in assignments {
        match from.as_ref() {
            "a" => assert_eq!(to, "b"),
            "b" => assert_eq!(to, "a"),
            _ => panic!(),
        }
    }
}

#[test]
fn contains_name_reports_membership() {
    let mut group = Group::new();
    assert!(!group.contains_name("a"));
    group.add("a".into());
    assert!(group.contains_name("a"));
    assert!(!group.contains_name("A"));
    assert!(!group.contains_name("aa"));
}

/// Every successful assignment is a derangement: each name gives exactly
/// once, receives exactly once, and never to itself.
#[test]
fn success_is_a_derangement() {
    let people = ["a", "b", "c", "d", "e"];
    let mut group = Group::new();
    for p in people {
        group.add(p.into());
    }
    for _i in 0..100 {
        let assignments = group.assign().unwrap();
        assert_eq!(assignments.len(), people.len());
        for p in people {
            assert_eq!(assignments.iter().filter(|(g, _)| g.as_str() == p).count(), 1);
            assert_eq!(assignments.iter().filter(|(_, r)| r.as_str() == p).count(), 1);
        }
        for (from, to) in assignments {
            assert_ne!(from, to);
        }
    }
}

/// A directed exclusion keeps (from, to) out of every successful result,
/// while the other direction stays possible.
#[test]
fn directed_exclusion_respected() {
    let mut group = Group::new();
    group.add("a".into());
    group.add("b".into());
    group.add("c".into());
    group.exclude("a".into(), "b".into());

    for _i in 0..100 {
        let assignments = group.assign().unwrap();
        assert!(!assignments.iter().any(|(g, r)| g.as_str() == "a" && r.as_str() == "b"));
    }
}

/// With two people, excluding one direction blocks the only derangement.
#[test]
fn directed_exclusion_can_make_it_unsatisfiable() {
    let mut group = Group::new();
    group.add("a".into());
    group.add("b".into());
    group.exclude("a".into(), "b".into());
    group.set_max_attempts(50);
    match group.assign() {
        Err(AssignError::GivingUp) => {},
        other => panic!("expected GivingUp, got {:?}", other),
    }
}

/// A mutual exclusion keeps both directions out of every successful result.
#[test]
fn mutual_exclusion_respected() {
    let mut group = Group::new();
    group.add("a".into());
    group.add("b".into());
    group.add("c".into());
    group.add("d".into());
    group.exclude_pair("a".into(), "b".into());

    for _i in 0..100 {
        let assignments = group.assign().unwrap();
        assert!(!assignments.iter().any(|(g, r)| g.as_str() == "a" && r.as_str() == "b"));
        assert!(!assignments.iter().any(|(g, r)| g.as_str() == "b" && r.as_str() == "a"));
    }
}

/// Five people with three mutual exclusions that still leave a valid
/// derangement: repeated runs never report anything but `GivingUp`, and
/// succeed far more often than not.
#[test]
fn dense_rules_mostly_succeed() {
    let mut group = Group::new();
    group.add("Sheldon".into());
    group.add("Amy".into());
    group.add("Leonard".into());
    group.add("Penny".into());
    group.add("Rajesh".into());

    group.exclude_pair("Sheldon".into(), "Amy".into());
    group.exclude_pair("Sheldon".into(), "Leonard".into());
    group.exclude_pair("Leonard".into(), "Penny".into());

    let mut successes: u32 = 0;
    for _i in 0..1000 {
        match group.assign() {
            Ok(assignments) => {
                assert_eq!(assignments.len(), 5);
                for banned in [("Sheldon", "Amy"), ("Sheldon", "Leonard"), ("Leonard", "Penny")] {
                    assert!(!assignments.iter().any(|(g, r)| g.as_str() == banned.0 && r.as_str() == banned.1));
                    assert!(!assignments.iter().any(|(g, r)| g.as_str() == banned.1 && r.as_str() == banned.0));
                }
                successes += 1;
            },
            Err(AssignError::GivingUp) => {},
            Err(e) => panic!("unexpected error {:?}", e),
        }
    }
    assert!(successes > 500);
}
