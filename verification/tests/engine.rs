use secret_satan::Participant;
use secret_satan::SecretSatan;
use secret_satan::SecretSatanError;

#[test]
fn three_participants_can_give_correctly() {
    let alice = Participant::new("Alice".to_string());
    let bob = Participant::new("Bob".to_string());
    let charlie = Participant::new("Charlie".to_string());

    let session = SecretSatan {
        participants: vec![alice.clone(), bob.clone(), charlie.clone()],
    };
    let result = session.assign_participants();
    if let Err(e) = result {
        panic!("Error: {:?}", e);
    }
    let givers = result.ok().unwrap();
    assert_eq!(givers.len(), 3);
    assert_ne!(givers[0].giving_to, None);
    assert_ne!(givers[0].giving_to, Some(givers[0].clone().name));
    assert_ne!(givers[1].giving_to, None);
    assert_ne!(givers[1].giving_to, Some(givers[1].clone().name));
    assert_ne!(givers[2].giving_to, None);
    assert_ne!(givers[2].giving_to, Some(givers[2].clone().name));
}

#[test]
fn five_participants_can_give_correctly() {
    let alice = Participant::new("Alice".to_string());
    let bob = Participant::new("Bob".to_string());
    let charlie = Participant::new("Charlie".to_string());
    let david = Participant::new("David".to_string());
    let eve = Participant::new("Eve".to_string());

    let session = SecretSatan {
        participants: vec![alice.clone(), bob.clone(), charlie.clone(), david.clone(), eve.clone()],
    };
    let result = session.assign_participants();
    if let Err(e) = result {
        panic!("Error: {:?}", e);
    }
    let givers = result.ok().unwrap();
    assert_eq!(givers.len(), 5);
    assert_ne!(givers[0].giving_to, None);
    assert_ne!(givers[0].giving_to, Some(givers[0].clone().name));
    assert_ne!(givers[1].giving_to, None);
    assert_ne!(givers[1].giving_to, Some(givers[1].clone().name));
    assert_ne!(givers[2].giving_to, None);
    assert_ne!(givers[2].giving_to, Some(givers[2].clone().name));
    assert_ne!(givers[3].giving_to, None);
    assert_ne!(givers[3].giving_to, Some(givers[3].clone().name));
    assert_ne!(givers[4].giving_to, None);
    assert_ne!(givers[4].giving_to, Some(givers[4].clone().name));
}

#[test]
fn exclusions_are_accounted_for() {
    let mut alice = Participant::new("Alice".to_string());
    alice.excluding.push("Bob".to_string());
    let bob = Participant::new("Bob".to_string());
    let charlie = Participant::new("Charlie".to_string());

    let session = SecretSatan {
        participants: vec![alice.clone(), bob.clone(), charlie.clone()],
    };

    let result = session.assign_participants();
    if let Err(e) = result {
        panic!("Error: {:?}", e);
    }
    let givers = result.ok().unwrap();
    assert_eq!(givers.len(), 3);
    assert_ne!(givers[0].giving_to, None);
    assert_ne!(givers[0].giving_to, Some(givers[0].clone().name));
    assert_ne!(givers[0].giving_to, Some(givers[0].excluding.first().unwrap().clone()));
    assert_ne!(givers[1].giving_to, None);
    assert_ne!(givers[1].giving_to, Some(givers[1].clone().name));
    assert_ne!(givers[2].giving_to, None);
    assert_ne!(givers[2].giving_to, Some(givers[2].clone().name));
}

fn roster_of(names: &[&str]) -> SecretSatan {
    let mut session = SecretSatan::new();
    for name in names {
        session.add_participant(Participant::new(name.to_string()));
    }
    session
}

fn find<'a>(givers: &'a [Participant], name: &str) -> &'a Participant {
    givers.iter().find(|p| p.name == name).expect("participant missing from output")
}

/// The `giving_to` relation of a successful run is a bijection with no
/// fixed points, `receiving_from` is its inverse, everyone is drawn, and
/// each exclusion list has grown by exactly the giver's name.
fn check_valid(givers: &[Participant], names: &[&str]) {
    assert_eq!(givers.len(), names.len());
    for name in names {
        let p = find(givers, name);
        let target = p.giving_to.clone().expect("giving_to not set");
        assert_ne!(&target, name, "self gift");
        assert!(names.contains(&target.as_str()), "recipient is not on the roster");
        let recipient = find(givers, &target);
        assert_eq!(recipient.receiving_from.as_deref(), Some(*name), "receiving_from not inverse");
        assert_ne!(recipient.giving_to.as_deref(), Some(*name), "reciprocal pair");
        assert!(p.drawn, "participant not drawn");
        assert_eq!(recipient.excluding.last().map(|s| s.as_str()), Some(*name));
    }
    for (k, a) in names.iter().enumerate() {
        for b in names[k + 1..].iter() {
            assert_ne!(
                find(givers, a).giving_to,
                find(givers, b).giving_to,
                "two givers share a recipient"
            );
        }
    }
}

#[test]
fn assignment_is_a_bijection() {
    let names = ["Alice", "Bob", "Charlie", "David"];
    let givers = roster_of(&names).assign_participants().expect("assignment failed");
    check_valid(&givers, &names);
}

#[test]
fn three_participants_form_a_cycle() {
    let names = ["Alice", "Bob", "Charlie"];
    let givers = roster_of(&names).assign_participants().expect("assignment failed");
    check_valid(&givers, &names);
    // with three participants the only derangement without a reciprocal
    // pair is a single three-cycle
    let first = find(&givers, "Alice").giving_to.clone().unwrap();
    let second = find(&givers, &first).giving_to.clone().unwrap();
    let third = find(&givers, &second).giving_to.clone().unwrap();
    assert_ne!(first, second);
    assert_ne!(second, third);
    assert_eq!(third, "Alice");
}

#[test]
fn five_participants_form_a_derangement() {
    let names = ["Alice", "Bob", "Charlie", "David", "Eve"];
    let givers = roster_of(&names).assign_participants().expect("assignment failed");
    check_valid(&givers, &names);
    for name in &names {
        assert_ne!(find(&givers, name).giving_to.as_deref(), Some(*name));
    }
}

#[test]
fn excluded_participant_is_never_chosen() {
    let mut alice = Participant::new("Alice".to_string());
    alice.excluding.push("Bob".to_string());
    let session = SecretSatan {
        participants: vec![
            alice,
            Participant::new("Bob".to_string()),
            Participant::new("Charlie".to_string()),
        ],
    };
    let givers = session.assign_participants().expect("assignment failed");
    assert_ne!(find(&givers, "Alice").giving_to.as_deref(), Some("Bob"));
}

#[test]
fn empty_roster_assigns_trivially() {
    let session = SecretSatan::new();
    let givers = session.assign_participants().expect("assignment failed");
    assert_eq!(givers.len(), 0);
}

#[test]
fn single_participant_reports_exhaustion() {
    let session = roster_of(&["Alice"]);
    let result = session.assign_participants();
    assert_eq!(result, Err(SecretSatanError::AssignmentExhausted));
}

#[test]
fn two_participants_report_exhaustion() {
    let session = roster_of(&["Alice", "Bob"]);
    let result = session.assign_participants();
    assert_eq!(result, Err(SecretSatanError::AssignmentExhausted));
}

#[test]
fn mutually_excluding_pair_reports_exhaustion() {
    let mut alice = Participant::new("Alice".to_string());
    alice.excluding.push("Bob".to_string());
    let mut bob = Participant::new("Bob".to_string());
    bob.excluding.push("Alice".to_string());
    let session = SecretSatan { participants: vec![alice, bob] };
    let result = session.assign_participants();
    assert_eq!(result, Err(SecretSatanError::AssignmentExhausted));
}
