use secret_satan::Participant;
use secret_satan::SecretSatan;
use secret_satan::SecretSatanError;

#[test]
fn secret_satan_new() {
    let secret_satan = SecretSatan::new();
    assert_eq!(secret_satan.participants.len(), 0);
}

#[test]
fn secret_satan_add_participant() {
    let mut secret_satan = SecretSatan::new();
    let participant = Participant::new("Alice".to_string());
    secret_satan.add_participant(participant.clone());
    assert_eq!(secret_satan.participants.len(), 1);
}

#[test]
fn participant_new() {
    let participant = Participant::new("Alice".to_string());
    assert_eq!(participant.name, "Alice");
    assert_eq!(participant.giving_to, None);
    assert_eq!(participant.receiving_from, None);
    assert_eq!(participant.excluding.len(), 0);
    assert!(!participant.drawn);
}

#[test]
fn participant_cannot_give_to_self() {
    let participant = Participant::new("Alice".to_string());
    let recipient = Participant::new("Alice".to_string());
    let result = participant.validate_giving_to(&recipient);
    assert_eq!(result, Err(SecretSatanError::ParticipantCannotGiveToThemself));
}

#[test]
fn participant_cannot_give_twice() {
    let mut participant = Participant::new("Alice".to_string());
    let recipient = Participant::new("Bob".to_string());
    participant.giving_to = Some(recipient.clone().name);
    let result = participant.validate_giving_to(&recipient);
    assert_eq!(result, Err(SecretSatanError::ParticipantAlreadyGivingToSomeone));
}

#[test]
fn participant_cannot_give_to_someone_already_receiving() {
    let participant = Participant::new("Alice".to_string());
    let mut recipient = Participant::new("Bob".to_string());
    recipient.receiving_from = Some("Alice".to_string());
    let result = participant.validate_giving_to(&recipient);
    assert_eq!(result, Err(SecretSatanError::ParticipantAlreadyReceivingFromSomeone));
}

#[test]
fn participant_cannot_give_to_someone_giving_to_them() {
    let mut participant = Participant::new("Alice".to_string());
    let recipient = Participant::new("Bob".to_string());
    participant.receiving_from = Some("Bob".to_string());
    let result = participant.validate_giving_to(&recipient);
    assert_eq!(result, Err(SecretSatanError::ParticipantCannotGiveToSomeoneTheyAreReceivingFrom));
}

#[test]
fn participant_cannot_give_to_someone_they_have_excluded() {
    let mut participant = Participant::new("Alice".to_string());
    let recipient = Participant::new("Bob".to_string());
    participant.excluding.push("Bob".to_string());
    let result = participant.validate_giving_to(&recipient);
    assert_eq!(result, Err(SecretSatanError::ParticipantCannotGiveToSomeoneTheyAreExcluding));
}

#[test]
fn participant_cannot_give_to_someone_already_drawn() {
    let participant = Participant::new("Alice".to_string());
    let mut recipient = Participant::new("Bob".to_string());
    recipient.drawn = true;
    let result = participant.validate_giving_to(&recipient);
    assert_eq!(result, Err(SecretSatanError::ParticipantAlreadyDrawn));
}

#[test]
fn validate_is_idempotent() {
    let mut giver = Participant::new("Alice".to_string());
    giver.excluding.push("Bob".to_string());
    let mut recipient = Participant::new("Bob".to_string());
    recipient.drawn = true;
    let first = giver.validate_giving_to(&recipient);
    let second = giver.validate_giving_to(&recipient);
    assert_eq!(first, second);
    let ok_recipient = Participant::new("Charlie".to_string());
    let first_ok = giver.validate_giving_to(&ok_recipient);
    let second_ok = giver.validate_giving_to(&ok_recipient);
    assert_eq!(first_ok, Ok(()));
    assert_eq!(first_ok, second_ok);
}
