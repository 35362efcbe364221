use roulette::errors::Error;
use roulette::participant::Participant;
use roulette::roulette::Roulette;

fn registry() -> Vec<Participant> {
    vec![
        Participant::new("Ada", "ada@example.org", "likes tea"),
        Participant::new("Bruno", "bruno@example.org", "collects stamps"),
        Participant::new("Chiara", "chiara@example.org", "plays chess"),
    ]
}

#[test]
fn new_rejects_txt_extension() {
    let r = Roulette::new(registry(), "dir/db.txt");
    assert!(matches!(r, Err(Error::BadExtension)));
}

#[test]
fn new_rejects_missing_extension() {
    assert!(matches!(Roulette::new(registry(), "db"), Err(Error::BadExtension)));
    assert!(matches!(Roulette::new(registry(), ".json"), Err(Error::BadExtension)));
    assert!(matches!(Roulette::new(registry(), "dir/.json"), Err(Error::BadExtension)));
    assert!(matches!(Roulette::new(registry(), "db.JSON"), Err(Error::BadExtension)));
}

#[test]
fn new_accepts_json_extension() {
    assert!(Roulette::new(registry(), "dir/db.json").is_ok());
    assert!(Roulette::new(registry(), "a..json").is_ok());
    assert!(Roulette::new(vec![], "empty.json").is_ok());
}

#[test]
fn derive_before_shuffle_is_a_state_error() {
    let mut r = Roulette::new(registry(), "db.json").unwrap();
    let e = r.participants_to_couples();
    assert!(matches!(e, Err(Error::NotShuffled)));
    // nothing was derived: a later full run still produces exactly 3 rows
    let doc = r.run().unwrap();
    let parsed = roulette::json::parse_document(&doc).unwrap();
    assert_eq!(parsed.couples.len(), 3);
}

#[test]
fn zero_participants_is_a_data_error() {
    let mut r = Roulette::new(vec![], "db.json").unwrap();
    assert!(matches!(r.run(), Err(Error::TooFewParticipants)));
    assert!(!r.is_saved());
}

#[test]
fn one_participant_is_a_data_error() {
    let solo = vec![Participant::new("Ada", "ada@example.org", "")];
    let mut r = Roulette::new(solo, "db.json").unwrap();
    assert!(matches!(r.run(), Err(Error::TooFewParticipants)));
    assert!(!r.is_saved());
}

#[test]
fn shuffle_twice_changes_nothing_more() {
    let mut r = Roulette::new(registry(), "db.json").unwrap();
    assert!(r.shuffle().is_ok());
    assert!(r.shuffle().is_ok());
    let doc = r.run().unwrap();
    let parsed = roulette::json::parse_document(&doc).unwrap();
    assert_eq!(parsed.couples.len(), 3);
}

#[test]
fn run_is_idempotent() {
    let mut r = Roulette::new(registry(), "db.json").unwrap();
    let doc1 = r.run().unwrap();
    assert!(r.is_saved());
    let doc2 = r.run().unwrap();
    assert_eq!(doc1, doc2);
}

#[test]
fn lookup_finds_participants_by_name() {
    let r = Roulette::new(registry(), "db.json").unwrap();
    let p = r.get_participant("Bruno").unwrap();
    assert_eq!(p.email, "bruno@example.org");
    assert_eq!(p.info, "collects stamps");
    assert!(r.get_participant("Nobody").is_none());
}

#[test]
fn error_descriptions_name_each_failure() {
    assert_eq!(Error::BadExtension.describe(), "bad extension, only .json files");
    assert_eq!(Error::NotShuffled.describe(), "participants not shuffled");
    assert_eq!(Error::TooFewParticipants.describe(), "not enough participants");
    assert_eq!(Error::RecipientNotFound.describe(), "participant is not in list");
    assert_eq!(Error::HashFailure.describe(), "error creating hash");
}
