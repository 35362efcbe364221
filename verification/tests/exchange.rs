use roulette::conceal::{conceal_name, verify_token};
use roulette::json::parse_document;
use roulette::participant::Participant;
use roulette::roulette::Roulette;

fn registry() -> Vec<Participant> {
    vec![
        Participant::new("Ada", "ada@example.org", "likes tea"),
        Participant::new("Bruno", "bruno@example.org", "collects stamps"),
        Participant::new("Chiara", "chiara@example.org", "plays chess"),
    ]
}

const NAMES: [&str; 3] = ["Ada", "Bruno", "Chiara"];

/// The name the token conceals, found by checking each candidate.
fn recipient_of(token: &str) -> String {
    let mut found: Vec<String> = Vec::new();
    for name in NAMES {
        if verify_token(name, token) {
            found.push(name.to_string());
        }
    }
    assert_eq!(found.len(), 1, "exactly one name must verify against a token");
    found.remove(0)
}

#[test]
fn concealment_is_one_way_but_verifiable() {
    let token = conceal_name("Ada").unwrap();
    assert_ne!(token, "Ada");
    assert_eq!(token.len(), 60);
    assert!(token.starts_with("$2b$12$"), "the fixed work factor rides in the token");
    assert!(verify_token("Ada", &token));
    assert!(!verify_token("Bruno", &token));
    assert!(!verify_token("Chiara", &token));
    assert!(!verify_token("Ada", "not a bcrypt token"));
}

#[test]
fn three_participants_form_a_cycle() {
    let mut r = Roulette::new(registry(), "db.json").unwrap();
    let doc = r.run().unwrap();
    let parsed = parse_document(&doc).unwrap();
    assert_eq!(parsed.couples.len(), 3);

    // column 0 holds each participant once, column 1 a hashed token
    let mut givers: Vec<String> = parsed.couples.iter().map(|row| row[0].clone()).collect();
    givers.sort();
    assert_eq!(givers, vec!["Ada", "Bruno", "Chiara"]);
    for row in &parsed.couples {
        assert_eq!(row.len(), 2);
        assert_eq!(row[1].len(), 60);
        assert!(row[1].starts_with('$'));
        assert!(!NAMES.contains(&row[1].as_str()));
    }

    // nobody keeps their own gift, and following the pairs visits everyone
    let mut next = std::collections::HashMap::new();
    for row in &parsed.couples {
        let recipient = recipient_of(&row[1]);
        assert_ne!(row[0], recipient);
        next.insert(row[0].clone(), recipient);
    }
    let mut seen = vec!["Ada".to_string()];
    let mut cur = "Ada".to_string();
    for _ in 0..2 {
        cur = next.get(&cur).unwrap().clone();
        assert!(!seen.contains(&cur));
        seen.push(cur.clone());
    }
    assert_eq!(next.get(&cur).unwrap(), "Ada");
}

#[test]
fn two_participants_swap_gifts() {
    let pool = vec![
        Participant::new("Ada", "ada@example.org", ""),
        Participant::new("Bruno", "bruno@example.org", ""),
    ];
    let mut r = Roulette::new(pool, "db.json").unwrap();
    let doc = r.run().unwrap();
    let parsed = parse_document(&doc).unwrap();
    assert_eq!(parsed.couples.len(), 2);
    for row in &parsed.couples {
        let other = if row[0] == "Ada" { "Bruno" } else { "Ada" };
        assert!(verify_token(other, &row[1]));
        assert!(!verify_token(&row[0], &row[1]));
    }
}

#[test]
fn messages_go_to_givers_about_their_recipients() {
    let mut r = Roulette::new(registry(), "db.json").unwrap();
    let doc = r.run().unwrap();
    let parsed = parse_document(&doc).unwrap();
    let messages = r.prepare_messages().unwrap();
    assert_eq!(messages.len(), 3);

    // reconstruct giver -> recipient from the persisted tokens
    let mut next = std::collections::HashMap::new();
    for row in &parsed.couples {
        next.insert(row[0].clone(), recipient_of(&row[1]));
    }

    let mut addressed: Vec<String> = Vec::new();
    for m in &messages {
        assert_eq!(m.subject, "Gift Exchange");
        let giver = registry()
            .into_iter()
            .find(|p| p.email == m.to)
            .expect("each message goes to a registered giver");
        let recipient_name = next.get(&giver.name).unwrap().clone();
        let recipient = registry().into_iter().find(|p| p.name == recipient_name).unwrap();
        assert_eq!(
            m.body,
            format!("Your gift is for: {}\nContext:{}", recipient.name, recipient.info)
        );
        addressed.push(giver.name);
    }
    addressed.sort();
    assert_eq!(addressed, vec!["Ada", "Bruno", "Chiara"]);
}

#[test]
fn preparing_messages_before_derivation_yields_none() {
    let r = Roulette::new(registry(), "db.json").unwrap();
    let messages = r.prepare_messages().unwrap();
    assert_eq!(messages.len(), 0);
}
