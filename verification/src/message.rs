use vstd::prelude::*;
use vstd::string::StringExecFns;
use crate::participant::{spec_find, Participant, ParticipantV};

verus! {

/// One notification, ready for a mail transport: the giver's address, the
/// fixed subject, and a body naming the recipient and their note.
#[derive(Debug)]
pub struct Message {
    pub to: String,
    pub subject: String,
    pub body: String,
}

/// Ghost image of a message.
pub ghost struct MessageV {
    pub to: Seq<char>,
    pub subject: Seq<char>,
    pub body: Seq<char>,
}

impl View for Message {
    type V = MessageV;

    open spec fn view(&self) -> MessageV {
        MessageV { to: self.to@, subject: self.subject@, body: self.body@ }
    }
}

impl DeepView for Message {
    type V = MessageV;

    open spec fn deep_view(&self) -> MessageV {
        self@
    }
}

/// The body sent to a giver: the recipient's name and free-form note.
pub open spec fn body_of(name: Seq<char>, info: Seq<char>) -> Seq<char> {
    "Your gift is for: "@ + name + "\nContext:"@ + info
}

/// A message correctly addresses the giver and describes the recipient.
pub open spec fn message_ok(m: MessageV, giver: ParticipantV, recipient: ParticipantV) -> bool {
    &&& m.to == giver.email
    &&& m.subject == "Gift Exchange"@
    &&& m.body == body_of(recipient.name, recipient.info)
}

/// A message is right for an assignment row against a registry: both names
/// resolve, and the message addresses the resolved giver about the resolved
/// recipient.
pub open spec fn message_matches_row(
    m: MessageV,
    ps: Seq<ParticipantV>,
    row: Seq<Seq<char>>,
) -> bool {
    &&& spec_find(ps, row[0]) is Some
    &&& spec_find(ps, row[1]) is Some
    &&& spec_find(ps, row[0])->Some_0.name == row[0]
    &&& spec_find(ps, row[1])->Some_0.name == row[1]
    &&& message_ok(m, spec_find(ps, row[0])->Some_0, spec_find(ps, row[1])->Some_0)
}

/// Both names of an assignment row are present in the registry.
pub open spec fn row_resolvable(ps: Seq<ParticipantV>, row: Seq<Seq<char>>) -> bool {
    &&& spec_find(ps, row[0]) is Some
    &&& spec_find(ps, row[1]) is Some
}

/// Builds the notification for one pair, addressed to the giver and telling
/// them who they give to.
pub fn create_email(giver: &Participant, recipient: &Participant) -> (m: Message)
    ensures
        message_ok(m@, giver@, recipient@),
{
    let body = String::from_str("Your gift is for: ").concat(recipient.name.as_str()).concat(
        "\nContext:",
    ).concat(recipient.info.as_str());
    proof {
        assert(body@ =~= body_of(recipient@.name, recipient@.info));
    }
    Message { to: giver.email.clone(), subject: "Gift Exchange".to_owned(), body }
}

} // verus!
