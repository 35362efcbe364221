use vstd::prelude::*;

verus! {

/// A participant record.  The name is the unique identifier within a run;
/// the note in `info` travels with the notification message.
#[derive(Debug)]
pub struct Participant {
    pub name: String,
    pub email: String,
    pub info: String,
}

/// Ghost image of a participant: the three fields as character sequences.
pub ghost struct ParticipantV {
    pub name: Seq<char>,
    pub email: Seq<char>,
    pub info: Seq<char>,
}

impl View for Participant {
    type V = ParticipantV;

    open spec fn view(&self) -> ParticipantV {
        ParticipantV { name: self.name@, email: self.email@, info: self.info@ }
    }
}

impl DeepView for Participant {
    type V = ParticipantV;

    open spec fn deep_view(&self) -> ParticipantV {
        self@
    }
}

impl Clone for Participant {
    fn clone(&self) -> (r: Self)
        ensures
            r@ == self@,
    {
        Participant {
            name: self.name.clone(),
            email: self.email.clone(),
            info: self.info.clone(),
        }
    }
}

impl Participant {
    pub fn new(name: &str, email: &str, info: &str) -> (r: Participant)
        ensures
            r@.name == name@,
            r@.email == email@,
            r@.info == info@,
    {
        Participant {
            name: name.to_owned(),
            email: email.to_owned(),
            info: info.to_owned(),
        }
    }
}

/// The name column of a registry, in order.
pub open spec fn names_of(ps: Seq<ParticipantV>) -> Seq<Seq<char>> {
    Seq::new(ps.len(), |i: int| ps[i].name)
}

/// The first participant whose name is `name`, if any.
pub open spec fn spec_find(ps: Seq<ParticipantV>, name: Seq<char>) -> Option<ParticipantV>
    decreases ps.len(),
{
    if ps.len() == 0 {
        None
    } else if ps[0].name == name {
        Some(ps[0])
    } else {
        spec_find(ps.drop_first(), name)
    }
}

/// A found participant carries the name it was looked up by.
pub proof fn lemma_find_found(ps: Seq<ParticipantV>, name: Seq<char>)
    requires
        spec_find(ps, name) is Some,
    ensures
        spec_find(ps, name)->Some_0.name == name,
        exists|i: int| 0 <= i < ps.len() && ps[i] == spec_find(ps, name)->Some_0,
    decreases ps.len(),
{
    if ps.len() > 0 && ps[0].name != name {
        lemma_find_found(ps.drop_first(), name);
        let p = spec_find(ps, name)->Some_0;
        let i = choose|i: int| 0 <= i < ps.drop_first().len() && ps.drop_first()[i] == p;
        assert(ps[i + 1] == p);
    }
}

} // verus!
