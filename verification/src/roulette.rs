use vstd::prelude::*;
use crate::conceal::{bcrypt_accepts, bcrypt_parses, conceal_name};
use crate::couples::{pair_rows, rows_well_formed, Couples};
use crate::json::{doc_of, render_document};
use crate::errors::Error;
use crate::message::{create_email, message_matches_row, row_resolvable, Message};
use crate::participant::{lemma_find_found, names_of, spec_find, Participant, ParticipantV};
use crate::shuffle::shuffle_vec;
use vstd::string::StrSliceExecFns;

verus! {

/// The store path must end in the one recognized extension: a final
/// `.json` preceded by at least one character of file name.
pub open spec fn ends_with_json(p: Seq<char>) -> bool {
    &&& p.len() >= 6
    &&& p[p.len() - 5] == '.'
    &&& p[p.len() - 4] == 'j'
    &&& p[p.len() - 3] == 's'
    &&& p[p.len() - 2] == 'o'
    &&& p[p.len() - 1] == 'n'
    &&& p[p.len() - 6] != '/'
}

fn path_has_json_ext(path: &str) -> (r: bool)
    ensures
        r == ends_with_json(path@),
{
    let n = path.unicode_len();
    if n < 6 {
        return false;
    }
    path.get_char(n - 5) == '.' && path.get_char(n - 4) == 'j' && path.get_char(n - 3) == 's'
        && path.get_char(n - 2) == 'o' && path.get_char(n - 1) == 'n' && path.get_char(n - 6)
        != '/'
}

/// One run of the gift exchange: the registry of participants, the two
/// idempotence flags, the derived assignment rows, and — once persisted —
/// the rendered document.
#[derive(Debug)]
pub struct Roulette {
    participants: Vec<Participant>,
    random: bool,
    store_file_path: String,
    saved: bool,
    couples: Couples,
    document: Option<String>,
}

impl Roulette {
    pub closed spec fn spec_participants(&self) -> Seq<ParticipantV> {
        self.participants.deep_view()
    }

    pub closed spec fn spec_random(&self) -> bool {
        self.random
    }

    pub closed spec fn spec_saved(&self) -> bool {
        self.saved
    }

    pub closed spec fn spec_couples(&self) -> Seq<Seq<Seq<char>>> {
        self.couples@
    }

    pub closed spec fn spec_path(&self) -> Seq<char> {
        self.store_file_path@
    }

    pub closed spec fn spec_document(&self) -> Option<Seq<char>> {
        match self.document {
            Some(d) => Some(d@),
            None => None,
        }
    }

    /// Well-formedness of a run: rows always hold a giver and a recipient,
    /// and the flags only move forward (persisted implies shuffled, and a
    /// document is held exactly while persisted).
    pub open spec fn wf(&self) -> bool {
        &&& rows_well_formed(self.spec_couples())
        &&& (self.spec_saved() ==> self.spec_random())
        &&& (self.spec_saved() <==> self.spec_document() is Some)
    }

    /// Builds a run over the given registry.  Construction fails fast,
    /// before anything touches the file system, unless the store path ends
    /// in `.json`.
    pub fn new(participants: Vec<Participant>, store_path: &str) -> (r: Result<Roulette, Error>)
        ensures
            r is Ok <==> ends_with_json(store_path@),
            r matches Ok(rl) ==> rl.wf() && rl.spec_participants() == participants.deep_view()
                && !rl.spec_random() && !rl.spec_saved() && rl.spec_couples()
                == Seq::<Seq<Seq<char>>>::empty() && rl.spec_path() == store_path@
                && rl.spec_document() is None,
            r is Err ==> r == Err::<Roulette, Error>(Error::BadExtension),
    {
        if !path_has_json_ext(store_path) {
            return Err(Error::BadExtension);
        }
        Ok(
            Roulette {
                participants,
                random: false,
                store_file_path: store_path.to_owned(),
                saved: false,
                couples: Couples::new(),
                document: None,
            },
        )
    }

    /// Applies one random permutation to the participant order.  Once the
    /// run is randomized a second call changes nothing, so the order that
    /// pairs were derived from cannot be shuffled away.
    pub fn shuffle(&mut self) -> (r: Result<(), Error>)
        requires
            old(self).wf(),
        ensures
            final(self).wf(),
            r is Ok,
            old(self).spec_random() ==> *final(self) == *old(self),
            final(self).spec_random(),
            final(self).spec_participants().to_multiset() == old(
                self,
            ).spec_participants().to_multiset(),
            final(self).spec_participants().len() == old(self).spec_participants().len(),
            final(self).spec_saved() == old(self).spec_saved(),
            final(self).spec_couples() == old(self).spec_couples(),
            final(self).spec_path() == old(self).spec_path(),
            final(self).spec_document() == old(self).spec_document(),
    {
        if self.random {
            return Ok(());
        }
        shuffle_vec(&mut self.participants);
        self.random = true;
        Ok(())
    }

    /// Derives the rotation from the shuffled order and appends it to the
    /// assignment rows: participant `i` gives to participant `i + 1`, and
    /// the last gives to the first.  Requires a shuffled run and at least
    /// two participants; otherwise it fails without touching anything.
    pub fn participants_to_couples(&mut self) -> (r: Result<(), Error>)
        requires
            old(self).wf(),
        ensures
            final(self).wf(),
            r is Ok <==> old(self).spec_random() && old(self).spec_participants().len() >= 2,
            !old(self).spec_random() ==> r == Err::<(), Error>(Error::NotShuffled) && *final(self)
                == *old(self),
            old(self).spec_random() && old(self).spec_participants().len() < 2 ==> r == Err::<
                (),
                Error,
            >(Error::TooFewParticipants) && *final(self) == *old(self),
            r is Ok ==> final(self).spec_couples() == old(self).spec_couples() + pair_rows(
                names_of(old(self).spec_participants()),
            ),
            final(self).spec_participants() == old(self).spec_participants(),
            final(self).spec_random() == old(self).spec_random(),
            final(self).spec_saved() == old(self).spec_saved(),
            final(self).spec_path() == old(self).spec_path(),
            final(self).spec_document() == old(self).spec_document(),
    {
        if !self.random {
            return Err(Error::NotShuffled);
        }
        let n = self.participants.len();
        if n < 2 {
            return Err(Error::TooFewParticipants);
        }
        let ghost names = names_of(old(self).spec_participants());
        let ghost base = old(self).spec_couples();
        let mut i: usize = 0;
        while i < n - 1
            invariant
                2 <= n == self.participants.len(),
                0 <= i <= n - 1,
                self.participants == old(self).participants,
                self.random == old(self).random,
                self.store_file_path == old(self).store_file_path,
                self.saved == old(self).saved,
                self.document == old(self).document,
                names == names_of(old(self).spec_participants()),
                base == old(self).spec_couples(),
                self.spec_couples() =~= base + pair_rows(names).subrange(0, i as int),
            decreases n - 1 - i,
        {
            let a = self.participants[i].name.clone();
            let b = self.participants[i + 1].name.clone();
            let row = vec![a, b];
            proof {
                assert(row.deep_view() =~= seq![names[i as int], names[i as int + 1]]);
                assert(row.deep_view() == pair_rows(names)[i as int]);
            }
            let ghost pre = self.spec_couples();
            self.couples.couples.push(row);
            proof {
                assert(self.spec_couples() =~= pre.push(row.deep_view()));
                assert(pair_rows(names).subrange(0, i as int + 1) =~= pair_rows(names).subrange(
                    0,
                    i as int,
                ).push(pair_rows(names)[i as int]));
                assert(self.spec_couples() =~= base + pair_rows(names).subrange(0, i as int + 1));
            }
            i += 1;
        }
        let last = self.participants[n - 1].name.clone();
        let first = self.participants[0].name.clone();
        let row = vec![last, first];
        proof {
            assert(row.deep_view() =~= seq![names[n - 1], names[0]]);
            assert(row.deep_view() == pair_rows(names)[n - 1]);
        }
        let ghost pre = self.spec_couples();
        self.couples.couples.push(row);
        proof {
            assert(self.spec_couples() =~= pre.push(row.deep_view()));
            assert(pair_rows(names) =~= pair_rows(names).subrange(0, n - 1).push(
                pair_rows(names)[n - 1],
            ));
            assert(self.spec_couples() =~= base + pair_rows(names));
        }
        Ok(())
    }

    /// The concealed copy of the assignment rows: givers stay in clear, in
    /// the same order, and every recipient name is replaced by a one-way
    /// hashed token that bcrypt's verify accepts for that name.  The rows
    /// held by the run are not touched.
    pub fn get_couples(&self) -> (r: Result<Couples, Error>)
        requires
            self.wf(),
        ensures
            r matches Ok(c) ==> concealed_rows_of(c@, self.spec_couples()),
            r is Err ==> r == Err::<Couples, Error>(Error::HashFailure),
            r is Err ==> self.spec_couples().len() > 0,
    {
        let mut out = Couples::new();
        let k = self.couples.couples.len();
        let mut i: usize = 0;
        while i < k
            invariant
                0 <= i <= k == self.couples.couples.len(),
                self.wf(),
                out@.len() == i,
                forall|j: int| 0 <= j < i ==> (#[trigger] out@[j]).len() == 2 && out@[j][0]
                    == self.spec_couples()[j][0] && bcrypt_accepts(
                    self.spec_couples()[j][1],
                    out@[j][1],
                ) && bcrypt_parses(out@[j][1]) && out@[j][1].len() == 60 && out@[j][1][0] == '$',
            decreases k - i,
        {
            let row = &self.couples.couples[i];
            assert(row.deep_view() == self.spec_couples()[i as int]);
            let token = match conceal_name(row[1].as_str()) {
                Ok(t) => t,
                Err(e) => {
                    return Err(e);
                },
            };
            let giver = row[0].clone();
            let hashed_row = vec![giver, token];
            proof {
                assert(hashed_row.deep_view() =~= seq![giver@, token@]);
            }
            let ghost pre_out = out@;
            out.couples.push(hashed_row);
            proof {
                assert(out@ =~= pre_out.push(hashed_row.deep_view()));
            }
            i += 1;
        }
        Ok(out)
    }

    /// Derives, conceals and renders the assignment document, exactly once
    /// per run: once persisted, later calls hand back the stored document
    /// unchanged.  On the first call the rotation is derived from the
    /// shuffled order, the row order is shuffled once more so the stored
    /// order cannot be read against the participant order, recipients are
    /// concealed, and the rendered document is retained.
    fn save(&mut self) -> (r: Result<String, Error>)
        requires
            old(self).wf(),
        ensures
            final(self).wf(),
            old(self).spec_saved() ==> *final(self) == *old(self) && (r matches Ok(d)
                && old(self).spec_document() == Some(d@)),
            r == Err::<String, Error>(Error::NotShuffled) <==> !old(self).spec_saved()
                && !old(self).spec_random(),
            r == Err::<String, Error>(Error::TooFewParticipants) <==> !old(self).spec_saved()
                && old(self).spec_random() && old(self).spec_participants().len() < 2,
            !old(self).spec_saved() && !old(self).spec_random() ==> *final(self) == *old(self),
            !old(self).spec_saved() && old(self).spec_random() && old(
                self,
            ).spec_participants().len() < 2 ==> *final(self) == *old(self),
            !old(self).spec_saved() && old(self).spec_random() && old(
                self,
            ).spec_participants().len() >= 2 ==> (r matches Ok(d) ==> final(self).spec_saved()
                && final(self).spec_document() == Some(d@)
                && final(self).spec_couples().to_multiset() == (old(self).spec_couples()
                + pair_rows(names_of(old(self).spec_participants()))).to_multiset() && (
            exists|hashed: Seq<Seq<Seq<char>>>|
                concealed_rows_of(hashed, final(self).spec_couples()) && d@ == doc_of(hashed))),
            !old(self).spec_saved() && r is Err ==> r == Err::<String, Error>(Error::NotShuffled)
                || r == Err::<String, Error>(Error::TooFewParticipants) || r == Err::<
                String,
                Error,
            >(Error::HashFailure),
            r is Err ==> !final(self).spec_saved() && final(self).spec_document() == old(
                self,
            ).spec_document(),
            final(self).spec_participants() == old(self).spec_participants(),
            final(self).spec_random() == old(self).spec_random(),
            final(self).spec_path() == old(self).spec_path(),
    {
        if self.saved {
            if let Some(d) = &self.document {
                return Ok(d.clone());
            }
            // a persisted run always holds its document
            return unreached();
        }
        match self.participants_to_couples() {
            Ok(u) => u,
            Err(e) => {
                return Err(e);
            },
        }
        self.couples.rand();
        let concealed = match self.get_couples() {
            Ok(c) => c,
            Err(e) => {
                return Err(e);
            },
        };
        let doc = render_document(&concealed);
        self.document = Some(doc.clone());
        self.saved = true;
        Ok(doc)
    }

    /// One whole run: shuffle the participants, then derive, conceal and
    /// render the document.  Idempotent: a second call changes nothing and
    /// returns the document of the first.
    pub fn run(&mut self) -> (r: Result<String, Error>)
        requires
            old(self).wf(),
        ensures
            final(self).wf(),
            old(self).spec_saved() ==> *final(self) == *old(self) && (r matches Ok(d)
                && old(self).spec_document() == Some(d@)),
            r == Err::<String, Error>(Error::TooFewParticipants) <==> !old(self).spec_saved()
                && old(self).spec_participants().len() < 2,
            r is Err ==> r == Err::<String, Error>(Error::TooFewParticipants) || r == Err::<
                String,
                Error,
            >(Error::HashFailure),
            r is Err ==> !final(self).spec_saved() && final(self).spec_document() == old(
                self,
            ).spec_document(),
            final(self).spec_random(),
            final(self).spec_participants().to_multiset() == old(
                self,
            ).spec_participants().to_multiset(),
            final(self).spec_path() == old(self).spec_path(),
            !old(self).spec_saved() ==> (r matches Ok(d) ==> final(self).spec_saved()
                && final(self).spec_document() == Some(d@)
                && final(self).spec_couples().to_multiset() == (old(self).spec_couples()
                    + pair_rows(names_of(final(self).spec_participants()))).to_multiset()
                && (exists|hashed: Seq<Seq<Seq<char>>>|
                    concealed_rows_of(hashed, final(self).spec_couples()) && d@ == doc_of(hashed))),
    {
        match self.shuffle() {
            Ok(u) => u,
            Err(e) => {
                return Err(e);
            },
        }
        self.save()
    }

    /// Resolves every assignment row against the registry and builds one
    /// notification per pair: addressed to the giver's email, with the
    /// recipient's name and note in the body.  Fails as soon as a name is
    /// not in the registry, which would mean the rows and the registry have
    /// drifted apart.
    pub fn prepare_messages(&self) -> (r: Result<Vec<Message>, Error>)
        requires
            self.wf(),
        ensures
            r matches Ok(ms) ==> ms.deep_view().len() == self.spec_couples().len() && (forall|
                j: int,
            |
                0 <= j < self.spec_couples().len() ==> message_matches_row(
                    #[trigger] ms.deep_view()[j],
                    self.spec_participants(),
                    self.spec_couples()[j],
                )),
            r is Ok <==> (forall|j: int|
                0 <= j < self.spec_couples().len() ==> row_resolvable(
                    self.spec_participants(),
                    #[trigger] self.spec_couples()[j],
                )),
            r is Err ==> r == Err::<Vec<Message>, Error>(Error::RecipientNotFound),
    {
        let ghost ps = self.spec_participants();
        let mut out: Vec<Message> = Vec::new();
        let n = self.couples.couples.len();
        let mut i: usize = 0;
        while i < n
            invariant
                self.wf(),
                ps == self.spec_participants(),
                0 <= i <= n == self.couples.couples.len(),
                out.deep_view().len() == i,
                forall|j: int|
                    0 <= j < i ==> message_matches_row(
                        #[trigger] out.deep_view()[j],
                        ps,
                        self.spec_couples()[j],
                    ),
            decreases n - i,
        {
            let row = &self.couples.couples[i];
            assert(row.deep_view() == self.spec_couples()[i as int]);
            let giver = match self.get_participant(row[0].as_str()) {
                Some(p) => p,
                None => {
                    assert(!row_resolvable(ps, self.spec_couples()[i as int]));
                    return Err(Error::RecipientNotFound);
                },
            };
            let recipient = match self.get_participant(row[1].as_str()) {
                Some(p) => p,
                None => {
                    assert(!row_resolvable(ps, self.spec_couples()[i as int]));
                    return Err(Error::RecipientNotFound);
                },
            };
            let m = create_email(&giver, &recipient);
            proof {
                lemma_find_found(ps, self.spec_couples()[i as int][0]);
                lemma_find_found(ps, self.spec_couples()[i as int][1]);
            }
            let ghost pre = out.deep_view();
            out.push(m);
            proof {
                assert(out.deep_view() =~= pre.push(m@));
            }
            i += 1;
        }
        proof {
            assert forall|j: int|
                0 <= j < self.spec_couples().len() implies row_resolvable(
                ps,
                #[trigger] self.spec_couples()[j],
            ) by {
                assert(message_matches_row(out.deep_view()[j], ps, self.spec_couples()[j]));
            }
        }
        Ok(out)
    }

    /// The path the caller should persist the document at.
    pub fn store_path(&self) -> (r: &str)
        ensures
            r@ == self.spec_path(),
    {
        self.store_file_path.as_str()
    }

    /// Whether the document has been produced and retained this run.
    pub fn is_saved(&self) -> (r: bool)
        ensures
            r == self.spec_saved(),
    {
        self.saved
    }

    /// The first participant carrying the given name, if any.
    pub fn get_participant(&self, name: &str) -> (r: Option<Participant>)
        ensures
            r is Some <==> spec_find(self.spec_participants(), name@) is Some,
            r matches Some(p) ==> p@ == spec_find(self.spec_participants(), name@)->Some_0,
    {
        let ghost ps = self.spec_participants();
        let target = name.to_owned();
        let n = self.participants.len();
        proof {
            assert(ps.skip(0) =~= ps);
        }
        let mut i: usize = 0;
        while i < n
            invariant
                0 <= i <= n == self.participants.len(),
                ps == self.spec_participants(),
                target@ == name@,
                spec_find(ps, name@) == spec_find(ps.skip(i as int), name@),
            decreases n - i,
        {
            proof {
                assert(ps.skip(i as int)[0] == ps[i as int]);
                assert(ps.skip(i as int).drop_first() =~= ps.skip(i as int + 1));
            }
            let p = &self.participants[i];
            if p.name == target {
                return Some(p.clone());
            }
            i += 1;
        }
        proof {
            assert(ps.skip(n as int) =~= Seq::<ParticipantV>::empty());
        }
        None
    }
}

/// Relates a concealed assignment set to its clear source: same number of
/// rows, givers unchanged in place, every recipient replaced by a token
/// that bcrypt accepts for the clear recipient name.
pub open spec fn concealed_rows_of(
    hashed: Seq<Seq<Seq<char>>>,
    clear: Seq<Seq<Seq<char>>>,
) -> bool {
    &&& hashed.len() == clear.len()
    &&& forall|i: int| 0 <= i < hashed.len() ==> (#[trigger] hashed[i]).len() == 2 && hashed[i][0]
        == clear[i][0] && bcrypt_accepts(clear[i][1], hashed[i][1]) && bcrypt_parses(
        hashed[i][1],
    ) && hashed[i][1].len() == 60 && hashed[i][1][0] == '$'
}

} // verus!
