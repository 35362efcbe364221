use vstd::prelude::*;
use crate::conceal::{bcrypt_accepts, bcrypt_parses};
use crate::couples::{
    givers_of, lemma_rearrangement_keeps_givers, lemma_rotation_cycle, pair_rows, rows_well_formed,
};
use crate::json::{doc_of, lemma_doc_round_trip, parse_doc};
use crate::roulette::concealed_rows_of;

verus! {

/// What the persisted document of a completed run shows.  `names` is the
/// participant name list in its shuffled order, `couples` the clear rows a
/// run retains (the rotation, in a shuffled row order), and `hashed` the
/// concealed copy that was rendered, as `run` promises them.  Then: the
/// document parses back to exactly the concealed rows; there is one row per
/// participant; the giver column holds every participant name exactly once;
/// and every recipient entry is a sixty-character hashed token that bcrypt
/// reads back and accepts for the giver's actual recipient, so checking
/// that recipient's name against the stored row answers true.
pub proof fn lemma_saved_document(
    names: Seq<Seq<char>>,
    couples: Seq<Seq<Seq<char>>>,
    hashed: Seq<Seq<Seq<char>>>,
)
    requires
        names.len() >= 2,
        forall|i: int, j: int| 0 <= i < j < names.len() ==> names[i] != names[j],
        couples.to_multiset() == pair_rows(names).to_multiset(),
        concealed_rows_of(hashed, couples),
    ensures
        parse_doc(doc_of(hashed)) == Some(hashed),
        hashed.len() == names.len(),
        givers_of(hashed).to_multiset() == names.to_multiset(),
        forall|i: int| 0 <= i < hashed.len() ==> (#[trigger] hashed[i])[1].len() == 60
            && hashed[i][1][0] == '$' && bcrypt_accepts(couples[i][1], hashed[i][1])
            && bcrypt_parses(hashed[i][1]),
        forall|i: int| 0 <= i < couples.len() ==> (#[trigger] couples[i])[0] != couples[i][1],
{
    broadcast use vstd::seq_lib::group_to_multiset_ensures;

    lemma_rotation_cycle(names);
    assert forall|i: int|
        0 <= i < couples.len() implies (#[trigger] couples[i])[0] != couples[i][1] by {
        assert(couples.contains(couples[i]));
        assert(couples.to_multiset().count(couples[i]) > 0);
        assert(pair_rows(names).contains(couples[i]));
        let j = choose|j: int|
            0 <= j < pair_rows(names).len() && pair_rows(names)[j] == couples[i];
        assert(pair_rows(names)[j][0] != pair_rows(names)[j][1]);
    }
    lemma_rearrangement_keeps_givers(couples, pair_rows(names));
    assert(givers_of(hashed) =~= givers_of(couples));
    assert(rows_well_formed(hashed));
    lemma_doc_round_trip(hashed);
    assert(couples.to_multiset().len() == couples.len());
    assert(pair_rows(names).to_multiset().len() == pair_rows(names).len());
}

} // verus!
