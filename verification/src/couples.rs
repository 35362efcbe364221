use vstd::prelude::*;
use vstd::seq_lib::lemma_seq_union_to_multiset_commutative;
use crate::shuffle::shuffle_vec;

verus! {

/// The assignment set: an ordered list of rows, each row holding exactly
/// two entries, `[giver_name, recipient_token]`.
#[derive(Debug)]
pub struct Couples {
    pub couples: Vec<Vec<String>>,
}

/// Every row holds exactly a giver and a recipient token.
pub open spec fn rows_well_formed(rows: Seq<Seq<Seq<char>>>) -> bool {
    forall|i: int| 0 <= i < rows.len() ==> (#[trigger] rows[i]).len() == 2
}

/// The giver column of an assignment set.
pub open spec fn givers_of(rows: Seq<Seq<Seq<char>>>) -> Seq<Seq<char>> {
    Seq::new(rows.len(), |i: int| rows[i][0])
}

/// The recipient column of an assignment set.
pub open spec fn recipients_of(rows: Seq<Seq<Seq<char>>>) -> Seq<Seq<char>> {
    Seq::new(rows.len(), |i: int| rows[i][1])
}

/// The rotation derived from a name order: participant `i` gives to the
/// next participant, and the last gives to the first.
pub open spec fn pair_rows(names: Seq<Seq<char>>) -> Seq<Seq<Seq<char>>> {
    Seq::new(
        names.len(),
        |i: int| seq![names[i], names[if i + 1 == names.len() { 0int } else { i + 1 }]],
    )
}

impl View for Couples {
    type V = Seq<Seq<Seq<char>>>;

    open spec fn view(&self) -> Seq<Seq<Seq<char>>> {
        self.couples.deep_view()
    }
}

impl Couples {
    pub fn new() -> (r: Couples)
        ensures
            r@ == Seq::<Seq<Seq<char>>>::empty(),
    {
        let v: Vec<Vec<String>> = Vec::new();
        assert(v.deep_view() =~= Seq::<Seq<Seq<char>>>::empty());
        Couples { couples: v }
    }

    /// Shuffles the row order in place, decorrelating the stored row order
    /// from the participant order.  The rows themselves are kept: the new
    /// list is a rearrangement of the old.
    pub fn rand(&mut self)
        ensures
            final(self)@.to_multiset() == old(self)@.to_multiset(),
            final(self)@.len() == old(self)@.len(),
            rows_well_formed(old(self)@) ==> rows_well_formed(final(self)@),
    {
        shuffle_vec(&mut self.couples);
        proof {
            if rows_well_formed(old(self)@) {
                lemma_rearrangement_keeps_wf(old(self)@, self@);
            }
        }
    }
}

/// A rearrangement of well-formed rows is itself well formed: every row of
/// the new order already sat somewhere in the old one.
pub proof fn lemma_rearrangement_keeps_wf(a: Seq<Seq<Seq<char>>>, b: Seq<Seq<Seq<char>>>)
    requires
        a.to_multiset() == b.to_multiset(),
        rows_well_formed(a),
    ensures
        rows_well_formed(b),
{
    broadcast use vstd::seq_lib::group_to_multiset_ensures;

    assert forall|i: int| 0 <= i < b.len() implies (#[trigger] b[i]).len() == 2 by {
        assert(b.contains(b[i]));
        assert(b.to_multiset().count(b[i]) > 0);
        assert(a.contains(b[i]));
        let j = choose|j: int| 0 <= j < a.len() && a[j] == b[i];
        assert(a[j].len() == 2);
    }
}

/// Rearranging rows rearranges the giver column with them: the two giver
/// columns hold the same names the same number of times.
pub proof fn lemma_rearrangement_keeps_givers(a: Seq<Seq<Seq<char>>>, b: Seq<Seq<Seq<char>>>)
    requires
        a.to_multiset() == b.to_multiset(),
    ensures
        givers_of(a).to_multiset() == givers_of(b).to_multiset(),
    decreases a.len(),
{
    broadcast use vstd::seq_lib::group_to_multiset_ensures;
    broadcast use vstd::multiset::group_multiset_axioms;

    if a.len() == 0 {
        assert(b.to_multiset().len() == 0);
        assert(b.len() == 0);
        assert(givers_of(a) =~= givers_of(b));
    } else {
        let x = a[0];
        assert(a.contains(x));
        assert(b.to_multiset().count(x) > 0);
        assert(b.contains(x));
        let j = choose|j: int| 0 <= j < b.len() && b[j] == x;
        let a2 = a.drop_first();
        let b2 = b.remove(j);
        assert(a.remove(0) =~= a2);
        assert(a.remove(0).to_multiset() =~= a.to_multiset().remove(x));
        assert(b2.to_multiset() =~= b.to_multiset().remove(x));
        assert(a2.to_multiset() == b2.to_multiset());
        lemma_rearrangement_keeps_givers(a2, b2);
        let ga = givers_of(a);
        let gb = givers_of(b);
        assert(ga.remove(0) =~= givers_of(a2));
        assert(ga.remove(0).to_multiset() =~= ga.to_multiset().remove(ga[0]));
        assert(gb.remove(j) =~= givers_of(b2));
        assert(gb.remove(j).to_multiset() =~= gb.to_multiset().remove(gb[j]));
        assert(ga[0] == x[0] && gb[j] == x[0]);
        assert(ga.contains(ga[0]));
        assert(gb.contains(gb[j]));
        assert(ga.to_multiset().count(x[0]) > 0);
        assert(gb.to_multiset().count(x[0]) > 0);
        assert forall|w: Seq<char>| ga.to_multiset().count(w) == gb.to_multiset().count(w) by {
            assert(ga.to_multiset().remove(x[0]).count(w) == gb.to_multiset().remove(x[0]).count(
                w,
            ));
        }
        assert(ga.to_multiset() =~= gb.to_multiset());
    }
}

/// The rotation over `n >= 2` distinct names is a single full cycle:
/// there are exactly `n` rows; the giver column is the name list itself;
/// the recipient column is a rearrangement of the same names; nobody is
/// their own recipient; and each recipient is the giver of the next row
/// (wrapping), so following the rows walks through all participants and
/// back to the start.
pub proof fn lemma_rotation_cycle(names: Seq<Seq<char>>)
    requires
        names.len() >= 2,
        forall|i: int, j: int| 0 <= i < j < names.len() ==> names[i] != names[j],
    ensures
        pair_rows(names).len() == names.len(),
        rows_well_formed(pair_rows(names)),
        givers_of(pair_rows(names)) =~= names,
        recipients_of(pair_rows(names)).to_multiset() == names.to_multiset(),
        forall|i: int| 0 <= i < names.len() ==> #[trigger] pair_rows(names)[i][0] != pair_rows(names)[i][1],
        forall|i: int| 0 <= i < names.len() ==> #[trigger] pair_rows(names)[i][1] == pair_rows(
            names,
        )[if i + 1 == names.len() { 0int } else { i + 1 }][0],
{
    let n = names.len() as int;
    let rows = pair_rows(names);
    let head = names.subrange(0, 1);
    let tail = names.subrange(1, n);
    assert(names =~= head + tail);
    assert(recipients_of(rows) =~= tail + head);
    lemma_seq_union_to_multiset_commutative(tail, head);
    assert((head + tail).to_multiset() =~= (tail + head).to_multiset());
}

} // verus!
