//! Helpers for the string form of domain names.

use vstd::prelude::*;
use vstd::string::StringExecFns;

verus! {

/// The labels of a name joined with dots: the display form of a decoded
/// name.  A name whose last label is the empty root label therefore ends in
/// a dot.
pub open spec fn spec_join_labels(ls: Seq<Seq<char>>) -> Seq<char>
    decreases ls.len(),
{
    if ls.len() == 0 {
        Seq::empty()
    } else if ls.len() == 1 {
        ls[0]
    } else {
        ls[0] + seq!['.'] + spec_join_labels(ls.drop_first())
    }
}

/// Appending one more label extends the joined form by a dot and the label.
pub proof fn lemma_join_labels_push(ls: Seq<Seq<char>>, x: Seq<char>)
    ensures
        ls.len() == 0 ==> spec_join_labels(ls.push(x)) == x,
        ls.len() >= 1 ==> spec_join_labels(ls.push(x)) == spec_join_labels(ls) + seq!['.'] + x,
    decreases ls.len(),
{
    if ls.len() == 0 {
        assert(ls.push(x)[0] =~= x);
        assert(spec_join_labels(ls.push(x)) == x);
    } else if ls.len() == 1 {
        assert(ls.push(x).drop_first() =~= seq![x]);
        assert(spec_join_labels(seq![x]) == x);
        assert(spec_join_labels(ls.push(x)) == ls[0] + seq!['.'] + x);
        assert(spec_join_labels(ls) == ls[0]);
    } else {
        lemma_join_labels_push(ls.drop_first(), x);
        assert(ls.push(x).drop_first() =~= ls.drop_first().push(x));
        assert(spec_join_labels(ls.push(x)) == ls[0] + seq!['.'] + spec_join_labels(
            ls.drop_first().push(x),
        ));
        assert(spec_join_labels(ls.drop_first().push(x)) == spec_join_labels(ls.drop_first())
            + seq!['.'] + x);
        assert((ls[0] + seq!['.'] + (spec_join_labels(ls.drop_first()) + seq!['.'] + x)) =~= (ls[0]
            + seq!['.'] + spec_join_labels(ls.drop_first())) + seq!['.'] + x);
    }
}

/// Joins labels with dots into one string.
pub fn join_asciis(asciis: &Vec<String>) -> (r: String)
    ensures
        r@ == spec_join_labels(asciis.deep_view()),
{
    let ghost all = asciis.deep_view();
    let mut r = String::new();
    let mut i: usize = 0;
    while i < asciis.len()
        invariant
            i <= asciis@.len(),
            all == asciis.deep_view(),
            all.len() == asciis@.len(),
            forall|j: int| 0 <= j < all.len() ==> all[j] == #[trigger] asciis@[j]@,
            r@ == spec_join_labels(all.take(i as int)),
        decreases asciis@.len() - i,
    {
        if i > 0 {
            r.append(".");
            proof {
                reveal_strlit(".");
                assert("."@ =~= seq!['.']);
            }
        }
        r.append(asciis[i].as_str());
        proof {
            lemma_join_labels_push(all.take(i as int), all[i as int]);
            assert(all.take(i as int).push(all[i as int]) =~= all.take(i + 1));
        }
        i = i + 1;
    }
    proof {
        assert(all.take(all.len() as int) =~= all);
    }
    r
}

/// Relies on `String::from_utf8`: bytes below 128 are ASCII, and decode one
/// for one to the characters with those code points.
#[verifier::external_body]
pub(crate) fn ascii_to_string(bytes: Vec<u8>) -> (r: String)
    requires
        forall|i: int| 0 <= i < bytes@.len() ==> bytes@[i] < 128,
    ensures
        r@ == bytes@.map_values(|b: u8| b as char),
{
    String::from_utf8(bytes).unwrap()
}

} // verus!
