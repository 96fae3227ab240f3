//! Random choices: an index below a bound, and a file with a chance in
//! proportion to its size.
use crate::file::{Candidate, CorpusError};
use rand::distributions::WeightedError;
use rand::seq::SliceRandom;
use rand::Rng;
use vstd::prelude::*;

verus! {

/// `rand::distributions::WeightedError`: why rand's weighted choice found
/// nothing to choose. Nothing is read from a value of it.
#[verifier::external_type_specification]
#[verifier::external_body]
pub struct ExWeightedError(WeightedError);

/// `order` tells where each item of `output` stood in `input`, and `output`
/// holds the items by size, those of one size in the order that they had
/// in `input`.
pub open spec fn sorted_by_size(input: Seq<Candidate>, output: Seq<Candidate>, order: Seq<int>) -> bool {
    &&& output.len() == input.len()
    &&& order.len() == input.len()
    &&& forall|k: int|
        0 <= k < order.len() ==> 0 <= #[trigger] order[k] < input.len() && output[k]
            == input[order[k]]
    &&& forall|j: int, k: int|
        #![trigger output[j], output[k]]
        0 <= j < k < order.len() ==> output[j].size < output[k].size || (output[j].size
            == output[k].size && order[j] < order[k])
}

/// `output` is `input` sorted by size, and the sort is stable.
pub open spec fn is_stable_sort(input: Seq<Candidate>, output: Seq<Candidate>) -> bool {
    &&& exists|order: Seq<int>| sorted_by_size(input, output, order)
    &&& output.to_multiset() == input.to_multiset()
}

/// Some file of `files` has a size above zero.
pub open spec fn has_weight(files: Seq<Candidate>) -> bool {
    exists|k: int| 0 <= k < files.len() && (#[trigger] files[k]).size > 0
}

/// An index below `i`, each with the same chance.
///
/// This is `Rng::gen_range` of rand on the range from 0 up to and without
/// `i`, with the generator of the thread. The call panics on an empty range,
/// hence `i > 0`; its result lies in the range. Nothing is claimed of the
/// chances.
#[verifier::external_body]
pub fn random(i: usize) -> (r: usize)
    requires
        i > 0,
    ensures
        r < i,
{
    let mut rng = rand::thread_rng();
    rng.gen_range(0..i)
}

/// The weight of a file in the choice: its size.
pub fn weight(file: &Candidate) -> (w: u128)
    ensures
        w == file.size,
{
    file.size as u128
}

/// One of `files`, each with a chance in proportion to its weight.
///
/// This is `SliceRandom::choose_weighted` of rand with the generator of the
/// thread and `weight` for the weights. It sums the weights and fails where
/// there is no item or the sum is zero; the sizes of a vector's items are
/// summed in 128 bits, where their sum always fits. It then draws a number
/// below the sum and returns the item whose share of the sum holds that
/// number, so that an item of weight zero is never returned. Nothing is
/// claimed of the chances.
#[verifier::external_body]
fn choose_weighted(files: &Vec<Candidate>) -> (chosen: Result<Candidate, WeightedError>)
    ensures
        chosen is Ok <==> has_weight(files@),
        chosen matches Ok(c) ==> c.size > 0 && files@.contains(c),
{
    let mut rng = rand::thread_rng();
    files.choose_weighted(&mut rng, |c| weight(c)).copied()
}

/// A sorted sequence stays sorted where the item that came last is put
/// behind the items that are no larger than it.
proof fn lemma_insert_sorted(
    input: Seq<Candidate>,
    output: Seq<Candidate>,
    order: Seq<int>,
    p: int,
    c: Candidate,
)
    requires
        sorted_by_size(input, output, order),
        0 <= p <= output.len(),
        forall|j: int| 0 <= j < p ==> output[j].size <= c.size,
        p < output.len() ==> output[p].size > c.size,
    ensures
        sorted_by_size(input.push(c), output.insert(p, c), order.insert(p, input.len() as int)),
{
    let longer = output.insert(p, c);
    let places = order.insert(p, input.len() as int);
    assert forall|j: int, k: int|
        #![trigger longer[j], longer[k]]
        0 <= j < k < places.len() implies longer[j].size < longer[k].size || (longer[j].size
        == longer[k].size && places[j] < places[k]) by {
        // Where the item stood before the new one went in.
        let was_j = if j < p { j } else { j - 1 };
        let was_k = if k < p { k } else { k - 1 };
        if j == p {
            assert(output[p].size <= output[was_k].size);
        } else if k != p {
            assert(output[was_j].size <= output[was_k].size);
        }
    }
}

/// An item that is put into a sequence is one more item of it.
proof fn lemma_insert_to_multiset(s: Seq<Candidate>, p: int, c: Candidate)
    requires
        0 <= p <= s.len(),
    ensures
        s.insert(p, c).to_multiset() == s.to_multiset().insert(c),
{
    assert(s.insert(p, c).remove(p) =~= s);
    vstd::seq_lib::to_multiset_remove(s.insert(p, c), p);
    s.insert(p, c).to_multiset_ensures();
    assert(s.insert(p, c).contains(c)) by {
        assert(s.insert(p, c)[p] == c);
    }
    assert(s.insert(p, c).to_multiset() =~= s.to_multiset().insert(c));
}

/// The files in the order in which the choice takes them: by size, those of
/// one size in the order in which they came.
pub fn selection_order(files: &Vec<Candidate>) -> (sorted: Vec<Candidate>)
    ensures
        is_stable_sort(files@, sorted@),
{
    let mut sorted: Vec<Candidate> = Vec::new();
    let ghost mut order: Seq<int> = Seq::empty();
    let mut i: usize = 0;
    proof {
        assert(files@.take(0) =~= Seq::<Candidate>::empty());
    }
    while i < files.len()
        invariant
            i <= files.len(),
            sorted_by_size(files@.take(i as int), sorted@, order),
            sorted@.to_multiset() == files@.take(i as int).to_multiset(),
        decreases files.len() - i,
    {
        let c = files[i];
        let mut p: usize = 0;
        while p < sorted.len() && sorted[p].size <= c.size
            invariant
                p <= sorted.len(),
                forall|j: int| 0 <= j < p ==> sorted@[j].size <= c.size,
            decreases sorted.len() - p,
        {
            p += 1;
        }
        proof {
            let taken = files@.take(i as int);
            assert(taken.push(c) =~= files@.take(i + 1));
            lemma_insert_sorted(taken, sorted@, order, p as int, c);
            lemma_insert_to_multiset(sorted@, p as int, c);
            vstd::seq_lib::to_multiset_build(taken, c);
            order = order.insert(p as int, i as int);
        }
        sorted.insert(p, c);
        i += 1;
    }
    proof {
        assert(files@.take(i as int) =~= files@);
    }
    sorted
}

/// Sequences with the same items, each as often, hold the same files.
proof fn lemma_same_files(a: Seq<Candidate>, b: Seq<Candidate>)
    requires
        a.to_multiset() == b.to_multiset(),
    ensures
        forall|c: Candidate| a.contains(c) <==> b.contains(c),
        has_weight(a) <==> has_weight(b),
{
    a.to_multiset_ensures();
    b.to_multiset_ensures();
    assert forall|c: Candidate| a.contains(c) <==> b.contains(c) by {
        assert(a.contains(c) <==> a.to_multiset().count(c) > 0);
        assert(b.contains(c) <==> b.to_multiset().count(c) > 0);
    }
    if has_weight(a) {
        let k = choose|k: int| 0 <= k < a.len() && (#[trigger] a[k]).size > 0;
        assert(a.contains(a[k]));
        let j = choose|j: int| 0 <= j < b.len() && b[j] == a[k];
        assert(b[j].size > 0);
    }
    if has_weight(b) {
        let k = choose|k: int| 0 <= k < b.len() && (#[trigger] b[k]).size > 0;
        assert(b.contains(b[k]));
        let j = choose|j: int| 0 <= j < a.len() && a[j] == b[k];
        assert(a[j].size > 0);
    }
}

/// What a weighted choice comes to: the file that was chosen, or
/// `EmptyCorpus` where there was nothing to choose.
pub fn chosen_file(outcome: Result<Candidate, WeightedError>) -> (chosen: Result<
    Candidate,
    CorpusError,
>)
    ensures
        chosen == (match outcome {
            Ok(file) => Ok::<Candidate, CorpusError>(file),
            Err(_) => Err::<Candidate, CorpusError>(CorpusError::EmptyCorpus),
        }),
{
    match outcome {
        Ok(file) => Ok(file),
        Err(_) => Err(CorpusError::EmptyCorpus),
    }
}

/// Chooses one of `files` with a chance in proportion to its size. No file
/// of size zero is chosen, and where no file has a size above zero there is
/// nothing to choose from.
pub fn get_random_file_weighted(files: &Vec<Candidate>) -> (chosen: Result<Candidate, CorpusError>)
    ensures
        has_weight(files@) ==> (chosen matches Ok(c) && c.size > 0 && files@.contains(c)),
        !has_weight(files@) ==> chosen == Err::<Candidate, CorpusError>(CorpusError::EmptyCorpus),
{
    let sorted = selection_order(files);
    proof {
        lemma_same_files(files@, sorted@);
    }
    chosen_file(choose_weighted(&sorted))
}

} // verus!
