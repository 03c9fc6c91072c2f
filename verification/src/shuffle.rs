//! Random permutation of a vector in place.

use rand::Rng;
use vstd::prelude::*;

verus! {

/// Draws an index from the thread-local generator of the `rand` crate:
/// `rand::thread_rng()` followed by `rand::Rng::gen_range(low, high)`.
///
/// `gen_range` is documented to return a value in the half-open range from
/// `low` (inclusive) to `high` (exclusive), and to panic when `low >= high`.
/// This contract claims exactly that range and excludes the panicking inputs;
/// it is taken on trust. Nothing is claimed about which index comes back.
/// The generator seeds itself from the operating system on first use; that
/// this source is available is assumed.
#[verifier::external_body]
fn random_index(low: usize, high: usize) -> (r: usize)
    requires
        low < high,
    ensures
        low <= r < high,
{
    rand::thread_rng().gen_range(low, high)
}

/// Moves the element at position `j` to position `i`, where `i <= j`. The
/// elements that stood at `i..j` each move up by one; all others stay where
/// they are.
pub fn move_to_front<T>(vs: &mut Vec<T>, i: usize, j: usize)
    requires
        i <= j < old(vs).len(),
    ensures
        final(vs)@ == old(vs)@.remove(j as int).insert(i as int, old(vs)@[j as int]),
        final(vs)@.len() == old(vs)@.len(),
        final(vs)@.to_multiset() == old(vs)@.to_multiset(),
{
    let ghost before = vs@;
    let item = vs.remove(j);
    vs.insert(i, item);
    proof {
        vstd::seq_lib::to_multiset_remove(before, j as int);
        vstd::seq_lib::to_multiset_insert(before.remove(j as int), i as int, before[j as int]);
        assert(before.to_multiset().count(before[j as int]) > 0) by {
            assert(before.contains(before[j as int]));
            vstd::seq_lib::to_multiset_contains(before, before[j as int]);
        }
        assert(before.to_multiset().remove(before[j as int]).insert(before[j as int])
            =~= before.to_multiset());
    }
}

/// Shuffles `vs` in place. For each position from the first to the last but
/// one, an index between that position and the end is drawn at random, and the
/// element found there is moved to the position. A vector of at most one
/// element is left as it is: for it nothing is drawn.
///
/// Whatever indices are drawn, the result is a permutation of the input: it
/// has the same length and holds every element as often as before.
pub fn shuffle_vec_in_place<T>(vs: &mut Vec<T>)
    ensures
        is_shuffle_of(final(vs)@, old(vs)@),
        final(vs)@.len() == old(vs)@.len(),
        final(vs)@.to_multiset() == old(vs)@.to_multiset(),
        old(vs)@.len() <= 1 ==> final(vs)@ == old(vs)@,
{
    let ghost before = vs@;
    let ghost draws: Seq<int> = Seq::empty();
    let vlen: usize = vs.len();
    if vlen <= 1 {
        proof {
            assert(draws_fit(draws, before.len()) && vs@ == moved_by(before, draws));
        }
        return ;
    }
    let mut shuffled: usize = 0;
    while shuffled < vlen - 1
        invariant
            vlen > 1,
            shuffled <= vlen - 1,
            vs@.len() == vlen,
            before.len() == vlen,
            vs@.to_multiset() == before.to_multiset(),
            draws.len() == shuffled,
            forall|k: int| 0 <= k < draws.len() ==> k <= #[trigger] draws[k] < vlen,
            vs@ == moved_by(before, draws),
        decreases vlen - shuffled,
    {
        let random_idx: usize = random_index(shuffled, vlen);
        move_to_front(vs, shuffled, random_idx);
        proof {
            assert(draws.push(random_idx as int).drop_last() =~= draws);
            draws = draws.push(random_idx as int);
        }
        shuffled += 1;
    }
    proof {
        assert(draws_fit(draws, before.len()) && vs@ == moved_by(before, draws));
    }
}

/// The sequence `s` after its element at position `j` was moved to position
/// `i`.
pub open spec fn moved<T>(s: Seq<T>, i: int, j: int) -> Seq<T> {
    s.remove(j).insert(i, s[j])
}

/// The sequence `s` after one move for each of its first positions: position
/// `k` receives the element that then stands at `draws[k]`.
pub open spec fn moved_by<T>(s: Seq<T>, draws: Seq<int>) -> Seq<T>
    decreases draws.len(),
{
    if draws.len() == 0 {
        s
    } else {
        moved(moved_by(s, draws.drop_last()), draws.len() - 1, draws.last())
    }
}

/// The draws that a shuffle of `len` elements makes: one for each position
/// but the last, none for less than two elements, and each between its
/// position and the end.
pub open spec fn draws_fit(draws: Seq<int>, len: nat) -> bool {
    &&& draws.len() == if len <= 1 {
        0
    } else {
        len - 1
    }
    &&& forall|k: int| 0 <= k < draws.len() ==> k <= #[trigger] draws[k] < len
}

/// `after` is what a shuffle can make of `before`: the outcome of its moves
/// for some draws.
pub open spec fn is_shuffle_of<T>(after: Seq<T>, before: Seq<T>) -> bool {
    exists|draws: Seq<int>|
        draws_fit(draws, before.len()) && after == #[trigger] moved_by(before, draws)
}

/// Whatever is drawn, the moves of a shuffle keep the length and the
/// elements, each as often as before.
pub proof fn lemma_moved_by_permutes<T>(s: Seq<T>, draws: Seq<int>)
    requires
        forall|k: int| 0 <= k < draws.len() ==> k <= #[trigger] draws[k] < s.len(),
    ensures
        moved_by(s, draws).len() == s.len(),
        moved_by(s, draws).to_multiset() == s.to_multiset(),
    decreases draws.len(),
{
    if draws.len() > 0 {
        let rest = draws.drop_last();
        lemma_moved_by_permutes(s, rest);
        let t = moved_by(s, rest);
        let i = draws.len() - 1;
        let j = draws.last();
        vstd::seq_lib::to_multiset_remove(t, j);
        vstd::seq_lib::to_multiset_insert(t.remove(j), i, t[j]);
        assert(t.contains(t[j]));
        vstd::seq_lib::to_multiset_contains(t, t[j]);
        assert(t.to_multiset().remove(t[j]).insert(t[j]) =~= t.to_multiset());
    }
}

/// A shuffle is a permutation: what it makes has the length and the elements
/// of what it began with.
pub proof fn lemma_shuffle_permutes<T>(after: Seq<T>, before: Seq<T>)
    requires
        is_shuffle_of(after, before),
    ensures
        after.len() == before.len(),
        after.to_multiset() == before.to_multiset(),
{
    let draws = choose|draws: Seq<int>|
        draws_fit(draws, before.len()) && after == #[trigger] moved_by(before, draws);
    lemma_moved_by_permutes(before, draws);
}

} // verus!
