use vstd::arithmetic::div_mod::{lemma_add_mod_noop, lemma_mod_self_0, lemma_small_mod};
use vstd::prelude::*;

verus! {

/// What a plot cache says of a piece.
#[derive(Clone, Copy, Debug, PartialEq, Eq, Structural)]
pub enum MaybePieceStoredResult {
    /// It is not stored, and there is no room for it.
    No,
    /// It is not stored, and there is room for it.
    Vacant,
    /// It is stored already.
    Yes,
}

/// Plot caches are asked in order; the first that has room or already holds
/// the piece decides. `None` stands for a cache that failed to answer.
pub open spec fn plot_verdict(answers: Seq<Option<MaybePieceStoredResult>>) -> bool
    decreases answers.len(),
{
    if answers.len() == 0 {
        false
    } else {
        match answers[0] {
            Some(MaybePieceStoredResult::Vacant) => true,
            Some(MaybePieceStoredResult::Yes) => false,
            _ => plot_verdict(answers.drop_first()),
        }
    }
}

/// Whether a piece should go to the plot caches, from their answers in order.
pub fn should_store(answers: &Vec<Option<MaybePieceStoredResult>>) -> (r: bool)
    ensures
        r == plot_verdict(answers@),
{
    let mut i: usize = 0;
    assert(answers@.skip(0) =~= answers@);
    while i < answers.len()
        invariant
            i <= answers@.len(),
            plot_verdict(answers@) == plot_verdict(answers@.skip(i as int)),
        decreases answers@.len() - i,
    {
        proof {
            assert(answers@.skip(i as int)[0] == answers@[i as int]);
            assert(answers@.skip(i as int).drop_first() =~= answers@.skip(i + 1));
        }
        match answers[i] {
            Some(MaybePieceStoredResult::Vacant) => {
                return true;
            },
            Some(MaybePieceStoredResult::Yes) => {
                return false;
            },
            _ => {},
        }
        i = i + 1;
    }
    false
}

/// The plot caches to try, in order, when the shared round-robin counter
/// stands at `counter`: each attempt takes the next value of the counter,
/// which wraps around.
pub fn plot_cache_order(counter: usize, plot_caches_len: usize) -> (r: Vec<usize>)
    ensures
        r@.len() == plot_caches_len,
        forall|k: int|
            0 <= k < plot_caches_len ==> #[trigger] r@[k] == ((counter + k) % (usize::MAX + 1))
                % plot_caches_len as int,
{
    let mut r: Vec<usize> = Vec::new();
    let mut next: usize = counter;
    let mut k: usize = 0;
    proof {
        lemma_small_mod(counter as nat, (usize::MAX + 1) as nat);
    }
    while k < plot_caches_len
        invariant
            k <= plot_caches_len,
            r@.len() == k,
            next == (counter + k) % (usize::MAX + 1),
            forall|j: int|
                0 <= j < k ==> #[trigger] r@[j] == ((counter + j) % (usize::MAX + 1))
                    % plot_caches_len as int,
        decreases plot_caches_len - k,
    {
        r.push(next % plot_caches_len);
        proof {
            let n = usize::MAX + 1;
            lemma_add_mod_noop(counter + k, 1, n);
            lemma_small_mod(1, n as nat);
            if next < usize::MAX {
                lemma_small_mod((next + 1) as nat, n as nat);
            } else {
                lemma_mod_self_0(n);
            }
        }
        next = if next == usize::MAX {
            0
        } else {
            next + 1
        };
        k = k + 1;
    }
    r
}

} // verus!
