//! How a run of a background pipeline ends, as the caller sees it.

use vstd::prelude::*;

verus! {

/// The result handed to the caller once both parties have stopped.
pub enum Ending<T, E, IoE, P> {
    /// Everything succeeded; this is the caller's result.
    Finished(T),
    /// A custom error, from the caller's closure or from setting up the
    /// wrapped reader or writer.
    Failed(E),
    /// An I/O error of the wrapped reader or writer that was still queued.
    IoFailed(IoE),
    /// A panic of the caller's closure, to be resumed.
    MainPanicked(P),
    /// A panic of the background party, to be resumed.
    BackgroundPanicked(P),
}

/// The error carried by the first failed result of `results`, if any.
pub open spec fn first_error<T, IoE>(results: Seq<Result<T, IoE>>) -> Option<IoE>
    decreases results.len(),
{
    if results.len() == 0 {
        None
    } else {
        match results[0] {
            Err(e) => Some(e),
            Ok(_) => first_error(results.drop_first()),
        }
    }
}

/// The first error is the error of the first failed result, after only
/// successful ones; there is none exactly when every result succeeded.
pub proof fn lemma_first_error<T, IoE>(results: Seq<Result<T, IoE>>)
    ensures
        first_error(results) is None <==> forall|i: int| 0 <= i < results.len() ==> results[i] is Ok,
        first_error(results) matches Some(e) ==> exists|i: int|
            0 <= i < results.len() && results[i] == Err::<T, IoE>(e) && forall|j: int|
                0 <= j < i ==> results[j] is Ok,
    decreases results.len(),
{
    if results.len() > 0 {
        let rest = results.drop_first();
        lemma_first_error(rest);
        if results[0] is Ok {
            assert forall|i: int| 0 <= i < rest.len() implies rest[i] == results[i + 1] by {}
            if first_error(results) is None {
                assert forall|i: int| 0 <= i < results.len() implies results[i] is Ok by {
                    if i > 0 {
                        assert(results[i] == rest[i - 1]);
                    }
                }
            } else {
                let e = first_error(results)->0;
                let i = choose|i: int|
                    0 <= i < rest.len() && rest[i] == Err::<T, IoE>(e) && forall|j: int|
                        0 <= j < i ==> rest[j] is Ok;
                assert(results[i + 1] == Err::<T, IoE>(e));
                assert forall|j: int| 0 <= j < i + 1 implies results[j] is Ok by {
                    if j > 0 {
                        assert(results[j] == rest[j - 1]);
                    }
                }
                assert(!(results[0] is Err));
            }
        } else {
            assert(!(forall|i: int| 0 <= i < results.len() ==> results[i] is Ok)) by {
                assert(!(results[0] is Ok));
            }
            assert(results[0] == Err::<T, IoE>(first_error(results)->0));
        }
    }
}

/// Returns the error of the first failed result, in queue order, dropping
/// everything else; `None` when every result succeeded.
pub fn first_failure<T, IoE>(results: Vec<Result<T, IoE>>) -> (failure: Option<IoE>)
    ensures
        failure == first_error(results@),
        failure is None <==> forall|i: int| 0 <= i < results@.len() ==> results@[i] is Ok,
        failure matches Some(e) ==> exists|i: int|
            0 <= i < results@.len() && results@[i] == Err::<T, IoE>(e) && forall|j: int|
                0 <= j < i ==> results@[j] is Ok,
{
    let mut rest = results;
    while rest.len() > 0
        invariant
            first_error(rest@) == first_error(results@),
        decreases rest@.len(),
    {
        let ghost before = rest@;
        let head = rest.remove(0);
        proof {
            assert(rest@ =~= before.drop_first());
        }
        match head {
            Err(e) => {
                proof {
                    lemma_first_error(results@);
                }
                return Some(e);
            },
            Ok(_) => {},
        }
    }
    proof {
        lemma_first_error(results@);
    }
    None
}

} // verus!
