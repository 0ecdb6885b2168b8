//! Small combinators for a projection's completion vocabulary.
use vstd::prelude::*;

verus! {

/// The vocabulary that applicable providers give together, in order. An
/// explicit empty vocabulary stays specified; only when no provider
/// specifies one is the composition unspecified.
pub open spec fn combined<T>(results: Seq<Option<Seq<T>>>) -> Option<Seq<T>>
    decreases results.len(),
{
    if results.len() == 0 {
        None
    } else {
        match (combined(results.drop_last()), results.last()) {
            (None, None) => None,
            (None, Some(next)) => Some(next),
            (Some(offers), None) => Some(offers),
            (Some(offers), Some(next)) => Some(offers + next),
        }
    }
}

/// Combining gives no vocabulary exactly when no provider specifies one.
pub proof fn lemma_combined_none<T>(results: Seq<Option<Seq<T>>>)
    ensures
        combined(results) is None <==> forall|i: int| 0 <= i < results.len() ==> #[trigger] results[i] is None,
    decreases results.len(),
{
    if results.len() > 0 {
        let rest = results.drop_last();
        lemma_combined_none(rest);
        assert forall|i: int| 0 <= i < rest.len() implies #[trigger] rest[i] == results[i] by {}
        if combined(results) is None {
            assert forall|i: int| 0 <= i < results.len() implies #[trigger] results[i] is None by {
                if i < rest.len() {
                    assert(rest[i] == results[i]);
                }
            }
        }
    }
}

/// The model of what each provider answered.
pub open spec fn answers<T>(results: Seq<Option<Vec<T>>>) -> Seq<Option<Seq<T>>> {
    results.map_values(
        |r: Option<Vec<T>>|
            match r {
                Some(v) => Some(v@),
                None => None,
            },
    )
}

/// Combines what each applicable provider answered for one request, in
/// provider order: `None` only when no provider specified a vocabulary.
pub fn combine<T>(results: Vec<Option<Vec<T>>>) -> (r: Option<Vec<T>>)
    ensures
        match r {
            Some(offers) => combined(answers(results@)) == Some(offers@),
            None => combined(answers(results@)) is None,
        },
{
    let ghost given = results@;
    let ghost model = answers(results@);
    let count: usize = results.len();
    let mut rest = results;
    let mut offers: Option<Vec<T>> = None;
    let mut i: usize = 0;
    assert(model.take(0) =~= Seq::<Option<Seq<T>>>::empty());
    while rest.len() > 0
        invariant
            count == model.len(),
            i + rest@.len() == count,
            model == answers(given),
            rest@ =~= given.skip(i as int),
            match offers {
                Some(o) => combined(model.take(i as int)) == Some(o@),
                None => combined(model.take(i as int)) is None,
            },
        decreases rest@.len(),
    {
        let next = rest.remove(0);
        assert(next == given[i as int]);
        assert(model.take(i + 1).drop_last() =~= model.take(i as int));
        assert(model[i as int] == match next {
            Some(v) => Some(v@),
            None => None,
        });
        match next {
            Some(mut next) => match offers {
                Some(mut o) => {
                    o.append(&mut next);
                    offers = Some(o);
                },
                None => {
                    offers = Some(next);
                },
            },
            None => {},
        }
        i = i + 1;
    }
    assert(model.take(i as int) =~= model);
    offers
}

} // verus!
