//! The rules on lengths: a model with `k` weights takes feature vectors of
//! length `k` and nothing else, and a dataset has one target for each row.

use crate::error::DataError;
use vstd::prelude::*;

verus! {

/// The first index at which `widths` differs from `features`, or the length of
/// `widths` where no entry differs.
pub open spec fn first_mismatch(widths: Seq<usize>, features: usize) -> int
    decreases widths.len(),
{
    if widths.len() == 0 || widths[0] != features {
        0
    } else {
        1 + first_mismatch(widths.skip(1), features)
    }
}

/// What `check_dataset` answers for a dataset whose rows have the lengths
/// `widths`, with `targets` target values, for a model of `features` weights.
pub open spec fn dataset_verdict(widths: Seq<usize>, targets: usize, features: usize) -> Result<
    (),
    DataError,
> {
    let at: int = first_mismatch(widths, features);
    if widths.len() != targets {
        Err(DataError::DimensionMismatch { expected: widths.len() as usize, found: targets })
    } else if at < widths.len() {
        Err(DataError::DimensionMismatch { expected: features, found: widths[at] })
    } else {
        Ok(())
    }
}

/// `first_mismatch` lies within the sequence, every entry before it equals
/// `features`, and the entry at it, where there is one, does not.
pub proof fn lemma_first_mismatch(widths: Seq<usize>, features: usize)
    ensures
        0 <= first_mismatch(widths, features) <= widths.len(),
        forall|i: int| 0 <= i < first_mismatch(widths, features) ==> widths[i] == features,
        first_mismatch(widths, features) < widths.len() ==> widths[first_mismatch(
            widths,
            features,
        )] != features,
    decreases widths.len(),
{
    if widths.len() == 0 || widths[0] != features {
    } else {
        let rest = widths.skip(1);
        lemma_first_mismatch(rest, features);
        assert forall|i: int| 0 <= i < first_mismatch(widths, features) implies widths[i]
            == features by {
            if i > 0 {
                assert(widths[i] == rest[i - 1]);
            }
        }
    }
}

/// A dataset is accepted exactly when it has as many targets as rows and every
/// row has `features` entries.
pub proof fn lemma_dataset_verdict_ok(widths: Seq<usize>, targets: usize, features: usize)
    requires
        widths.len() <= usize::MAX,
    ensures
        dataset_verdict(widths, targets, features) is Ok <==> (widths.len() == targets
            && forall|i: int| 0 <= i < widths.len() ==> widths[i] == features),
{
    lemma_first_mismatch(widths, features);
}

/// Accepts `found` where it equals `expected`, and reports both where it does
/// not.
pub fn check_dimension(expected: usize, found: usize) -> (r: Result<(), DataError>)
    ensures
        r == if expected == found {
            Ok::<(), DataError>(())
        } else {
            Err::<(), DataError>(DataError::DimensionMismatch { expected, found })
        },
{
    if expected == found {
        Ok(())
    } else {
        Err(DataError::DimensionMismatch { expected, found })
    }
}

/// Holds a dataset against a model of `features` weights: `widths` lists the
/// length of each row's feature vector, `targets` is the number of target
/// values. A wrong number of targets is reported first, then the first row
/// whose length is not `features`.
pub fn check_dataset(widths: &[usize], targets: usize, features: usize) -> (r: Result<
    (),
    DataError,
>)
    ensures
        r == dataset_verdict(widths@, targets, features),
        r is Ok <==> (widths@.len() == targets && forall|i: int|
            0 <= i < widths@.len() ==> widths@[i] == features),
{
    let rows: usize = widths.len();
    proof {
        lemma_dataset_verdict_ok(widths@, targets, features);
    }
    if rows != targets {
        return Err(DataError::DimensionMismatch { expected: rows, found: targets });
    }
    let mut i: usize = 0;
    assert(widths@.skip(0) =~= widths@);
    while i < widths.len()
        invariant
            0 <= i <= widths.len(),
            widths.len() == targets,
            first_mismatch(widths@, features) == i + first_mismatch(
                widths@.skip(i as int),
                features,
            ),
        decreases widths.len() - i,
    {
        assert(widths@.skip(i as int).skip(1) =~= widths@.skip(i + 1));
        if widths[i] != features {
            return Err(DataError::DimensionMismatch { expected: features, found: widths[i] });
        }
        i += 1;
    }
    Ok(())
}

} // verus!
