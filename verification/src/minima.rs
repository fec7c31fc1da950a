//! First-wins minimisation over a finite index range: the matcher and the
//! distance routines all keep a running best with a strict comparison, so the
//! earliest index attaining the minimum is the one selected.

use vstd::prelude::*;

verus! {

/// The first index in `[i, n)` at which `f` attains its minimum over `[i, n)`.
pub open spec fn first_min_idx(f: spec_fn(int) -> int, i: int, n: int) -> int
    decreases n - i,
{
    if i + 1 >= n {
        i
    } else {
        let r = first_min_idx(f, i + 1, n);
        if f(i) <= f(r) {
            i
        } else {
            r
        }
    }
}

/// The minimum value of `f` over `[0, n)`.
pub open spec fn min_val(f: spec_fn(int) -> int, n: int) -> int {
    f(first_min_idx(f, 0, n))
}

/// `first_min_idx` lies in range, attains the minimum, and is the first
/// index to do so.
pub proof fn lemma_first_min_idx(f: spec_fn(int) -> int, i: int, n: int)
    requires
        i < n,
    ensures
        i <= first_min_idx(f, i, n) < n,
        forall|k: int| i <= k < n ==> f(first_min_idx(f, i, n)) <= #[trigger] f(k),
        forall|k: int| i <= k < first_min_idx(f, i, n) ==> #[trigger] f(k) > f(first_min_idx(f, i, n)),
    decreases n - i,
{
    if i + 1 >= n {
    } else {
        lemma_first_min_idx(f, i + 1, n);
    }
}

/// Any index satisfying the first-minimum characterisation is
/// `first_min_idx`.
pub proof fn lemma_first_min_unique(f: spec_fn(int) -> int, n: int, r: int)
    requires
        0 <= r < n,
        forall|k: int| 0 <= k < n ==> f(r) <= #[trigger] f(k),
        forall|k: int| 0 <= k < r ==> #[trigger] f(k) > f(r),
    ensures
        r == first_min_idx(f, 0, n),
{
    lemma_first_min_idx(f, 0, n);
    let m = first_min_idx(f, 0, n);
    if m < r {
        assert(f(m) > f(r));
        assert(f(m) <= f(r));
    } else if r < m {
        assert(f(r) > f(m));
        assert(f(r) <= f(m));
    }
}

} // verus!
