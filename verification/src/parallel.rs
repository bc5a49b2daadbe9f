//! Running two independent computations side by side.
use vstd::prelude::*;

verus! {

/// `f(x1, x2)` and `g(y1, y2)`, possibly computed in parallel on the thread
/// pool (wraps `rayon::join`, which runs both closures and returns their
/// results in order).
#[verifier::external_body]
pub(crate) fn join2<F, G, X1, X2, Y1, Y2, RA, RB>(
    f: F,
    x1: X1,
    x2: X2,
    g: G,
    y1: Y1,
    y2: Y2,
) -> (res: (RA, RB)) where
    F: FnOnce(X1, X2) -> RA + Send,
    G: FnOnce(Y1, Y2) -> RB + Send,
    X1: Send,
    X2: Send,
    Y1: Send,
    Y2: Send,
    RA: Send,
    RB: Send,

    requires
        f.requires((x1, x2)),
        g.requires((y1, y2)),
    ensures
        f.ensures((x1, x2), res.0),
        g.ensures((y1, y2), res.1),
{
    rayon::join(move || f(x1, x2), move || g(y1, y2))
}

} // verus!
