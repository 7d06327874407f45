//! Closed paths, and sums over the segments of a path.
use crate::abstract_segment::AbstractLineSegment;
use crate::conserve::one_if;
use crate::geometry::point::Point;
use crate::order::paths_ascending;
use vstd::prelude::*;

verus! {

/// The sum of `f(0)`, ..., `f(n - 1)`.
pub open spec fn sum_to(n: int, f: spec_fn(int) -> int) -> int
    decreases n,
{
    if n <= 0 {
        0
    } else {
        sum_to(n - 1, f) + f(n - 1)
    }
}

/// Sums of terms that agree agree.
pub(crate) proof fn lemma_sum_agrees(n: int, f: spec_fn(int) -> int, g: spec_fn(int) -> int)
    requires
        forall|i: int| 0 <= i < n ==> #[trigger] f(i) == g(i),
    ensures
        sum_to(n, f) == sum_to(n, g),
    decreases n,
{
    if n > 0 {
        lemma_sum_agrees(n - 1, f, g);
    }
}

/// Where one term of a sum grows by `delta` and the others stay, the sum
/// grows by `delta`.
pub(crate) proof fn lemma_sum_point(
    n: int,
    f: spec_fn(int) -> int,
    g: spec_fn(int) -> int,
    m: int,
    delta: int,
)
    requires
        forall|i: int| 0 <= i < n && i != m ==> #[trigger] g(i) == f(i),
        0 <= m < n ==> g(m) == f(m) + delta,
    ensures
        sum_to(n, g) == sum_to(n, f) + if 0 <= m < n {
            delta
        } else {
            0
        },
    decreases n,
{
    if n > 0 {
        lemma_sum_point(n - 1, f, g, m, delta);
    }
}

/// The first segment of the run of segment `i`'s path.
pub open spec fn run_first(segs: Seq<AbstractLineSegment>, i: int) -> int
    decreases i,
{
    if 0 < i < segs.len() && segs[i - 1].path_idx == segs[i].path_idx {
        run_first(segs, i - 1)
    } else {
        i
    }
}

/// The segments are closed paths, one after the other: each segment is
/// derived from its endpoints, the paths ascend, and within a path each
/// segment begins where the one before ends, the first where the last ends.
pub open spec fn closed_paths(segs: Seq<AbstractLineSegment>) -> bool {
    &&& paths_ascending(segs)
    &&& forall|i: int| 0 <= i < segs.len() ==> (#[trigger] segs[i]).wf()
    &&& forall|i: int| 0 <= i < segs.len() ==> #[trigger] chained(segs, i)
}

/// The segment `i` ends where the next segment of its path begins, or,
/// where it is the last of its path, where the first begins.
pub open spec fn chained(segs: Seq<AbstractLineSegment>, i: int) -> bool {
    segs[i].p1 == if i + 1 < segs.len() && segs[i + 1].path_idx == segs[i].path_idx {
        segs[i + 1].p0
    } else {
        segs[run_first(segs, i)].p0
    }
}

/// What the endpoints of the segment `i` are worth, if it belongs to the
/// path `p`: one for each endpoint that `marked` holds of.
pub open spec fn ends_worth(
    segs: Seq<AbstractLineSegment>,
    marked: spec_fn(Point) -> bool,
    p: int,
) -> spec_fn(int) -> int {
    |i: int|
        if segs[i].path_idx == p {
            one_if(marked(segs[i].p0)) + one_if(marked(segs[i].p1))
        } else {
            0
        }
}

/// The first segment of a run belongs to the path of the run, and the
/// segment before it does not.
proof fn lemma_run_first(segs: Seq<AbstractLineSegment>, i: int)
    requires
        0 <= i < segs.len(),
    ensures
        0 <= run_first(segs, i) <= i,
        segs[run_first(segs, i)].path_idx == segs[i].path_idx,
        run_first(segs, i) > 0 ==> segs[run_first(segs, i) - 1].path_idx != segs[i].path_idx,
    decreases i,
{
    if 0 < i && segs[i - 1].path_idx == segs[i].path_idx {
        lemma_run_first(segs, i - 1);
    }
}

/// Along a closed path, the endpoints of the first `i` segments are worth
/// an even number, but for the two ends of the chain that is still open.
proof fn lemma_chain_prefix(
    segs: Seq<AbstractLineSegment>,
    marked: spec_fn(Point) -> bool,
    p: int,
    i: int,
)
    requires
        closed_paths(segs),
        0 <= i <= segs.len(),
    ensures
        (sum_to(i, ends_worth(segs, marked, p)) - if 0 < i < segs.len() && segs[i - 1].path_idx
            == p && segs[i].path_idx == p {
            one_if(marked(segs[run_first(segs, i)].p0)) + one_if(marked(segs[i].p0))
        } else {
            0
        }) % 2 == 0,
        // the path has no segment after a segment of a later path
        forall|j: int|
            0 <= j < i && i < segs.len() && (#[trigger] segs[j]).path_idx > p ==> segs[i].path_idx
                != p,
    decreases i,
{
    let f = ends_worth(segs, marked, p);
    if i > 0 {
        lemma_chain_prefix(segs, marked, p, i - 1);
        let k = i - 1;
        lemma_run_first(segs, k);
        assert(chained(segs, k));
        if i < segs.len() {
            lemma_run_first(segs, i);
        }
        if segs[k].path_idx == p {
            // the chain that was open at k, if any, goes on with k
            if k > 0 && segs[k - 1].path_idx == p {
                assert(run_first(segs, k) == run_first(segs, k - 1));
            } else {
                assert(run_first(segs, k) == k);
            }
            if i < segs.len() && segs[i].path_idx == p {
                assert(run_first(segs, i) == run_first(segs, k));
                assert(segs[k].p1 == segs[i].p0);
            } else {
                assert(segs[k].p1 == segs[run_first(segs, k)].p0);
            }
        } else {
            if i < segs.len() && segs[i].path_idx == p && k > 0 && segs[k - 1].path_idx == p {
                assert(segs[k - 1].path_idx <= segs[k].path_idx);
                assert(segs[k].path_idx <= segs[i].path_idx);
            }
        }
    }
}

/// Along a closed path, the endpoints are worth an even number: each point
/// of the path is the end of one segment and the start of the next.
pub proof fn lemma_closed_path_even(
    segs: Seq<AbstractLineSegment>,
    marked: spec_fn(Point) -> bool,
    p: int,
)
    requires
        closed_paths(segs),
    ensures
        sum_to(segs.len() as int, ends_worth(segs, marked, p)) % 2 == 0,
{
    lemma_chain_prefix(segs, marked, p, segs.len() as int);
}

} // verus!
