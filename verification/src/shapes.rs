use vstd::prelude::*;

verus! {

/// The segments that a linear path through `len` points draws, as pairs of point
/// indices: consecutive points are joined, and a closed path also joins the last
/// point back to the first. Two points make a single segment whether closed or
/// not; fewer than two make none.
pub open spec fn spec_linear_path_edges(len: nat, close: bool) -> Seq<(usize, usize)> {
    if len > 2 {
        Seq::new((len - 1) as nat, |i: int| (i as usize, (i + 1) as usize)) + if close {
            seq![((len - 1) as usize, 0usize)]
        } else {
            seq![]
        }
    } else if len == 2 {
        seq![(0usize, 1usize)]
    } else {
        seq![]
    }
}

/// The point-index pairs that a linear path through `len` points draws, in
/// drawing order (see `spec_linear_path_edges`).
pub fn linear_path_edges(len: usize, close: bool) -> (r: Vec<(usize, usize)>)
    ensures
        r@ == spec_linear_path_edges(len as nat, close),
{
    let mut edges: Vec<(usize, usize)> = Vec::new();
    if len > 2 {
        let mut i: usize = 0;
        while i < len - 1
            invariant
                len > 2,
                i <= len - 1,
                edges@ == Seq::new(i as nat, |k: int| (k as usize, (k + 1) as usize)),
            decreases len - 1 - i,
        {
            edges.push((i, i + 1));
            i += 1;
            assert(edges@ =~= Seq::new(i as nat, |k: int| (k as usize, (k + 1) as usize)));
        }
        if close {
            edges.push((len - 1, 0));
        }
        assert(edges@ =~= spec_linear_path_edges(len as nat, close));
    } else if len == 2 {
        edges.push((0, 1));
        assert(edges@ =~= spec_linear_path_edges(len as nat, close));
    }
    edges
}

/// A closed path through `n >= 3` points is a cycle: it draws `n` segments, the
/// `i`-th from point `i` to point `(i + 1) % n`, so every point starts exactly
/// one segment and ends exactly one.
pub proof fn closed_path_is_cycle(n: nat)
    requires
        n > 2,
        n <= usize::MAX,
    ensures
        spec_linear_path_edges(n, true).len() == n,
        forall|i: int|
            0 <= i < n ==> #[trigger] spec_linear_path_edges(n, true)[i] == (
                i as usize,
                ((i + 1) % (n as int)) as usize,
            ),
{
    let e = spec_linear_path_edges(n, true);
    assert forall|i: int| 0 <= i < n implies #[trigger] e[i] == (
        i as usize,
        ((i + 1) % (n as int)) as usize,
    ) by {
        if i < n - 1 {
            vstd::arithmetic::div_mod::lemma_small_mod((i + 1) as nat, n);
        } else {
            vstd::arithmetic::div_mod::lemma_mod_self_0(n as int);
        }
    }
}

/// An open path through `n >= 2` points joins only consecutive points: it draws
/// `n - 1` segments, the `i`-th from point `i` to point `i + 1`, and none returns
/// to the first point.
pub proof fn open_path_joins_consecutive_points(n: nat)
    requires
        n >= 2,
        n <= usize::MAX,
    ensures
        spec_linear_path_edges(n, false).len() == n - 1,
        forall|i: int|
            0 <= i < n - 1 ==> #[trigger] spec_linear_path_edges(n, false)[i] == (
                i as usize,
                (i + 1) as usize,
            ),
        forall|i: int|
            0 <= i < spec_linear_path_edges(n, false).len() ==> #[trigger] spec_linear_path_edges(
                n,
                false,
            )[i].1 != 0,
{
    let e = spec_linear_path_edges(n, false);
    if n > 2 {
        assert forall|i: int| 0 <= i < n - 1 implies #[trigger] e[i] == (i as usize, (i + 1) as usize) by {}
    }
}

/// Every segment of a linear path joins two of its points, and closing a path
/// adds exactly one segment when it has more than two points and none otherwise.
pub proof fn path_edges_stay_within_points(n: nat, close: bool)
    requires
        n <= usize::MAX,
    ensures
        forall|i: int|
            0 <= i < spec_linear_path_edges(n, close).len() ==> {
                let (a, b) = #[trigger] spec_linear_path_edges(n, close)[i];
                a < n && b < n && a != b
            },
        spec_linear_path_edges(n, true).len() == spec_linear_path_edges(n, false).len() + (if n > 2 {
            1int
        } else {
            0int
        }),
        n < 2 ==> spec_linear_path_edges(n, close).len() == 0,
{
    let e = spec_linear_path_edges(n, close);
    assert forall|i: int| 0 <= i < e.len() implies {
        let (a, b) = #[trigger] e[i];
        a < n && b < n && a != b
    } by {
        if n > 2 && i < n - 1 {
            assert(e[i] == (i as usize, (i + 1) as usize));
        }
    }
}

/// Keeping vertices in place saves exactly the draws that jitter them: two at the
/// end of every line and two more at its start when it begins with a move. The
/// seven draws for the divergence point, the bowing of the middle and the two
/// control points are always taken.
pub proof fn line_draws_without_jitter(do_move: bool)
    ensures
        spec_line_draw_count(do_move, true) == 7,
        spec_line_draw_count(do_move, false) == spec_line_draw_count(do_move, true) + if do_move {
            4nat
        } else {
            2nat
        },
{
}

/// How many draws one sketchy line takes from the random stream: one for where
/// the curve's control points diverge, two for the bowing of its middle, two for
/// the jitter of its start when it begins with a move (unless vertices are kept
/// in place), four for its two control points, and two for the jitter of its end
/// (unless vertices are kept in place). Whether the line is an overlay changes
/// only the size of the jitter, not the number of draws.
pub open spec fn spec_line_draw_count(do_move: bool, preserve_vertices: bool) -> nat {
    7 + (if do_move && !preserve_vertices {
        2nat
    } else {
        0nat
    }) + (if !preserve_vertices {
        2nat
    } else {
        0nat
    })
}

/// The number of draws one sketchy line takes (see `spec_line_draw_count`).
pub fn line_draw_count(do_move: bool, preserve_vertices: bool) -> (n: usize)
    ensures
        n == spec_line_draw_count(do_move, preserve_vertices),
{
    let mut n: usize = 7;
    if do_move && !preserve_vertices {
        n += 2;
    }
    if !preserve_vertices {
        n += 2;
    }
    n
}

} // verus!
