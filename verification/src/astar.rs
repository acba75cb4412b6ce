//! The search step: the heuristic, the neighbours of a cell, the ordering of the
//! frontier, and the engine that expands one node.

use vstd::prelude::*;

use crate::coordinate::{cell, Coordinate, ALLOW_DIAGONAL, TOTAL_X, TOTAL_Y};

verus! {

/// Absolute value.
pub open spec fn abs(v: int) -> int {
    if v < 0 {
        -v
    } else {
        v
    }
}

/// Manhattan distance between the positions of two cells.
pub open spec fn manhattan(a: Coordinate, b: Coordinate) -> int {
    abs(b.x - a.x) + abs(b.y - a.y)
}

/// The `i32` arithmetic that computes `manhattan(a, b)` does not overflow: each
/// difference and its absolute value fit, and so does their sum.
pub open spec fn manhattan_fits(a: Coordinate, b: Coordinate) -> bool {
    &&& i32::MIN < b.x - a.x <= i32::MAX
    &&& i32::MIN < b.y - a.y <= i32::MAX
    &&& manhattan(a, b) <= i32::MAX
}

/// Manhattan distance from `coordinate` to `goal`, the search's heuristic.
pub fn get_manhattan_distance(coordinate: &Coordinate, goal: Coordinate) -> (d: i32)
    requires
        manhattan_fits(*coordinate, goal),
    ensures
        d == manhattan(*coordinate, goal),
{
    let dx: i32 = goal.x - coordinate.x;
    let dy: i32 = goal.y - coordinate.y;
    let ax: i32 = if dx < 0 { -dx } else { dx };
    let ay: i32 = if dy < 0 { -dy } else { dy };
    ax + ay
}

/// The heuristic is never negative, does not depend on the order of its
/// arguments, and is zero exactly between two cells at the same position.
pub proof fn lemma_manhattan(a: Coordinate, b: Coordinate)
    ensures
        manhattan(a, b) == (if b.x >= a.x {
            b.x - a.x
        } else {
            a.x - b.x
        }) + (if b.y >= a.y {
            b.y - a.y
        } else {
            a.y - b.y
        }),
        manhattan(a, b) >= 0,
        manhattan(a, b) == manhattan(b, a),
        manhattan(a, b) == 0 <==> same_cell(a, b),
{
}

/// One column or one row closer to the goal lowers the heuristic by exactly
/// one, whatever the distance; cost and score play no part in it.
pub proof fn lemma_manhattan_step(a: Coordinate, g: Coordinate)
    ensures
        a.x < g.x ==> manhattan(cell(a.x + 1, a.y as int), g) + 1 == manhattan(a, g),
        a.x > g.x ==> manhattan(cell(a.x - 1, a.y as int), g) + 1 == manhattan(a, g),
        a.y < g.y ==> manhattan(cell(a.x as int, a.y + 1), g) + 1 == manhattan(a, g),
        a.y > g.y ==> manhattan(cell(a.x as int, a.y - 1), g) + 1 == manhattan(a, g),
        manhattan(cell(a.x as int, a.y as int), g) == manhattan(a, g),
{
}

/// `seq![c]` when `cond` holds, the empty sequence otherwise.
pub open spec fn when(cond: bool, c: Coordinate) -> Seq<Coordinate> {
    if cond {
        seq![c]
    } else {
        Seq::empty()
    }
}

/// The neighbours of `c` in the order the search visits them: up, down, left,
/// right, then (when diagonal moves are allowed) top left, top right, bottom
/// left, bottom right. A step to a row or column index below 1, or to one at or
/// beyond the grid's size, is left out. Each neighbour has cost and score zero.
pub open spec fn spec_neighbors(c: Coordinate) -> Seq<Coordinate> {
    let x = c.x as int;
    let y = c.y as int;
    let up = y - 1 > 0;
    let down = y + 1 < TOTAL_Y;
    let left = x - 1 > 0;
    let right = x + 1 < TOTAL_X;
    let straight = when(up, cell(x, y - 1)) + when(down, cell(x, y + 1)) + when(left, cell(x - 1, y))
        + when(right, cell(x + 1, y));
    if !ALLOW_DIAGONAL {
        straight
    } else {
        straight + when(left && up, cell(x - 1, y - 1)) + when(right && up, cell(x + 1, y - 1))
            + when(left && down, cell(x - 1, y + 1)) + when(right && down, cell(x + 1, y + 1))
    }
}

/// `c` lies on the grid.
pub open spec fn in_grid(c: Coordinate) -> bool {
    0 <= c.x < TOTAL_X && 0 <= c.y < TOTAL_Y
}

/// `n` is one king's move away from `c`, has cost and score zero, and lies on
/// the grid if `c` does.
pub open spec fn one_step_from(n: Coordinate, c: Coordinate) -> bool {
    &&& abs(n.x - c.x) <= 1
    &&& abs(n.y - c.y) <= 1
    &&& !same_cell(n, c)
    &&& n.cost == 0
    &&& n.score == 0
    &&& in_grid(c) ==> in_grid(n)
}

/// Rank of the direction from `c` to `n` in the order neighbours are listed.
spec fn direction_rank(n: Coordinate, c: Coordinate) -> int {
    let dx = n.x - c.x;
    let dy = n.y - c.y;
    if dx == 0 && dy == -1 {
        0
    } else if dx == 0 && dy == 1 {
        1
    } else if dx == -1 && dy == 0 {
        2
    } else if dx == 1 && dy == 0 {
        3
    } else if dx == -1 && dy == -1 {
        4
    } else if dx == 1 && dy == -1 {
        5
    } else if dx == -1 && dy == 1 {
        6
    } else {
        7
    }
}

/// A step from `c` to `n` stays below the grid's size where it goes up in a
/// coordinate, above zero where it goes down, and is straight unless diagonal
/// moves are allowed.
spec fn allowed_step(n: Coordinate, c: Coordinate) -> bool {
    &&& n.y < c.y ==> n.y > 0
    &&& n.y > c.y ==> n.y < TOTAL_Y
    &&& n.x < c.x ==> n.x > 0
    &&& n.x > c.x ==> n.x < TOTAL_X
    &&& ALLOW_DIAGONAL || n.x == c.x || n.y == c.y
}

/// Every element of `s` is an allowed step from `c` in a direction ranked
/// below `m`, and the ranks strictly increase along `s`.
spec fn listed_below(s: Seq<Coordinate>, c: Coordinate, m: int) -> bool {
    &&& forall|k: int|
        0 <= k < s.len() ==> one_step_from(#[trigger] s[k], c) && allowed_step(s[k], c)
            && direction_rank(s[k], c) < m
    &&& forall|k: int, l: int|
        0 <= k < l < s.len() ==> direction_rank(#[trigger] s[k], c) < direction_rank(
            #[trigger] s[l],
            c,
        )
}

proof fn lemma_listed_when(s: Seq<Coordinate>, c: Coordinate, m: int, cond: bool, n: Coordinate)
    requires
        listed_below(s, c, m),
        cond ==> one_step_from(n, c) && allowed_step(n, c) && direction_rank(n, c) == m,
    ensures
        listed_below(s + when(cond, n), c, m + 1),
        forall|t: Coordinate| contains_cell(s, t) ==> contains_cell(s + when(cond, n), t),
        cond ==> contains_cell(s + when(cond, n), n),
{
    let t = s + when(cond, n);
    assert forall|u: Coordinate| contains_cell(s, u) implies contains_cell(t, u) by {
        let i = choose|i: int| 0 <= i < s.len() && same_cell(#[trigger] s[i], u);
        assert(t[i] == s[i]);
    }
    if cond {
        assert(t[s.len() as int] == n);
        assert(same_cell(t[s.len() as int], n));
    }
    assert forall|k: int| 0 <= k < t.len() implies one_step_from(#[trigger] t[k], c)
        && allowed_step(t[k], c) && direction_rank(t[k], c) < m + 1 by {
        if k < s.len() {
            assert(t[k] == s[k]);
        }
    }
    assert forall|k: int, l: int| 0 <= k < l < t.len() implies direction_rank(#[trigger] t[k], c)
        < direction_rank(#[trigger] t[l], c) by {
        assert(t[k] == s[k]);
        if l < s.len() {
            assert(t[l] == s[l]);
        }
    }
}

/// Each neighbour of a cell is one king's move away from it (never at its
/// position) with cost and score zero, no two neighbours share a position,
/// there are at most eight of them, and the neighbours of a cell on the grid
/// lie on the grid.
pub proof fn lemma_neighbors(c: Coordinate)
    ensures
        spec_neighbors(c).len() <= 8,
        forall|k: int|
            0 <= k < spec_neighbors(c).len() ==> one_step_from(#[trigger] spec_neighbors(c)[k], c),
        forall|k: int, l: int|
            0 <= k < l < spec_neighbors(c).len() ==> !same_cell(
                #[trigger] spec_neighbors(c)[k],
                #[trigger] spec_neighbors(c)[l],
            ),
{
    let x = c.x as int;
    let y = c.y as int;
    let up = y - 1 > 0;
    let down = y + 1 < TOTAL_Y;
    let left = x - 1 > 0;
    let right = x + 1 < TOTAL_X;
    let s0 = Seq::<Coordinate>::empty();
    let s1 = s0 + when(up, cell(x, y - 1));
    lemma_listed_when(s0, c, 0, up, cell(x, y - 1));
    let s2 = s1 + when(down, cell(x, y + 1));
    lemma_listed_when(s1, c, 1, down, cell(x, y + 1));
    let s3 = s2 + when(left, cell(x - 1, y));
    lemma_listed_when(s2, c, 2, left, cell(x - 1, y));
    let s4 = s3 + when(right, cell(x + 1, y));
    lemma_listed_when(s3, c, 3, right, cell(x + 1, y));
    let s5 = s4 + when(left && up, cell(x - 1, y - 1));
    lemma_listed_when(s4, c, 4, left && up, cell(x - 1, y - 1));
    let s6 = s5 + when(right && up, cell(x + 1, y - 1));
    lemma_listed_when(s5, c, 5, right && up, cell(x + 1, y - 1));
    let s7 = s6 + when(left && down, cell(x - 1, y + 1));
    lemma_listed_when(s6, c, 6, left && down, cell(x - 1, y + 1));
    let s8 = s7 + when(right && down, cell(x + 1, y + 1));
    lemma_listed_when(s7, c, 7, right && down, cell(x + 1, y + 1));
    assert(s0 + when(up, cell(x, y - 1)) =~= when(up, cell(x, y - 1)));
    let ns = spec_neighbors(c);
    assert(ns == s4 || ns == s8);
    assert(listed_below(ns, c, 8));
    assert forall|k: int, l: int| 0 <= k < l < ns.len() implies !same_cell(
        #[trigger] ns[k],
        #[trigger] ns[l],
    ) by {
        assert(direction_rank(ns[k], c) < direction_rank(ns[l], c));
    }
    assert(ns.len() <= 8) by {
        if ns.len() > 8 {
            assert forall|k: int| 0 <= k < 9 implies direction_rank(#[trigger] ns[k], c) >= k by {
                lemma_rank_grows(ns, c, k);
            }
        }
    }
}

proof fn lemma_rank_grows(s: Seq<Coordinate>, c: Coordinate, k: int)
    requires
        listed_below(s, c, 8),
        0 <= k < s.len(),
    ensures
        direction_rank(s[k], c) >= k,
    decreases k,
{
    if k > 0 {
        lemma_rank_grows(s, c, k - 1);
        assert(direction_rank(s[k - 1], c) < direction_rank(s[k], c));
    }
}

/// The neighbour list is exactly the set of allowed king's moves: a position
/// one king's move from `c` is at the position of some neighbour of `c` if and
/// only if the move does not go down to a row or column index below 1 nor up to
/// one at or beyond the grid's size, and is straight or diagonal moves are
/// allowed.
pub proof fn lemma_neighbors_exact(c: Coordinate, n: Coordinate)
    requires
        -1 <= n.x - c.x <= 1,
        -1 <= n.y - c.y <= 1,
        !(n.x == c.x && n.y == c.y),
    ensures
        contains_cell(spec_neighbors(c), n) <==> {
            &&& n.y < c.y ==> n.y > 0
            &&& n.y > c.y ==> n.y < TOTAL_Y
            &&& n.x < c.x ==> n.x > 0
            &&& n.x > c.x ==> n.x < TOTAL_X
            &&& ALLOW_DIAGONAL || n.x == c.x || n.y == c.y
        },
{
    let x = c.x as int;
    let y = c.y as int;
    let up = y - 1 > 0;
    let down = y + 1 < TOTAL_Y;
    let left = x - 1 > 0;
    let right = x + 1 < TOTAL_X;
    let s0 = Seq::<Coordinate>::empty();
    let s1 = s0 + when(up, cell(x, y - 1));
    lemma_listed_when(s0, c, 0, up, cell(x, y - 1));
    let s2 = s1 + when(down, cell(x, y + 1));
    lemma_listed_when(s1, c, 1, down, cell(x, y + 1));
    let s3 = s2 + when(left, cell(x - 1, y));
    lemma_listed_when(s2, c, 2, left, cell(x - 1, y));
    let s4 = s3 + when(right, cell(x + 1, y));
    lemma_listed_when(s3, c, 3, right, cell(x + 1, y));
    let s5 = s4 + when(left && up, cell(x - 1, y - 1));
    lemma_listed_when(s4, c, 4, left && up, cell(x - 1, y - 1));
    let s6 = s5 + when(right && up, cell(x + 1, y - 1));
    lemma_listed_when(s5, c, 5, right && up, cell(x + 1, y - 1));
    let s7 = s6 + when(left && down, cell(x - 1, y + 1));
    lemma_listed_when(s6, c, 6, left && down, cell(x - 1, y + 1));
    let s8 = s7 + when(right && down, cell(x + 1, y + 1));
    lemma_listed_when(s7, c, 7, right && down, cell(x + 1, y + 1));
    assert(s0 + when(up, cell(x, y - 1)) =~= when(up, cell(x, y - 1)));
    let ns = spec_neighbors(c);
    assert(ALLOW_DIAGONAL);
    assert(ns == s8);
    if contains_cell(ns, n) {
        let i = choose|i: int| 0 <= i < ns.len() && same_cell(#[trigger] ns[i], n);
        assert(allowed_step(ns[i], c));
    } else {
        let target = cell(n.x as int, n.y as int);
        assert(!contains_cell(ns, target)) by {
            if contains_cell(ns, target) {
                let i = choose|i: int| 0 <= i < ns.len() && same_cell(#[trigger] ns[i], target);
                assert(same_cell(ns[i], n));
            }
        }
    }
}

/// The coordinates of `c` are far enough from the bounds of `i32` for its
/// neighbours to be computed.
pub open spec fn neighbors_fit(c: Coordinate) -> bool {
    &&& i32::MIN < c.x < i32::MAX
    &&& i32::MIN < c.y < i32::MAX
}

fn push_when(v: &mut Vec<Coordinate>, cond: bool, x: i32, y: i32)
    ensures
        final(v)@ == old(v)@ + when(cond, cell(x as int, y as int)),
{
    if cond {
        v.push(Coordinate { x, y, ..Default::default() });
    }
    proof {
        assert(final(v)@ =~= old(v)@ + when(cond, cell(x as int, y as int)));
    }
}

/// The neighbours of `coordinate` that the search may step to.
pub fn get_neighbors(coordinate: &Coordinate) -> (expanded: Vec<Coordinate>)
    requires
        neighbors_fit(*coordinate),
    ensures
        expanded@ == spec_neighbors(*coordinate),
{
    let x = coordinate.x;
    let y = coordinate.y;
    let up = y - 1 > 0;
    let down = y + 1 < TOTAL_Y;
    let left = x - 1 > 0;
    let right = x + 1 < TOTAL_X;
    let mut expanded: Vec<Coordinate> = Vec::new();
    push_when(&mut expanded, up, x, y - 1);
    push_when(&mut expanded, down, x, y + 1);
    push_when(&mut expanded, left, x - 1, y);
    push_when(&mut expanded, right, x + 1, y);
    if !ALLOW_DIAGONAL {
        return expanded;
    }
    push_when(&mut expanded, left && up, x - 1, y - 1);
    push_when(&mut expanded, right && up, x + 1, y - 1);
    push_when(&mut expanded, left && down, x - 1, y + 1);
    push_when(&mut expanded, right && down, x + 1, y + 1);
    expanded
}


// ---------------------------------------------------------------------------
// Ordering of the frontier
// ---------------------------------------------------------------------------

/// `s` is in non-increasing order of score.
pub open spec fn sorted_by_score(s: Seq<Coordinate>) -> bool {
    forall|i: int, j: int| 0 <= i < j < s.len() ==> s[i].score >= s[j].score
}

/// The predicate "has score `v`".
pub open spec fn with_score(v: int) -> spec_fn(Coordinate) -> bool {
    |c: Coordinate| c.score == v
}

/// Where a stable insertion by descending score puts `e` into `s`: just after
/// the last element, scanning from the end, whose score is at least `e`'s.
pub open spec fn insert_position(s: Seq<Coordinate>, e: Coordinate) -> int
    decreases s.len(),
{
    if s.len() == 0 {
        0
    } else if s.last().score >= e.score {
        s.len() as int
    } else {
        insert_position(s.drop_last(), e)
    }
}

/// `s` with `e` inserted at its place by descending score, after the elements of
/// equal score.
pub open spec fn insert_by_score(s: Seq<Coordinate>, e: Coordinate) -> Seq<Coordinate> {
    s.insert(insert_position(s, e), e)
}

/// `s` sorted by descending score, elements of equal score kept in the order they
/// had in `s` (see `lemma_sort_by_score` for what characterizes it).
pub open spec fn sort_by_score(s: Seq<Coordinate>) -> Seq<Coordinate>
    decreases s.len(),
{
    if s.len() == 0 {
        s
    } else {
        insert_by_score(sort_by_score(s.drop_last()), s.last())
    }
}

proof fn lemma_insert_position(s: Seq<Coordinate>, e: Coordinate)
    ensures
        0 <= insert_position(s, e) <= s.len(),
        insert_position(s, e) == 0 || s[insert_position(s, e) - 1].score >= e.score,
        forall|j: int| insert_position(s, e) <= j < s.len() ==> s[j].score < e.score,
    decreases s.len(),
{
    if s.len() > 0 && s.last().score < e.score {
        let p = insert_position(s, e);
        lemma_insert_position(s.drop_last(), e);
        assert forall|j: int| p <= j < s.len() implies s[j].score < e.score by {
            if j < s.len() - 1 {
                assert(s.drop_last()[j] == s[j]);
            }
        }
    }
}

proof fn lemma_filter_none(s: Seq<Coordinate>, pred: spec_fn(Coordinate) -> bool)
    requires
        forall|i: int| 0 <= i < s.len() ==> !pred(s[i]),
    ensures
        s.filter(pred) == Seq::<Coordinate>::empty(),
    decreases s.len(),
{
    reveal(Seq::filter);
    if s.len() > 0 {
        lemma_filter_none(s.drop_last(), pred);
    }
}

#[verifier::spinoff_prover]
proof fn lemma_insert_sorted(s: Seq<Coordinate>, e: Coordinate)
    requires
        sorted_by_score(s),
    ensures
        sorted_by_score(insert_by_score(s, e)),
        insert_by_score(s, e).len() == s.len() + 1,
{
    let p = insert_position(s, e);
    let r = insert_by_score(s, e);
    lemma_insert_position(s, e);
    s.insert_ensures(p, e);
    let before = |i: int| if i < p { s[i] } else if i == p { e } else { s[i - 1] };
    assert forall|i: int| 0 <= i < r.len() implies r[i] == before(i) by {
        if i > p {
            assert(r[(i - 1) + 1] == s[i - 1]);
        }
    }
    assert forall|i: int, j: int| 0 <= i < j < r.len() implies r[i].score >= r[j].score by {
        assert(r[i] == before(i) && r[j] == before(j));
        if j < p {
            assert(s[i].score >= s[j].score);
        } else if j == p {
            if i < p - 1 {
                assert(s[i].score >= s[p - 1].score);
            }
        } else if i < p {
            assert(s[i].score >= s[j - 1].score);
        } else if i > p {
            assert(s[i - 1].score >= s[j - 1].score);
        }
    }
}

proof fn lemma_insert_multiset(s: Seq<Coordinate>, e: Coordinate)
    ensures
        insert_by_score(s, e).to_multiset() == s.to_multiset().insert(e),
{
    broadcast use vstd::seq_lib::group_to_multiset_ensures;
    broadcast use vstd::multiset::group_multiset_axioms;

    let p = insert_position(s, e);
    let r = insert_by_score(s, e);
    lemma_insert_position(s, e);
    s.insert_ensures(p, e);
    assert(r.remove(p) =~= s);
    vstd::seq_lib::to_multiset_remove(r, p);
    assert(r.to_multiset().count(e) > 0);
    assert(r.to_multiset() =~= s.to_multiset().insert(e));
}

proof fn lemma_insert_filter(s: Seq<Coordinate>, e: Coordinate, v: int)
    ensures
        insert_by_score(s, e).filter(with_score(v)) == if v == e.score {
            s.filter(with_score(v)).push(e)
        } else {
            s.filter(with_score(v))
        },
{
    let p = insert_position(s, e);
    let r = insert_by_score(s, e);
    let f = with_score(v);
    lemma_insert_position(s, e);
    let a = s.subrange(0, p);
    let b = s.subrange(p, s.len() as int);
    assert(s =~= a + b);
    assert(r =~= a.push(e) + b);
    Seq::filter_distributes_over_add(a.push(e), b, f);
    Seq::filter_distributes_over_add(a, b, f);
    a.lemma_filter_push(e, f);
    if v == e.score {
        assert forall|i: int| 0 <= i < b.len() implies !f(b[i]) by {
            assert(b[i] == s[p + i]);
        }
        lemma_filter_none(b, f);
        assert(r.filter(f) =~= s.filter(f).push(e));
    }
}

/// `sort_by_score(s)` is `s` stably sorted by descending score: it is sorted, it
/// holds the same elements as many times each, and for every score the elements
/// with that score come in the order they have in `s`.
pub proof fn lemma_sort_by_score(s: Seq<Coordinate>)
    ensures
        sorted_by_score(sort_by_score(s)),
        sort_by_score(s).len() == s.len(),
        sort_by_score(s).to_multiset() == s.to_multiset(),
        forall|v: int| #[trigger] sort_by_score(s).filter(with_score(v)) == s.filter(with_score(v)),
    decreases s.len(),
{
    broadcast use vstd::seq_lib::group_to_multiset_ensures;

    if s.len() > 0 {
        let t = sort_by_score(s.drop_last());
        lemma_sort_by_score(s.drop_last());
        lemma_insert_sorted(t, s.last());
        lemma_insert_multiset(t, s.last());
        assert(s.drop_last().push(s.last()) =~= s);
        assert forall|v: int| #[trigger] sort_by_score(s).filter(with_score(v)) == s.filter(
            with_score(v),
        ) by {
            lemma_insert_filter(t, s.last(), v);
            s.drop_last().lemma_filter_push(s.last(), with_score(v));
        }
    } else {
        assert(sort_by_score(s).to_multiset() =~= s.to_multiset());
    }
}

/// `sort_by_score(s)` is the only sequence that is sorted by descending score
/// and, for every score, holds the elements of `s` with that score in the order
/// they have in `s`: the stable sort of `s` by descending score.
pub proof fn lemma_sort_by_score_unique(s: Seq<Coordinate>, r: Seq<Coordinate>)
    requires
        sorted_by_score(r),
        forall|v: int| #[trigger] r.filter(with_score(v)) == s.filter(with_score(v)),
    ensures
        r == sort_by_score(s),
{
    lemma_sort_by_score(s);
    let t = sort_by_score(s);
    assert forall|v: int| #[trigger] r.filter(with_score(v)) == t.filter(with_score(v)) by {
        assert(r.filter(with_score(v)) == s.filter(with_score(v)));
    }
    lemma_sorted_same_filters_equal(r, t);
}

/// The filter of `s` by the score of one of its elements is not empty.
proof fn lemma_filter_nonempty(s: Seq<Coordinate>, k: int)
    requires
        0 <= k < s.len(),
    ensures
        s.filter(with_score(s[k].score as int)).len() > 0,
{
    broadcast use vstd::seq_lib::group_filter_ensures;

    s.lemma_filter_contains(with_score(s[k].score as int), k);
}

proof fn lemma_sorted_same_filters_equal(r: Seq<Coordinate>, t: Seq<Coordinate>)
    requires
        sorted_by_score(r),
        sorted_by_score(t),
        forall|v: int| #[trigger] r.filter(with_score(v)) == t.filter(with_score(v)),
    ensures
        r == t,
    decreases r.len() + t.len(),
{
    broadcast use vstd::seq_lib::group_filter_ensures;

    if r.len() == 0 || t.len() == 0 {
        if r.len() > 0 {
            lemma_filter_nonempty(r, 0);
            lemma_filter_none(t, with_score(r[0].score as int));
        }
        if t.len() > 0 {
            lemma_filter_nonempty(t, 0);
            lemma_filter_none(r, with_score(t[0].score as int));
        }
        assert(r =~= t);
    } else {
        let mr = r.last().score as int;
        let mt = t.last().score as int;
        // the lowest scores agree
        lemma_filter_nonempty(r, r.len() - 1);
        lemma_filter_nonempty(t, t.len() - 1);
        let fr = r.filter(with_score(mr));
        assert(fr.contains(fr[0]));
        t.lemma_filter_contains_rev(with_score(mr), fr[0]);
        let ft = t.filter(with_score(mt));
        assert(ft.contains(ft[0]));
        r.lemma_filter_contains_rev(with_score(mt), ft[0]);
        assert(mr == mt) by {
            let i = choose|i: int| 0 <= i < t.len() && t[i] == fr[0];
            let j = choose|j: int| 0 <= j < r.len() && r[j] == ft[0];
            if i < t.len() - 1 {
                assert(t[i].score >= t[t.len() - 1].score);
            }
            if j < r.len() - 1 {
                assert(r[j].score >= r[r.len() - 1].score);
            }
        }
        // so do the last elements: each is the last of its filter by that score
        let f = with_score(mr);
        let r2 = r.drop_last();
        let t2 = t.drop_last();
        assert(r2.push(r.last()) =~= r);
        assert(t2.push(t.last()) =~= t);
        r2.lemma_filter_push(r.last(), f);
        t2.lemma_filter_push(t.last(), f);
        assert(r.last() == t.last()) by {
            assert(r.filter(f).last() == r.last());
            assert(t.filter(f).last() == t.last());
        }
        assert forall|v: int| #[trigger] r2.filter(with_score(v)) == t2.filter(with_score(v)) by {
            r2.lemma_filter_push(r.last(), with_score(v));
            t2.lemma_filter_push(t.last(), with_score(v));
            if v == mr {
                assert(r2.filter(with_score(v)) =~= r.filter(with_score(v)).drop_last());
                assert(t2.filter(with_score(v)) =~= t.filter(with_score(v)).drop_last());
            }
        }
        assert(sorted_by_score(r2)) by {
            assert forall|i: int, j: int| 0 <= i < j < r2.len() implies r2[i].score >= r2[j].score by {
                assert(r[i].score >= r[j].score);
            }
        }
        assert(sorted_by_score(t2)) by {
            assert forall|i: int, j: int| 0 <= i < j < t2.len() implies t2[i].score >= t2[j].score by {
                assert(t[i].score >= t[j].score);
            }
        }
        lemma_sorted_same_filters_equal(r2, t2);
        assert(r =~= t);
    }
}

/// Position at which `e` is inserted into `sorted` by descending score.
fn insert_index(sorted: &Vec<Coordinate>, e: &Coordinate) -> (k: usize)
    ensures
        k == insert_position(sorted@, *e),
{
    let mut k: usize = sorted.len();
    assert(sorted@.take(k as int) =~= sorted@);
    while k > 0 && sorted[k - 1].score < e.score
        invariant
            k <= sorted.len(),
            insert_position(sorted@.take(k as int), *e) == insert_position(sorted@, *e),
        decreases k,
    {
        assert(sorted@.take(k as int).drop_last() =~= sorted@.take(k - 1));
        k = k - 1;
    }
    k
}

/// Sorts `v` by descending score, keeping the order of equal scores.
fn sort_by_descending_score(v: &mut Vec<Coordinate>)
    ensures
        final(v)@ == sort_by_score(old(v)@),
{
    let mut sorted: Vec<Coordinate> = Vec::new();
    let mut i: usize = 0;
    while i < v.len()
        invariant
            i <= v.len(),
            v@ == old(v)@,
            sorted@ == sort_by_score(v@.take(i as int)),
        decreases v.len() - i,
    {
        let e = v[i];
        let k = insert_index(&sorted, &e);
        proof {
            lemma_insert_position(sorted@, e);
        }
        assert(v@.take(i + 1).last() == e);
        sorted.insert(k, e);
        assert(v@.take(i + 1).drop_last() =~= v@.take(i as int));
        i = i + 1;
    }
    assert(v@.take(v.len() as int) =~= v@);
    *v = sorted;
}


/// The node the engine expands next: the last of the frontier once sorted by
/// descending score.
pub open spec fn select(frontier: Seq<Coordinate>) -> Coordinate {
    sort_by_score(frontier).last()
}

/// The node that the engine expands is one of the frontier's, no node of the
/// frontier has a lower score, and of the nodes with that score it is the one
/// that comes last in the frontier.
pub proof fn lemma_select_lowest_score(frontier: Seq<Coordinate>)
    requires
        frontier.len() > 0,
    ensures
        frontier.contains(select(frontier)),
        forall|i: int| 0 <= i < frontier.len() ==> select(frontier).score <= frontier[i].score,
        select(frontier) == frontier.filter(with_score(select(frontier).score as int)).last(),
{
    broadcast use vstd::seq_lib::group_to_multiset_ensures;

    let r = sort_by_score(frontier);
    let n = select(frontier);
    let f = with_score(n.score as int);
    lemma_sort_by_score(frontier);
    assert(r.contains(n)) by {
        assert(r[r.len() - 1] == n);
    }
    assert(r.to_multiset().count(n) > 0);
    assert forall|i: int| 0 <= i < frontier.len() implies n.score <= frontier[i].score by {
        assert(frontier.to_multiset().count(frontier[i]) > 0);
        assert(r.contains(frontier[i]));
        let j = choose|j: int| 0 <= j < r.len() && r[j] == frontier[i];
        if j < r.len() - 1 {
            assert(r[j].score >= r[r.len() - 1].score);
        }
    }
    assert(r.drop_last().push(n) =~= r);
    r.drop_last().lemma_filter_push(n, f);
    assert(r.filter(f) == frontier.filter(f));
}

// ---------------------------------------------------------------------------
// The engine
// ---------------------------------------------------------------------------

/// What the engine works on: the goal, the nodes still to expand, and those
/// expanded so far (the last one most recently).
pub struct AStarPayload {
    pub goal: Coordinate,
    pub frontier: Vec<Coordinate>,
    pub expanded: Vec<Coordinate>,
}

/// What one step of the engine found.
#[derive(PartialEq, Eq, Debug, Structural, Clone, Copy)]
pub enum AStarStatus {
    /// The node just expanded is at the goal.
    Found,
    /// There was no node left to expand.
    Failed,
    /// A node was expanded and the search goes on.
    Pending,
}

/// `a` and `b` are at the same position.
pub open spec fn same_cell(a: Coordinate, b: Coordinate) -> bool {
    a.x == b.x && a.y == b.y
}

/// Some element of `cells` is at the position of `c`.
pub open spec fn contains_cell(cells: Seq<Coordinate>, c: Coordinate) -> bool {
    exists|i: int| 0 <= i < cells.len() && same_cell(#[trigger] cells[i], c)
}

/// The predicate "not at the position of any element of `cells`".
pub open spec fn not_in(cells: Seq<Coordinate>) -> spec_fn(Coordinate) -> bool {
    |c: Coordinate| !contains_cell(cells, c)
}

/// The frontier node made of neighbour `n` reached at path cost `cost`: its
/// score is that cost plus the heuristic to `goal`.
pub open spec fn scored(n: Coordinate, cost: int, goal: Coordinate) -> Coordinate {
    Coordinate { x: n.x, y: n.y, cost: cost as i32, score: (cost + manhattan(n, goal)) as i32 }
}

/// The nodes that expanding `node` adds to the frontier: its neighbours at no
/// position in `expanded`, in neighbour order, each at cost one more than
/// `node`'s.
pub open spec fn discovered(node: Coordinate, expanded: Seq<Coordinate>, goal: Coordinate) -> Seq<
    Coordinate,
> {
    spec_neighbors(node).filter(not_in(expanded)).map_values(
        |n: Coordinate| scored(n, node.cost + 1, goal),
    )
}

/// The `i32` arithmetic of one engine step does not overflow: the scores the
/// frontier is sorted by can be negated (they are compared only when there are
/// two nodes or more), and unless the node expanded is at the goal, its
/// neighbours, its cost plus one, and the heuristic and score of each neighbour
/// it adds can be computed.
pub open spec fn step_fits(frontier: Seq<Coordinate>, expanded: Seq<Coordinate>, goal: Coordinate) -> bool {
    let node = select(frontier);
    let neighbors = spec_neighbors(node);
    let visited = expanded.push(node);
    &&& frontier.len() >= 2 ==> forall|i: int| 0 <= i < frontier.len() ==> frontier[i].score > i32::MIN
    &&& (frontier.len() > 0 && !same_cell(node, goal)) ==> {
        &&& neighbors_fit(node)
        &&& node.cost < i32::MAX
        &&& forall|k: int|
            0 <= k < neighbors.len() && !contains_cell(visited, #[trigger] neighbors[k]) ==> {
                &&& manhattan_fits(neighbors[k], goal)
                &&& node.cost + 1 + manhattan(neighbors[k], goal) <= i32::MAX
            }
    }
}

/// What one engine step reports on `frontier`.
pub open spec fn step_status(frontier: Seq<Coordinate>, goal: Coordinate) -> AStarStatus {
    if frontier.len() == 0 {
        AStarStatus::Failed
    } else if same_cell(select(frontier), goal) {
        AStarStatus::Found
    } else {
        AStarStatus::Pending
    }
}

/// A step fails exactly on an empty frontier, reports `Found` exactly when the
/// node it expands has both the goal's column and the goal's row, and reports
/// `Pending` whenever that node is anywhere else.
pub proof fn lemma_step_status(frontier: Seq<Coordinate>, goal: Coordinate)
    ensures
        step_status(frontier, goal) == AStarStatus::Failed <==> frontier.len() == 0,
        step_status(frontier, goal) == AStarStatus::Found <==> (frontier.len() > 0 && select(
            frontier,
        ).x == goal.x && select(frontier).y == goal.y),
        step_status(frontier, goal) == AStarStatus::Pending <==> (frontier.len() > 0 && (select(
            frontier,
        ).x != goal.x || select(frontier).y != goal.y)),
{
}

/// The expanded nodes after one engine step: the node selected is appended.
pub open spec fn step_expanded(frontier: Seq<Coordinate>, expanded: Seq<Coordinate>) -> Seq<
    Coordinate,
> {
    if frontier.len() == 0 {
        expanded
    } else {
        expanded.push(select(frontier))
    }
}

/// The frontier after one engine step: sorted by descending score without its
/// last node, followed, unless that node is at the goal, by the nodes its
/// expansion discovers.
pub open spec fn step_frontier(
    frontier: Seq<Coordinate>,
    expanded: Seq<Coordinate>,
    goal: Coordinate,
) -> Seq<Coordinate> {
    if frontier.len() == 0 {
        frontier
    } else if same_cell(select(frontier), goal) {
        sort_by_score(frontier).drop_last()
    } else {
        sort_by_score(frontier).drop_last() + discovered(
            select(frontier),
            step_expanded(frontier, expanded),
            goal,
        )
    }
}

/// Whether some element of `cells` is at the position of `c`.
fn has_cell(cells: &Vec<Coordinate>, c: &Coordinate) -> (found: bool)
    ensures
        found == contains_cell(cells@, *c),
{
    let mut j: usize = 0;
    while j < cells.len()
        invariant
            j <= cells.len(),
            forall|k: int| 0 <= k < j ==> !same_cell(#[trigger] cells@[k], *c),
        decreases cells.len() - j,
    {
        if cells[j].x == c.x && cells[j].y == c.y {
            return true;
        }
        j = j + 1;
    }
    false
}

/// One step of the search. With an empty frontier it fails and changes nothing.
/// Otherwise it sorts the frontier by descending score (stably), moves its last
/// node, one of lowest score, to the end of `expanded`, and reports `Found` if
/// that node is at the goal. Else it appends to the frontier, for each
/// neighbour of the node at no expanded position, a node one step costlier
/// scored with the heuristic, and reports `Pending`.
pub fn astar_engine(payload: &mut AStarPayload) -> (status: AStarStatus)
    requires
        step_fits(old(payload).frontier@, old(payload).expanded@, old(payload).goal),
    ensures
        final(payload).goal == old(payload).goal,
        status == step_status(old(payload).frontier@, old(payload).goal),
        final(payload).frontier@ == step_frontier(
            old(payload).frontier@,
            old(payload).expanded@,
            old(payload).goal,
        ),
        final(payload).expanded@ == step_expanded(old(payload).frontier@, old(payload).expanded@),
{
    if payload.frontier.len() == 0 {
        return AStarStatus::Failed;
    }
    let ghost old_frontier = payload.frontier@;
    sort_by_descending_score(&mut payload.frontier);
    let frontier_node = match payload.frontier.pop() {
        Some(node) => node,
        None => {
            return AStarStatus::Failed;
        },
    };
    payload.expanded.push(frontier_node);
    let expanded_node = frontier_node;
    if expanded_node.x == payload.goal.x && expanded_node.y == payload.goal.y {
        return AStarStatus::Found;
    }
    let cost = expanded_node.cost + 1;
    let neighbors = get_neighbors(&expanded_node);
    let ghost base = payload.frontier@;
    let ghost visited = payload.expanded@;
    let ghost make = |n: Coordinate| scored(n, expanded_node.cost + 1, payload.goal);
    let mut i: usize = 0;
    while i < neighbors.len()
        invariant
            i <= neighbors.len(),
            neighbors@ == spec_neighbors(expanded_node),
            payload.expanded@ == visited,
            payload.goal == old(payload).goal,
            cost == expanded_node.cost + 1,
            make == (|n: Coordinate| scored(n, expanded_node.cost + 1, payload.goal)),
            payload.frontier@ == base + neighbors@.take(i as int).filter(not_in(visited)).map_values(make),
            forall|k: int|
                0 <= k < neighbors@.len() && !contains_cell(visited, #[trigger] neighbors@[k]) ==> {
                    &&& manhattan_fits(neighbors@[k], payload.goal)
                    &&& expanded_node.cost + 1 + manhattan(neighbors@[k], payload.goal) <= i32::MAX
                },
        decreases neighbors.len() - i,
    {
        let neighbor = neighbors[i];
        let duplicate_found = has_cell(&payload.expanded, &neighbor);
        let ghost prev = neighbors@.take(i as int);
        assert(neighbors@.take(i + 1) =~= prev.push(neighbor));
        proof {
            prev.lemma_filter_push(neighbor, not_in(visited));
        }
        if !duplicate_found {
            let h_cost = get_manhattan_distance(&neighbor, payload.goal);
            payload.frontier.push(Coordinate { x: neighbor.x, y: neighbor.y, cost, score: cost + h_cost });
            assert(prev.push(neighbor).filter(not_in(visited)).map_values(make) =~= prev.filter(
                not_in(visited),
            ).map_values(make).push(make(neighbor)));
        }
        i = i + 1;
    }
    assert(neighbors@.take(neighbors.len() as int) =~= neighbors@);
    AStarStatus::Pending
}

/// Every node that expanding `node` adds to the frontier is at the position of
/// one of `node`'s neighbours and of no expanded node, no two of them share a
/// position, and each costs one more than `node`, scored with the heuristic.
pub proof fn lemma_discovered(node: Coordinate, expanded: Seq<Coordinate>, goal: Coordinate)
    ensures
        discovered(node, expanded, goal).len() <= spec_neighbors(node).len(),
        forall|k: int|
            0 <= k < discovered(node, expanded, goal).len() ==> {
                let d = #[trigger] discovered(node, expanded, goal)[k];
                &&& contains_cell(spec_neighbors(node), d)
                &&& !contains_cell(expanded, d)
                &&& d.cost == (node.cost + 1) as i32
                &&& d.score == (node.cost + 1 + manhattan(d, goal)) as i32
            },
        forall|k: int, l: int|
            0 <= k < l < discovered(node, expanded, goal).len() ==> !same_cell(
                #[trigger] discovered(node, expanded, goal)[k],
                #[trigger] discovered(node, expanded, goal)[l],
            ),
{
    broadcast use vstd::seq_lib::group_filter_ensures;

    let ns = spec_neighbors(node);
    let kept = ns.filter(not_in(expanded));
    let d = discovered(node, expanded, goal);
    lemma_neighbors(node);
    lemma_filter_distinct_cells(ns, not_in(expanded));
    assert forall|k: int| 0 <= k < d.len() implies {
        &&& contains_cell(ns, #[trigger] d[k])
        &&& !contains_cell(expanded, d[k])
        &&& d[k].cost == (node.cost + 1) as i32
        &&& d[k].score == (node.cost + 1 + manhattan(d[k], goal)) as i32
    } by {
        assert(kept.contains(kept[k]));
        ns.lemma_filter_contains_rev(not_in(expanded), kept[k]);
        let j = choose|j: int| 0 <= j < ns.len() && ns[j] == kept[k];
        assert(same_cell(ns[j], d[k]));
        assert(not_in(expanded)(kept[k]));
    }
    assert forall|k: int, l: int| 0 <= k < l < d.len() implies !same_cell(
        #[trigger] d[k],
        #[trigger] d[l],
    ) by {
        assert(!same_cell(kept[k], kept[l]));
    }
}

/// No two elements of `s` share a position.
pub open spec fn distinct_cells(s: Seq<Coordinate>) -> bool {
    forall|k: int, l: int| 0 <= k < l < s.len() ==> !same_cell(#[trigger] s[k], #[trigger] s[l])
}

proof fn lemma_filter_distinct_cells(s: Seq<Coordinate>, pred: spec_fn(Coordinate) -> bool)
    requires
        distinct_cells(s),
    ensures
        distinct_cells(s.filter(pred)),
    decreases s.len(),
{
    broadcast use vstd::seq_lib::group_filter_ensures;

    reveal(Seq::filter);
    if s.len() > 0 {
        let t = s.drop_last();
        assert(distinct_cells(t)) by {
            assert forall|k: int, l: int| 0 <= k < l < t.len() implies !same_cell(
                #[trigger] t[k],
                #[trigger] t[l],
            ) by {
                assert(t[k] == s[k] && t[l] == s[l]);
            }
        }
        lemma_filter_distinct_cells(t, pred);
        if pred(s.last()) {
            let f = t.filter(pred);
            let g = f.push(s.last());
            assert forall|k: int, l: int| 0 <= k < l < g.len() implies !same_cell(
                #[trigger] g[k],
                #[trigger] g[l],
            ) by {
                if l == g.len() - 1 {
                    assert(f.contains(f[k]));
                    t.lemma_filter_contains_rev(pred, f[k]);
                    let j = choose|j: int| 0 <= j < t.len() && t[j] == f[k];
                    assert(s[j] == f[k]);
                }
            }
        }
    }
}

/// What one engine step does to the nodes: the frontier after the step, with
/// the node expanded, holds exactly the nodes of the frontier before it and
/// those the step discovered, each as many times.
pub proof fn lemma_step_keeps_nodes(
    frontier: Seq<Coordinate>,
    expanded: Seq<Coordinate>,
    goal: Coordinate,
)
    requires
        frontier.len() > 0,
    ensures
        step_frontier(frontier, expanded, goal).to_multiset().insert(select(frontier)) == if same_cell(
            select(frontier),
            goal,
        ) {
            frontier.to_multiset()
        } else {
            frontier.to_multiset().add(
                discovered(select(frontier), expanded.push(select(frontier)), goal).to_multiset(),
            )
        },
{
    broadcast use vstd::seq_lib::group_to_multiset_ensures;
    broadcast use vstd::multiset::group_multiset_axioms;

    let r = sort_by_score(frontier);
    let n = select(frontier);
    lemma_sort_by_score(frontier);
    let rest = r.drop_last();
    assert(rest.push(n) =~= r);
    assert(rest.to_multiset().insert(n) == frontier.to_multiset());
    if !same_cell(n, goal) {
        let d = discovered(n, expanded.push(n), goal);
        vstd::seq_lib::lemma_multiset_commutative(rest, d);
        assert((rest + d).to_multiset().insert(n) =~= frontier.to_multiset().add(d.to_multiset()));
    }
}

/// A search that starts on the grid stays on it: if every frontier node lies
/// on the grid, so does every node of the frontier after a step, and the node
/// the step expands.
pub proof fn lemma_step_stays_on_grid(
    frontier: Seq<Coordinate>,
    expanded: Seq<Coordinate>,
    goal: Coordinate,
)
    requires
        forall|i: int| 0 <= i < frontier.len() ==> in_grid(#[trigger] frontier[i]),
    ensures
        forall|i: int|
            0 <= i < step_frontier(frontier, expanded, goal).len() ==> in_grid(
                #[trigger] step_frontier(frontier, expanded, goal)[i],
            ),
        frontier.len() > 0 ==> in_grid(select(frontier)),
{
    broadcast use vstd::seq_lib::group_to_multiset_ensures;

    if frontier.len() > 0 {
        let r = sort_by_score(frontier);
        let n = select(frontier);
        lemma_sort_by_score(frontier);
        assert forall|i: int| 0 <= i < r.len() implies in_grid(#[trigger] r[i]) by {
            assert(r.contains(r[i]));
            assert(r.to_multiset().count(r[i]) > 0);
            assert(frontier.contains(r[i]));
        }
        assert(in_grid(r[r.len() - 1]));
        let rest = r.drop_last();
        if !same_cell(n, goal) {
            let d = discovered(n, expanded.push(n), goal);
            lemma_discovered(n, expanded.push(n), goal);
            lemma_neighbors(n);
            let out = rest + d;
            assert forall|i: int| 0 <= i < out.len() implies in_grid(#[trigger] out[i]) by {
                if i < rest.len() {
                    assert(out[i] == r[i]);
                } else {
                    assert(out[i] == d[i - rest.len()]);
                    assert(contains_cell(spec_neighbors(n), d[i - rest.len()]));
                    let j = choose|j: int|
                        0 <= j < spec_neighbors(n).len() && same_cell(
                            #[trigger] spec_neighbors(n)[j],
                            d[i - rest.len()],
                        );
                    assert(one_step_from(spec_neighbors(n)[j], n));
                }
            }
        } else {
            assert forall|i: int| 0 <= i < rest.len() implies in_grid(#[trigger] rest[i]) by {
                assert(rest[i] == r[i]);
            }
        }
    }
}

} // verus!
