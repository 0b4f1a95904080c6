use vstd::prelude::*;

use crate::anfield::Anfield;
use crate::cell::{flat_index, lemma_flat_index_bounds, lemma_flat_index_injective, Cell};
use crate::piece::{Piece, PossiblePlacement};
use crate::strategy::{sizes_ok, Strategy};
use crate::symbols::CellRole;

verus! {

/// The strategy that plays toward the opponent.
pub struct Attack;

/// A role that belongs to the local player.
pub open spec fn is_own(r: CellRole) -> bool {
    r == CellRole::OwnSymbol || r == CellRole::OwnLatestMove
}

/// A role that belongs to the opponent.
pub open spec fn is_opponent(r: CellRole) -> bool {
    r == CellRole::OpponentSymbol || r == CellRole::OpponentLatestMove
}

/// The point of a cell.
pub open spec fn pt(c: Cell) -> (int, int) {
    (c.x as int, c.y as int)
}

pub open spec fn inside(f: &Anfield, q: (int, int)) -> bool {
    0 <= q.0 < f.width && 0 <= q.1 < f.height
}

/// Cell `q` lies on the field and is the local player's.
pub open spec fn own_at(f: &Anfield, q: (int, int)) -> bool {
    f.role_at(q.0, q.1) matches Some(r) && is_own(r)
}

/// Cell `q` lies on the field and is the opponent's.
pub open spec fn opponent_at(f: &Anfield, q: (int, int)) -> bool {
    f.role_at(q.0, q.1) matches Some(r) && is_opponent(r)
}

/// Where occupied cell `i` of the piece lands when the piece is anchored at
/// `(x, y)`.
pub open spec fn placed(p: &Piece, i: int, x: int, y: int) -> (int, int) {
    (x + p.shape@[i].x, y + p.shape@[i].y)
}

/// How many of the `shape` cells, anchored at `(x, y)`, land on the local
/// player's cells.
pub open spec fn own_overlaps(f: &Anfield, shape: Seq<Cell>, x: int, y: int) -> nat
    decreases shape.len(),
{
    if shape.len() == 0 {
        0
    } else {
        own_overlaps(f, shape.drop_last(), x, y) + if own_at(
            f,
            (x + shape.last().x, y + shape.last().y),
        ) {
            1nat
        } else {
            0nat
        }
    }
}

/// The piece anchored at `(x, y)` lies on the field, touches no opponent
/// cell, and covers exactly one of the local player's cells.
pub open spec fn legal(f: &Anfield, p: &Piece, x: int, y: int) -> bool {
    &&& forall|i: int| 0 <= i < p.shape@.len() ==> inside(f, #[trigger] placed(p, i, x, y))
    &&& forall|i: int| 0 <= i < p.shape@.len() ==> !opponent_at(f, #[trigger] placed(p, i, x, y))
    &&& own_overlaps(f, p.shape@, x, y) == 1
}

/// Cells `a` and `b` share a side.
pub open spec fn adjacent(a: (int, int), b: (int, int)) -> bool {
    (a.0 == b.0 && (a.1 == b.1 + 1 || a.1 + 1 == b.1)) || (a.1 == b.1 && (a.0 == b.0 + 1 || a.0
        + 1 == b.0))
}

/// A search may enter cell `q`: it lies on the field and is not the local
/// player's.
pub open spec fn walkable(f: &Anfield, q: (int, int)) -> bool {
    inside(f, q) && !own_at(f, q)
}

/// The cells of `s` and the cells that a search enters from them in one
/// move.
pub open spec fn step(f: &Anfield, s: Set<(int, int)>) -> Set<(int, int)> {
    s.union(
        Set::new(
            |q: (int, int)| walkable(f, q) && exists|p: (int, int)| #[trigger] s.contains(p) && adjacent(p, q),
        ),
    )
}

/// The cells that a search from `start` reaches in at most `k` moves.
pub open spec fn reach(f: &Anfield, start: (int, int), k: nat) -> Set<(int, int)>
    decreases k,
{
    if k == 0 {
        set![start]
    } else {
        step(f, reach(f, start, (k - 1) as nat))
    }
}

/// Some cell of `s` is the opponent's.
pub open spec fn hits(f: &Anfield, s: Set<(int, int)>) -> bool {
    exists|q: (int, int)| #[trigger] s.contains(q) && opponent_at(f, q)
}

/// `k` moves are the fewest in which a search from `start` reaches an
/// opponent cell.
pub open spec fn first_hit(f: &Anfield, start: (int, int), k: nat) -> bool {
    &&& hits(f, reach(f, start, k))
    &&& forall|j: nat| j < k ==> !hits(f, #[trigger] reach(f, start, j))
}

/// The fewest moves from `start` to an opponent cell, never through the
/// local player's cells; `usize::MAX` when no opponent cell can be reached.
pub open spec fn distance(f: &Anfield, start: (int, int)) -> int {
    if exists|k: nat| first_hit(f, start, k) {
        (choose|k: nat| first_hit(f, start, k)) as int
    } else {
        usize::MAX as int
    }
}

/// The fewest moves are one number.
pub proof fn lemma_first_hit_unique(f: &Anfield, start: (int, int), a: nat, b: nat)
    requires
        first_hit(f, start, a),
        first_hit(f, start, b),
    ensures
        a == b,
{
    if a < b {
        assert(!hits(f, reach(f, start, a)));
    } else if b < a {
        assert(!hits(f, reach(f, start, b)));
    }
}

pub proof fn lemma_distance_is_first_hit(f: &Anfield, start: (int, int), k: nat)
    requires
        first_hit(f, start, k),
    ensures
        distance(f, start) == k,
{
    let c = choose|c: nat| first_hit(f, start, c);
    lemma_first_hit_unique(f, start, c, k);
}

/// Once a search stops growing it never grows again.
proof fn lemma_reach_stable(f: &Anfield, start: (int, int), level: nat, k: nat)
    requires
        reach(f, start, level + 1) == reach(f, start, level),
        level <= k,
    ensures
        reach(f, start, k) == reach(f, start, level),
    decreases k - level,
{
    if k > level {
        lemma_reach_stable(f, start, level, (k - 1) as nat);
        assert(reach(f, start, k) == step(f, reach(f, start, (k - 1) as nat)));
    }
}

/// Cell `q` may be entered from one of the first `i` cells of `fr`.
pub open spec fn entered_from(f: &Anfield, fr: Seq<Cell>, i: int, q: (int, int)) -> bool {
    walkable(f, q) && exists|a: int| 0 <= a < i && adjacent(pt(#[trigger] fr[a]), q)
}

/// One more move from level `level` enters exactly the cells next to the
/// newest cells `fr` of that level: the cells next to older ones are in
/// already.
proof fn lemma_reach_next(f: &Anfield, start: (int, int), level: nat, fr: Seq<Cell>)
    requires
        forall|i: int| 0 <= i < fr.len() ==> reach(f, start, level).contains(pt(#[trigger] fr[i])),
        forall|q: (int, int)| #[trigger]
            reach(f, start, level).contains(q) ==> (level > 0 && reach(
                f,
                start,
                (level - 1) as nat,
            ).contains(q)) || exists|i: int| 0 <= i < fr.len() && pt(#[trigger] fr[i]) == q,
    ensures
        forall|q: (int, int)| #[trigger]
            reach(f, start, level + 1).contains(q) <==> reach(f, start, level).contains(q)
                || entered_from(f, fr, fr.len() as int, q),
{
    let cur = reach(f, start, level);
    assert(reach(f, start, level + 1) == step(f, cur));
    assert forall|q: (int, int)| #[trigger]
        reach(f, start, level + 1).contains(q) implies cur.contains(q) || entered_from(
        f,
        fr,
        fr.len() as int,
        q,
    ) by {
        if !cur.contains(q) {
            let p = choose|p: (int, int)| #[trigger] cur.contains(p) && adjacent(p, q);
            if exists|i: int| 0 <= i < fr.len() && pt(#[trigger] fr[i]) == p {
                let i = choose|i: int| 0 <= i < fr.len() && pt(#[trigger] fr[i]) == p;
                assert(adjacent(pt(fr[i]), q));
            } else {
                let prev = reach(f, start, (level - 1) as nat);
                assert(prev.contains(p));
                assert(cur == step(f, prev));
                assert(cur.contains(q));
            }
        }
    }
    assert forall|q: (int, int)|
        cur.contains(q) || entered_from(f, fr, fr.len() as int, q) implies #[trigger] reach(
        f,
        start,
        level + 1,
    ).contains(q) by {
        if !cur.contains(q) {
            let a = choose|a: int| 0 <= a < fr.len() && adjacent(pt(#[trigger] fr[a]), q);
            assert(cur.contains(pt(fr[a])));
        }
    }
}

fn own_role(r: CellRole) -> (b: bool)
    ensures
        b == is_own(r),
{
    match r {
        CellRole::OwnSymbol | CellRole::OwnLatestMove => true,
        _ => false,
    }
}

fn opponent_role(r: CellRole) -> (b: bool)
    ensures
        b == is_opponent(r),
{
    match r {
        CellRole::OpponentSymbol | CellRole::OpponentLatestMove => true,
        _ => false,
    }
}

/// The cells of a `width` by `height` grid that share a side with `(x, y)`:
/// left, right, above, below, those that exist.
pub open spec fn neighbor_list(x: usize, y: usize, width: usize, height: usize) -> Seq<(usize, usize)> {
    (if x > 0 { seq![((x - 1) as usize, y)] } else { seq![] }) + (if x + 1 < width {
        seq![((x + 1) as usize, y)]
    } else {
        seq![]
    }) + (if y > 0 { seq![(x, (y - 1) as usize)] } else { seq![] }) + (if y + 1 < height {
        seq![(x, (y + 1) as usize)]
    } else {
        seq![]
    })
}

fn neighbors(x: usize, y: usize, width: usize, height: usize) -> (r: Vec<(usize, usize)>)
    requires
        x < width,
        y < height,
    ensures
        r@ == neighbor_list(x, y, width, height),
        forall|j: int|
            0 <= j < r@.len() ==> (#[trigger] r@[j]).0 < width && r@[j].1 < height && adjacent(
                (x as int, y as int),
                (r@[j].0 as int, r@[j].1 as int),
            ),
        forall|qx: int, qy: int|
            0 <= qx < width && 0 <= qy < height && adjacent((x as int, y as int), (qx, qy))
                ==> exists|j: int| 0 <= j < r@.len() && #[trigger] r@[j] == (qx as usize, qy as usize),
{
    let mut result: Vec<(usize, usize)> = Vec::new();
    if x > 0 {
        result.push((x - 1, y));
    }
    if x + 1 < width {
        result.push((x + 1, y));
    }
    if y > 0 {
        result.push((x, y - 1));
    }
    if y + 1 < height {
        result.push((x, y + 1));
    }
    proof {
        assert(result@ =~= neighbor_list(x, y, width, height));
        assert forall|qx: int, qy: int|
            0 <= qx < width && 0 <= qy < height && adjacent(
                (x as int, y as int),
                (qx, qy),
            ) implies exists|j: int|
            0 <= j < result@.len() && #[trigger] result@[j] == (qx as usize, qy as usize) by {
            let t = (qx as usize, qy as usize);
            if qx + 1 == x {
                assert(result@[0] == t);
            } else if qx == x + 1 {
                let j = if x > 0 { 1int } else { 0int };
                assert(result@[j] == t);
            } else if qy + 1 == y {
                let j = (if x > 0 { 1int } else { 0int }) + (if x + 1 < width { 1int } else { 0int });
                assert(result@[j] == t);
            } else {
                let j = (if x > 0 { 1int } else { 0int }) + (if x + 1 < width { 1int } else { 0int }) + (if y > 0 { 1int } else { 0int });
                assert(result@[j] == t);
            }
        }
    }
    result
}

/// Cell `c` is one of the first `j` cells of `nbrs`.
pub open spec fn in_prefix(nbrs: Seq<(usize, usize)>, j: int, c: (int, int)) -> bool {
    exists|b: int| 0 <= b < j && #[trigger] nbrs[b] == (c.0 as usize, c.1 as usize)
}

/// Cell `c` is in the search so far: reached before this level, or entered
/// from one of the first `i` cells of the level's newest cells `fr`.
pub open spec fn seen(f: &Anfield, cur: Set<(int, int)>, fr: Seq<Cell>, i: int, c: (int, int)) -> bool {
    cur.contains(c) || entered_from(f, fr, i, c)
}

/// As `seen`, and also entered from cell `i` of `fr` through one of the
/// first `j` of its neighbours `nbrs`.
pub open spec fn seen_partly(
    f: &Anfield,
    cur: Set<(int, int)>,
    fr: Seq<Cell>,
    i: int,
    nbrs: Seq<(usize, usize)>,
    j: int,
    c: (int, int),
) -> bool {
    seen(f, cur, fr, i, c) || (walkable(f, c) && in_prefix(nbrs, j, c))
}

/// How many entries of `s` are set.
pub open spec fn count_true(s: Seq<bool>) -> nat
    decreases s.len(),
{
    if s.len() == 0 {
        0
    } else {
        count_true(s.drop_last()) + if s.last() {
            1nat
        } else {
            0nat
        }
    }
}

proof fn lemma_count_true_le(s: Seq<bool>)
    ensures
        count_true(s) <= s.len(),
    decreases s.len(),
{
    if s.len() > 0 {
        lemma_count_true_le(s.drop_last());
    }
}

proof fn lemma_count_true_set(s: Seq<bool>, k: int)
    requires
        0 <= k < s.len(),
        !s[k],
    ensures
        count_true(s.update(k, true)) == count_true(s) + 1,
    decreases s.len(),
{
    let t = s.update(k, true);
    if k == s.len() - 1 {
        assert(t.drop_last() =~= s.drop_last());
    } else {
        lemma_count_true_set(s.drop_last(), k);
        assert(t.drop_last() =~= s.drop_last().update(k, true));
    }
}

/// Marks cell `(nx, ny)` as reached and queues it for the next level, when
/// the search may enter it and has not reached it yet.
fn visit_cell(
    anfield: &Anfield,
    visited: &mut Vec<bool>,
    next: &mut Vec<Cell>,
    count: &mut usize,
    nx: usize,
    ny: usize,
)
    requires
        anfield.wf(),
        old(visited)@.len() == anfield.cells@.len(),
        nx < anfield.width,
        ny < anfield.height,
        *old(count) == count_true(old(visited)@),
    ensures
        final(visited)@.len() == old(visited)@.len(),
        ({
            let fresh = !old(visited)@[flat_index(nx as int, ny as int, anfield.width as int)]
                && walkable(anfield, (nx as int, ny as int));
            &&& final(next)@ == (if fresh {
                old(next)@.push(Cell { x: nx, y: ny })
            } else {
                old(next)@
            })
            &&& *final(count) == *old(count) + (if fresh { 1int } else { 0int })
        }),
        *final(count) == count_true(final(visited)@),
        forall|cx: int, cy: int|
            0 <= cx < anfield.width && 0 <= cy < anfield.height
                ==> (#[trigger] final(visited)@[flat_index(cx, cy, anfield.width as int)]
                <==> (old(visited)@[flat_index(cx, cy, anfield.width as int)]
                || ((cx, cy) == (nx as int, ny as int) && walkable(anfield, (cx, cy))))),
{
    let w = anfield.width;
    let h = anfield.height;
    let n = visited.len();
    proof {
        lemma_flat_index_bounds(nx as int, ny as int, w as int, h as int);
    }
    let k = ny * w + nx;
    if !visited[k] {
        let enterable = match anfield.get_cell_role(nx, ny) {
            Some(rl) => !own_role(rl),
            None => false,
        };
        if enterable {
            proof {
                lemma_count_true_set(visited@, k as int);
                lemma_count_true_le(visited@.update(k as int, true));
            }
            visited.set(k, true);
            *count = *count + 1;
            next.push(Cell { x: nx, y: ny });
        }
    }
    proof {
        assert forall|cx: int, cy: int|
            0 <= cx < w && 0 <= cy < h implies (#[trigger] visited@[flat_index(cx, cy, w as int)]
            <==> (old(visited)@[flat_index(cx, cy, w as int)] || ((cx, cy) == (nx as int, ny as int)
            && walkable(anfield, (cx, cy))))) by {
            lemma_flat_index_bounds(cx, cy, w as int, h as int);
            if flat_index(cx, cy, w as int) == k {
                lemma_flat_index_injective(cx, cy, nx as int, ny as int, w as int);
            }
        }
    }
}

/// Some cell of `fr` is the opponent's.
fn frontier_hits(anfield: &Anfield, fr: &Vec<Cell>) -> (r: bool)
    requires
        anfield.wf(),
    ensures
        r == exists|i: int| 0 <= i < fr@.len() && opponent_at(anfield, pt(#[trigger] fr@[i])),
{
    let n = fr.len();
    for i in 0..n
        invariant
            n == fr@.len(),
            anfield.wf(),
            forall|a: int| 0 <= a < i ==> !opponent_at(anfield, pt(#[trigger] fr@[a])),
    {
        let c = fr[i];
        match anfield.get_cell_role(c.x, c.y) {
            Some(role) => {
                if opponent_role(role) {
                    assert(opponent_at(anfield, pt(fr@[i as int])));
                    return true;
                }
            },
            None => {},
        }
    }
    false
}

/// Marks and queues every cell that the search enters from the cells of
/// `frontier`, which were reached last; `cur` is what was reached so far.
fn expand(
    anfield: &Anfield,
    visited: &mut Vec<bool>,
    count: &mut usize,
    frontier: &Vec<Cell>,
    Ghost(cur): Ghost<Set<(int, int)>>,
) -> (next: Vec<Cell>)
    requires
        anfield.wf(),
        old(visited)@.len() == anfield.cells@.len(),
        *old(count) == count_true(old(visited)@),
        forall|i: int| 0 <= i < frontier@.len() ==> inside(anfield, pt(#[trigger] frontier@[i])),
        forall|q: (int, int)| #[trigger] cur.contains(q) ==> inside(anfield, q),
        forall|cx: int, cy: int|
            0 <= cx < anfield.width && 0 <= cy < anfield.height ==> (old(visited)@[flat_index(
                cx,
                cy,
                anfield.width as int,
            )] <==> #[trigger] cur.contains((cx, cy))),
    ensures
        final(visited)@.len() == old(visited)@.len(),
        *final(count) == count_true(final(visited)@),
        *final(count) == *old(count) + next@.len(),
        forall|cx: int, cy: int|
            0 <= cx < anfield.width && 0 <= cy < anfield.height ==> (final(visited)@[flat_index(
                cx,
                cy,
                anfield.width as int,
            )] <==> #[trigger] seen(anfield, cur, frontier@, frontier@.len() as int, (cx, cy))),
        forall|b: int|
            0 <= b < next@.len() ==> seen(
                anfield,
                cur,
                frontier@,
                frontier@.len() as int,
                pt(#[trigger] next@[b]),
            ) && !cur.contains(pt(next@[b])),
        forall|q: (int, int)|
            #[trigger] seen(anfield, cur, frontier@, frontier@.len() as int, q) && !cur.contains(q)
                ==> exists|b: int| 0 <= b < next@.len() && pt(#[trigger] next@[b]) == q,
{
    let w = anfield.width;
    let h = anfield.height;
    let n = anfield.cells.len();
    let flen = frontier.len();
    let mut next: Vec<Cell> = Vec::new();
    let ghost count0 = *count;
    let mut i: usize = 0;
    while i < flen
        invariant
            anfield.wf(),
            w == anfield.width,
            h == anfield.height,
            n == anfield.cells@.len(),
            i <= flen,
            flen == frontier@.len(),
            visited@.len() == n,
            forall|i: int| 0 <= i < frontier@.len() ==> inside(anfield, pt(#[trigger] frontier@[i])),
            forall|q: (int, int)| #[trigger] cur.contains(q) ==> inside(anfield, q),
            forall|cx: int, cy: int|
                0 <= cx < w && 0 <= cy < h ==> (visited@[flat_index(cx, cy, w as int)]
                    <==> #[trigger] seen(anfield, cur, frontier@, i as int, (cx, cy))),
            *count == count_true(visited@),
            *count == count0 + next@.len(),
            forall|b: int|
                0 <= b < next@.len() ==> seen(anfield, cur, frontier@, i as int, pt(#[trigger] next@[b]))
                    && !cur.contains(pt(next@[b])),
            forall|q: (int, int)|
                #[trigger] seen(anfield, cur, frontier@, i as int, q) && !cur.contains(q) ==> exists|b: int|
                    0 <= b < next@.len() && pt(#[trigger] next@[b]) == q,
        decreases flen - i,
    {
        let c = frontier[i];
        proof {
            assert(inside(anfield, pt(frontier@[i as int])));
        }
        let nbrs = neighbors(c.x, c.y, w, h);
        let m = nbrs.len();
        proof {
            assert forall|cc: (int, int)|
                #[trigger] seen_partly(anfield, cur, frontier@, i as int, nbrs@, 0, cc) == seen(anfield, cur, frontier@, i as int, cc) by {
                assert(!in_prefix(nbrs@, 0, cc));
            }
        }
        let mut j: usize = 0;
        while j < m
            invariant
                anfield.wf(),
                w == anfield.width,
                h == anfield.height,
                n == anfield.cells@.len(),
                j <= m,
                m == nbrs@.len(),
                i < flen,
                flen == frontier@.len(),
                visited@.len() == n,
                forall|q: (int, int)| #[trigger] cur.contains(q) ==> inside(anfield, q),
                forall|e: int|
                    0 <= e < nbrs@.len() ==> (#[trigger] nbrs@[e]).0 < w && nbrs@[e].1 < h,
                forall|cx: int, cy: int|
                    0 <= cx < w && 0 <= cy < h ==> (visited@[flat_index(cx, cy, w as int)]
                        <==> #[trigger] seen_partly(anfield, cur, frontier@, i as int, nbrs@, j as int, (cx, cy))),
                *count == count_true(visited@),
                *count == count0 + next@.len(),
                forall|b: int|
                    0 <= b < next@.len() ==> seen_partly(anfield, cur, frontier@, i as int, nbrs@, j as int, pt(#[trigger] next@[b]))
                        && !cur.contains(pt(next@[b])),
                forall|q: (int, int)|
                    #[trigger] seen_partly(anfield, cur, frontier@, i as int, nbrs@, j as int, q) && !cur.contains(q)
                        ==> exists|b: int| 0 <= b < next@.len() && pt(#[trigger] next@[b]) == q,
            decreases m - j,
        {
            let (nx, ny) = nbrs[j];
            let ghost q = (nx as int, ny as int);
            let ghost v0 = visited@;
            let ghost next0 = next@;
            proof {
                assert(nbrs@[j as int] == (nx, ny));
                lemma_flat_index_bounds(nx as int, ny as int, w as int, h as int);
            }
            visit_cell(anfield, visited, &mut next, count, nx, ny);
            proof {
                let fresh = !v0[flat_index(nx as int, ny as int, w as int)] && walkable(anfield, q);
                assert forall|cc: (int, int)| inside(anfield, cc) implies (in_prefix(nbrs@, j + 1, cc)
                    <==> (in_prefix(nbrs@, j as int, cc) || cc == q)) by {
                    if cc == q {
                        assert(nbrs@[j as int] == (cc.0 as usize, cc.1 as usize));
                    }
                    if in_prefix(nbrs@, j + 1, cc) && !in_prefix(nbrs@, j as int, cc) {
                        let b = choose|b: int| 0 <= b < j + 1 && #[trigger] nbrs@[b] == (cc.0 as usize, cc.1 as usize);
                        assert(b == j);
                    }
                }
                assert forall|cc: (int, int)| #[trigger] seen_partly(anfield, cur, frontier@, i as int, nbrs@, j + 1, cc)
                    implies inside(anfield, cc) by {}
                assert forall|cx: int, cy: int|
                    0 <= cx < w && 0 <= cy < h implies (visited@[flat_index(cx, cy, w as int)]
                        <==> #[trigger] seen_partly(anfield, cur, frontier@, i as int, nbrs@, j + 1, (cx, cy))) by {
                    assert(inside(anfield, (cx, cy)));
                    assert(v0[flat_index(cx, cy, w as int)] == seen_partly(anfield, cur, frontier@, i as int, nbrs@, j as int, (cx, cy)));
                }
                assert forall|b: int|
                    0 <= b < next@.len() implies seen_partly(anfield, cur, frontier@, i as int, nbrs@, j + 1, pt(#[trigger] next@[b]))
                        && !cur.contains(pt(next@[b])) by {
                    if b < next0.len() {
                        assert(next@[b] == next0[b]);
                        assert(seen_partly(anfield, cur, frontier@, i as int, nbrs@, j as int, pt(next0[b])));
                        assert(inside(anfield, pt(next0[b])));
                    } else {
                        assert(pt(next@[b]) == q);
                        assert(inside(anfield, q));
                        assert(!seen_partly(anfield, cur, frontier@, i as int, nbrs@, j as int, q));
                    }
                }
                assert forall|qq: (int, int)|
                    #[trigger] seen_partly(anfield, cur, frontier@, i as int, nbrs@, j + 1, qq) && !cur.contains(qq)
                        implies exists|b: int| 0 <= b < next@.len() && pt(#[trigger] next@[b]) == qq by {
                    assert(inside(anfield, qq));
                    if seen_partly(anfield, cur, frontier@, i as int, nbrs@, j as int, qq) {
                        let b = choose|b: int| 0 <= b < next0.len() && pt(#[trigger] next0[b]) == qq;
                        assert(next@[b] == next0[b]);
                    } else {
                        assert(qq == q);
                        assert(!v0[flat_index(nx as int, ny as int, w as int)]);
                        assert(pt(next@[next0.len() as int]) == qq);
                    }
                }
            }
            j = j + 1;
        }
        proof {
            let fr = frontier@;
            assert forall|cc: (int, int)|
                seen_partly(anfield, cur, fr, i as int, nbrs@, m as int, cc) <==> #[trigger] seen(anfield, cur, fr, i + 1, cc) by {
                if walkable(anfield, cc) && in_prefix(nbrs@, m as int, cc) {
                    let b = choose|b: int| 0 <= b < m && #[trigger] nbrs@[b] == (cc.0 as usize, cc.1 as usize);
                    assert(adjacent(pt(fr[i as int]), cc));
                }
                if entered_from(anfield, fr, i + 1, cc) && !entered_from(anfield, fr, i as int, cc) {
                    let a = choose|a: int| 0 <= a < i + 1 && adjacent(pt(#[trigger] fr[a]), cc);
                    assert(a == i);
                }
                if entered_from(anfield, fr, i as int, cc) {
                    let a = choose|a: int| 0 <= a < i && adjacent(pt(#[trigger] fr[a]), cc);
                    assert(0 <= a < i + 1 && adjacent(pt(fr[a]), cc));
                }
                if walkable(anfield, cc) && adjacent(pt(fr[i as int]), cc) {
                    assert(0 <= i < i + 1 && adjacent(pt(fr[i as int]), cc));
                }
            }
        }
        i = i + 1;
    }
    next
}

/// The fewest moves from `(x, y)` to an opponent cell, by a breadth-first
/// search over the four directions that never enters the local player's
/// cells; `usize::MAX` when no opponent cell can be reached.
pub fn get_distance_to_opponent(anfield: &Anfield, x: usize, y: usize) -> (r: usize)
    requires
        anfield.wf(),
        x < anfield.width,
        y < anfield.height,
    ensures
        r == distance(anfield, (x as int, y as int)),
{
    let w = anfield.width;
    let h = anfield.height;
    let n = anfield.cells.len();
    let ghost start = (x as int, y as int);
    let mut visited: Vec<bool> = Vec::new();
    let mut i: usize = 0;
    while i < n
        invariant
            i <= n,
            visited@.len() == i,
            forall|j: int| 0 <= j < i ==> !visited@[j],
            count_true(visited@) == 0,
        decreases n - i,
    {
        proof {
            assert(visited@.push(false).drop_last() =~= visited@);
        }
        visited.push(false);
        i = i + 1;
    }
    proof {
        lemma_flat_index_bounds(x as int, y as int, w as int, h as int);
        lemma_count_true_set(visited@, flat_index(x as int, y as int, w as int));
    }
    let start_index = y * w + x;
    visited.set(start_index, true);
    let mut count: usize = 1;
    let mut frontier: Vec<Cell> = Vec::new();
    frontier.push(Cell { x, y });
    let mut level: usize = 0;
    proof {
        assert(reach(anfield, start, 0) == set![start]);
        assert forall|cx: int, cy: int| 0 <= cx < w && 0 <= cy < h implies (visited@[flat_index(
            cx,
            cy,
            w as int,
        )] <==> #[trigger] reach(anfield, start, 0).contains((cx, cy))) by {
            lemma_flat_index_bounds(cx, cy, w as int, h as int);
            if flat_index(cx, cy, w as int) == start_index {
                lemma_flat_index_injective(cx, cy, x as int, y as int, w as int);
            }
        }
        assert(pt(frontier@[0]) == start);
    }
    loop
        invariant
            anfield.wf(),
            w == anfield.width,
            h == anfield.height,
            n == anfield.cells@.len(),
            x < w,
            y < h,
            start == (x as int, y as int),
            visited@.len() == n,
            forall|cx: int, cy: int|
                0 <= cx < w && 0 <= cy < h ==> (visited@[flat_index(cx, cy, w as int)]
                    <==> #[trigger] reach(anfield, start, level as nat).contains((cx, cy))),
            forall|q: (int, int)| #[trigger]
                reach(anfield, start, level as nat).contains(q) ==> inside(anfield, q),
            count == count_true(visited@),
            forall|i: int|
                0 <= i < frontier@.len() ==> reach(anfield, start, level as nat).contains(
                    pt(#[trigger] frontier@[i]),
                ),
            forall|q: (int, int)| #[trigger]
                reach(anfield, start, level as nat).contains(q) ==> (level > 0 && reach(
                    anfield,
                    start,
                    (level - 1) as nat,
                ).contains(q)) || exists|i: int|
                    0 <= i < frontier@.len() && pt(#[trigger] frontier@[i]) == q,
            forall|j: nat| j < level ==> !hits(anfield, #[trigger] reach(anfield, start, j)),
            level < count,
        decreases n - count,
    {
        let ghost cur = reach(anfield, start, level as nat);
        proof {
            lemma_count_true_le(visited@);
        }
        if frontier_hits(anfield, &frontier) {
            proof {
                let i = choose|i: int| 0 <= i < frontier@.len() && opponent_at(anfield, pt(#[trigger] frontier@[i]));
                assert(cur.contains(pt(frontier@[i])));
                assert(first_hit(anfield, start, level as nat));
                lemma_distance_is_first_hit(anfield, start, level as nat);
            }
            return level;
        }
        proof {
            assert forall|q: (int, int)| #[trigger] cur.contains(q) implies !opponent_at(anfield, q) by {
                if level > 0 && reach(anfield, start, (level - 1) as nat).contains(q) {
                    assert(!hits(anfield, reach(anfield, start, (level - 1) as nat)));
                } else {
                    let i = choose|i: int| 0 <= i < frontier@.len() && pt(#[trigger] frontier@[i]) == q;
                }
            }
            assert(!hits(anfield, cur));
        }
        let ghost count0 = count;
        let next = expand(anfield, &mut visited, &mut count, &frontier, Ghost(cur));
        proof {
            lemma_reach_next(anfield, start, level as nat, frontier@);
            assert(reach(anfield, start, (level + 1) as nat) == reach(anfield, start, (level as nat) + 1));
            lemma_count_true_le(visited@);
        }
        if next.len() == 0 {
            proof {
                assert forall|q: (int, int)| #[trigger] reach(anfield, start, (level + 1) as nat).contains(q)
                    <==> cur.contains(q) by {
                    if reach(anfield, start, (level + 1) as nat).contains(q) && !cur.contains(q) {
                        assert(seen(anfield, cur, frontier@, frontier@.len() as int, q));
                    }
                }
                assert(reach(anfield, start, (level + 1) as nat) =~= cur);
                assert forall|k: nat| !first_hit(anfield, start, k) by {
                    if k > level {
                        lemma_reach_stable(anfield, start, level as nat, k);
                    }
                }
            }
            return usize::MAX;
        }
        let ghost old_frontier = frontier@;
        frontier = next;
        level = level + 1;
        proof {
            let nr = reach(anfield, start, level as nat);
            let flen = old_frontier.len() as int;
            assert forall|cx: int, cy: int|
                0 <= cx < w && 0 <= cy < h implies (visited@[flat_index(cx, cy, w as int)]
                    <==> #[trigger] nr.contains((cx, cy))) by {
                assert(seen(anfield, cur, old_frontier, flen, (cx, cy)) == nr.contains((cx, cy)));
            }
            assert forall|q: (int, int)| #[trigger] nr.contains(q) implies inside(anfield, q) by {
                assert(seen(anfield, cur, old_frontier, flen, q));
            }
            assert forall|i: int| 0 <= i < frontier@.len() implies nr.contains(pt(#[trigger] frontier@[i])) by {
                assert(seen(anfield, cur, old_frontier, flen, pt(frontier@[i])));
            }
            assert forall|q: (int, int)| #[trigger] nr.contains(q) implies (level > 0 && reach(
                anfield,
                start,
                (level - 1) as nat,
            ).contains(q)) || exists|i: int| 0 <= i < frontier@.len() && pt(#[trigger] frontier@[i]) == q by {
                assert(seen(anfield, cur, old_frontier, flen, q));
                if !cur.contains(q) {
                    let b = choose|b: int| 0 <= b < frontier@.len() && pt(#[trigger] frontier@[b]) == q;
                }
            }
        }
    }
}


/// Anchor `(x, y)` lies in the window searched for piece `p`: the piece's box
/// may start before the field, as long as its cells can still land on it.
pub open spec fn in_window(f: &Anfield, p: &Piece, x: int, y: int) -> bool {
    -p.width <= x < f.width && -p.height <= y < f.height
}

/// Anchor `a` is searched before anchor `b`: columns from left to right,
/// and within a column rows from top to bottom.
pub open spec fn scan_before(a: (int, int), b: (int, int)) -> bool {
    a.0 < b.0 || (a.0 == b.0 && a.1 < b.1)
}

/// How much a cell at `q` adds to a placement: more the nearer it is to the
/// opponent.
pub open spec fn cell_weight(f: &Anfield, q: (int, int)) -> int {
    usize::MAX - distance(f, q)
}

/// The sum of the cell weights of the `shape` cells anchored at `(x, y)`.
pub open spec fn weight_of(f: &Anfield, shape: Seq<Cell>, x: int, y: int) -> int
    decreases shape.len(),
{
    if shape.len() == 0 {
        0
    } else {
        weight_of(f, shape.drop_last(), x, y) + cell_weight(
            f,
            (x + shape.last().x, y + shape.last().y),
        )
    }
}

/// The weight of piece `p` anchored at `(x, y)`.
pub open spec fn placement_weight(f: &Anfield, p: &Piece, x: int, y: int) -> int {
    weight_of(f, p.shape@, x, y)
}

/// Some anchor of the window is legal.
pub open spec fn any_legal(f: &Anfield, p: &Piece) -> bool {
    exists|x: int, y: int| in_window(f, p, x, y) && #[trigger] legal(f, p, x, y)
}

/// Anchor `(x, y)` is legal, no legal anchor weighs more, and every legal
/// anchor searched before it weighs less.
pub open spec fn is_best(f: &Anfield, p: &Piece, x: int, y: int) -> bool {
    &&& in_window(f, p, x, y)
    &&& legal(f, p, x, y)
    &&& forall|x2: int, y2: int|
        in_window(f, p, x2, y2) && #[trigger] legal(f, p, x2, y2) ==> placement_weight(f, p, x2, y2)
            <= placement_weight(f, p, x, y) && (scan_before((x2, y2), (x, y)) ==> placement_weight(
            f,
            p,
            x2,
            y2,
        ) < placement_weight(f, p, x, y))
}

/// The move the engine owes: the best legal anchor, or `[0, 0]` when no
/// anchor is legal.
pub open spec fn chosen_move(f: &Anfield, p: &Piece, r: [i32; 2]) -> bool {
    if any_legal(f, p) {
        is_best(f, p, r@[0] as int, r@[1] as int)
    } else {
        r@[0] == 0 && r@[1] == 0
    }
}

/// Whether piece `piece` may be anchored at `(x, y)`: every cell on the
/// field, none on an opponent cell, exactly one on the local player's.
fn try_fit(anfield: &Anfield, piece: &Piece, x: isize, y: isize) -> (r: Option<PossiblePlacement>)
    requires
        anfield.wf(),
        piece.wf(),
        sizes_ok(anfield, piece),
        in_window(anfield, piece, x as int, y as int),
    ensures
        r.is_some() == legal(anfield, piece, x as int, y as int),
        r matches Some(pp) ==> pp.x == x && pp.y == y && pp.weight == 0,
{
    let mut overlaps_with_own_territory: usize = 0;
    let n = piece.shape.len();
    let fw = anfield.width as i64;
    let fh = anfield.height as i64;
    for i in 0..n
        invariant
            n == piece.shape@.len(),
            anfield.wf(),
            piece.wf(),
            sizes_ok(anfield, piece),
            in_window(anfield, piece, x as int, y as int),
            fw == anfield.width,
            fh == anfield.height,
            overlaps_with_own_territory <= i,
            overlaps_with_own_territory == own_overlaps(anfield, piece.shape@.take(i as int), x as int, y as int),
            forall|j: int| 0 <= j < i ==> inside(anfield, #[trigger] placed(piece, j, x as int, y as int)),
            forall|j: int| 0 <= j < i ==> !opponent_at(anfield, #[trigger] placed(piece, j, x as int, y as int)),
    {
        let cell = piece.shape[i];
        let s = x as i64 + cell.x as i64;
        let t = y as i64 + cell.y as i64;
        assert(placed(piece, i as int, x as int, y as int) == (s as int, t as int));
        if s >= fw || t >= fh || s < 0 || t < 0 {
            return None;
        }
        let role = anfield.get_cell_role(s as usize, t as usize);
        let ghost shape = piece.shape@;
        assert(shape.take(i + 1).drop_last() =~= shape.take(i as int));
        match role {
            Some(r) => {
                if opponent_role(r) {
                    return None;
                } else if own_role(r) {
                    overlaps_with_own_territory += 1;
                }
            },
            None => {},
        }
    }
    assert(piece.shape@.take(n as int) =~= piece.shape@);
    if overlaps_with_own_territory != 1 {
        return None;
    }
    Some(PossiblePlacement { x, y, weight: 0 })
}

/// The weight of the legal anchor `(x, y)`: for each cell of the piece, the
/// largest `usize` less the cell's distance to the opponent, summed.
fn weigh(anfield: &Anfield, piece: &Piece, x: isize, y: isize) -> (r: u128)
    requires
        anfield.wf(),
        piece.wf(),
        sizes_ok(anfield, piece),
        in_window(anfield, piece, x as int, y as int),
        legal(anfield, piece, x as int, y as int),
    ensures
        r == placement_weight(anfield, piece, x as int, y as int),
{
    let mut weight: u128 = 0;
    let n = piece.shape.len();
    for i in 0..n
        invariant
            n == piece.shape@.len(),
            anfield.wf(),
            legal(anfield, piece, x as int, y as int),
            sizes_ok(anfield, piece),
            in_window(anfield, piece, x as int, y as int),
            weight == weight_of(anfield, piece.shape@.take(i as int), x as int, y as int),
            weight <= i * (usize::MAX as int),
    {
        let cell = piece.shape[i];
        let ghost q = placed(piece, i as int, x as int, y as int);
        assert(inside(anfield, q));
        let s = (x as i64 + cell.x as i64) as usize;
        let t = (y as i64 + cell.y as i64) as usize;
        let cell_distance = get_distance_to_opponent(anfield, s, t);
        let cell_weight = usize::MAX - cell_distance;
        let ghost shape = piece.shape@;
        assert(shape.take(i + 1).drop_last() =~= shape.take(i as int));
        assert(weight + cell_weight <= (i + 1) * (usize::MAX as int) <= u128::MAX) by (nonlinear_arith)
            requires
                weight <= i * (usize::MAX as int),
                cell_weight <= usize::MAX,
                i < n,
                n <= usize::MAX,
        ;
        weight = weight + cell_weight as u128;
    }
    assert(piece.shape@.take(n as int) =~= piece.shape@);
    weight
}

/// Every legal anchor of the window, with its weight, in the order searched.
pub fn get_possible_placements(anfield: &Anfield, piece: &Piece) -> (r: Vec<PossiblePlacement>)
    requires
        anfield.wf(),
        piece.wf(),
        sizes_ok(anfield, piece),
    ensures
        forall|i: int|
            0 <= i < r@.len() ==> in_window(anfield, piece, (#[trigger] r@[i]).x as int, r@[i].y as int)
                && legal(anfield, piece, r@[i].x as int, r@[i].y as int) && r@[i].weight
                == placement_weight(anfield, piece, r@[i].x as int, r@[i].y as int),
        forall|i: int, j: int|
            0 <= i < j < r@.len() ==> scan_before(
                (r@[i].x as int, r@[i].y as int),
                (r@[j].x as int, r@[j].y as int),
            ),
        forall|x: int, y: int|
            in_window(anfield, piece, x, y) && #[trigger] legal(anfield, piece, x, y) ==> exists|i: int|
                0 <= i < r@.len() && (#[trigger] r@[i]).x == x && r@[i].y == y,
{
    let mut possible_placements: Vec<PossiblePlacement> = Vec::new();
    let x_min = -(piece.width as isize);
    let x_max = anfield.width as isize;
    let y_min = -(piece.height as isize);
    let y_max = anfield.height as isize;
    let mut x = x_min;
    while x < x_max
        invariant
            anfield.wf(),
            piece.wf(),
            sizes_ok(anfield, piece),
            x_min == -piece.width,
            x_max == anfield.width,
            y_min == -piece.height,
            y_max == anfield.height,
            x_min <= x <= x_max,
            forall|i: int|
                0 <= i < possible_placements@.len() ==> in_window(
                    anfield,
                    piece,
                    (#[trigger] possible_placements@[i]).x as int,
                    possible_placements@[i].y as int,
                ) && legal(anfield, piece, possible_placements@[i].x as int, possible_placements@[i].y as int)
                    && possible_placements@[i].weight == placement_weight(
                    anfield,
                    piece,
                    possible_placements@[i].x as int,
                    possible_placements@[i].y as int,
                ) && possible_placements@[i].x < x,
            forall|i: int, j: int|
                0 <= i < j < possible_placements@.len() ==> scan_before(
                    (possible_placements@[i].x as int, possible_placements@[i].y as int),
                    (possible_placements@[j].x as int, possible_placements@[j].y as int),
                ),
            forall|xx: int, yy: int|
                in_window(anfield, piece, xx, yy) && xx < x && #[trigger] legal(anfield, piece, xx, yy)
                    ==> exists|i: int|
                    0 <= i < possible_placements@.len() && (#[trigger] possible_placements@[i]).x == xx
                        && possible_placements@[i].y == yy,
        decreases x_max - x,
    {
        let mut y = y_min;
        while y < y_max
            invariant
                anfield.wf(),
                piece.wf(),
                sizes_ok(anfield, piece),
                x_min == -piece.width,
                x_max == anfield.width,
                y_min == -piece.height,
                y_max == anfield.height,
                x_min <= x < x_max,
                y_min <= y <= y_max,
                forall|i: int|
                    0 <= i < possible_placements@.len() ==> in_window(
                        anfield,
                        piece,
                        (#[trigger] possible_placements@[i]).x as int,
                        possible_placements@[i].y as int,
                    ) && legal(anfield, piece, possible_placements@[i].x as int, possible_placements@[i].y as int)
                        && possible_placements@[i].weight == placement_weight(
                        anfield,
                        piece,
                        possible_placements@[i].x as int,
                        possible_placements@[i].y as int,
                    ) && scan_before(
                        (possible_placements@[i].x as int, possible_placements@[i].y as int),
                        (x as int, y as int),
                    ),
                forall|i: int, j: int|
                    0 <= i < j < possible_placements@.len() ==> scan_before(
                        (possible_placements@[i].x as int, possible_placements@[i].y as int),
                        (possible_placements@[j].x as int, possible_placements@[j].y as int),
                    ),
                forall|xx: int, yy: int|
                    in_window(anfield, piece, xx, yy) && scan_before((xx, yy), (x as int, y as int))
                        && #[trigger] legal(anfield, piece, xx, yy) ==> exists|i: int|
                        0 <= i < possible_placements@.len() && (#[trigger] possible_placements@[i]).x == xx
                            && possible_placements@[i].y == yy,
            decreases y_max - y,
        {
            let ghost before = possible_placements@;
            if let Some(mut possible_placement) = try_fit(anfield, piece, x, y) {
                possible_placement.weight = weigh(anfield, piece, x, y);
                possible_placements.push(possible_placement);
                proof {
                    assert forall|xx: int, yy: int|
                        in_window(anfield, piece, xx, yy) && scan_before((xx, yy), (x as int, y + 1))
                            && #[trigger] legal(anfield, piece, xx, yy) implies exists|i: int|
                            0 <= i < possible_placements@.len() && (#[trigger] possible_placements@[i]).x == xx
                                && possible_placements@[i].y == yy by {
                        if xx == x && yy == y {
                            assert(possible_placements@[before.len() as int].x == xx);
                        } else {
                            let i = choose|i: int|
                                0 <= i < before.len() && (#[trigger] before[i]).x == xx && before[i].y == yy;
                            assert(possible_placements@[i] == before[i]);
                        }
                    }
                }
            }
            y = y + 1;
        }
        x = x + 1;
    }
    possible_placements
}

/// The anchor `[x, y]` chosen for `piece` on `anfield`: the legal anchor of
/// greatest weight, the first one searched among equals; `[0, 0]` when no
/// anchor is legal.
pub fn place(anfield: &Anfield, piece: &Piece) -> (r: [i32; 2])
    requires
        anfield.wf(),
        piece.wf(),
        sizes_ok(anfield, piece),
    ensures
        chosen_move(anfield, piece, r),
{
    let possible_placements = get_possible_placements(anfield, piece);
    let n = possible_placements.len();
    if n == 0 {
        proof {
            if any_legal(anfield, piece) {
                let (x, y) = choose|x: int, y: int| in_window(anfield, piece, x, y) && #[trigger] legal(anfield, piece, x, y);
            }
        }
        return [0, 0];
    }
    let mut best: usize = 0;
    let mut chosen_possible_placement = possible_placements[0];
    let mut i: usize = 1;
    while i < n
        invariant
            n == possible_placements@.len(),
            1 <= i <= n,
            best < i,
            chosen_possible_placement == possible_placements@[best as int],
            forall|j: int|
                0 <= j < i ==> (#[trigger] possible_placements@[j]).weight <= chosen_possible_placement.weight
                    && (j < best ==> possible_placements@[j].weight < chosen_possible_placement.weight),
        decreases n - i,
    {
        if possible_placements[i].weight > chosen_possible_placement.weight {
            chosen_possible_placement = possible_placements[i];
            best = i;
        }
        i = i + 1;
    }
    let x = chosen_possible_placement.x as i32;
    let y = chosen_possible_placement.y as i32;
    let r = [x, y];
    proof {
        let bx = chosen_possible_placement.x as int;
        let by = chosen_possible_placement.y as int;
        assert(r@[0] as int == bx && r@[1] as int == by);
        assert forall|x2: int, y2: int|
            in_window(anfield, piece, x2, y2) && #[trigger] legal(anfield, piece, x2, y2) implies placement_weight(
            anfield,
            piece,
            x2,
            y2,
        ) <= placement_weight(anfield, piece, bx, by) && (scan_before((x2, y2), (bx, by)) ==> placement_weight(
            anfield,
            piece,
            x2,
            y2,
        ) < placement_weight(anfield, piece, bx, by)) by {
            let j = choose|j: int| 0 <= j < n && (#[trigger] possible_placements@[j]).x == x2 && possible_placements@[j].y == y2;
            assert(possible_placements@[j].weight <= chosen_possible_placement.weight);
            if scan_before((x2, y2), (bx, by)) {
                if j > best {
                    assert(scan_before((bx, by), (x2, y2)));
                }
            }
        }
    }
    r
}

impl Strategy for Attack {
    open spec fn chooses(&self, anfield: &Anfield, piece: &Piece, r: [i32; 2]) -> bool {
        chosen_move(anfield, piece, r)
    }

    fn choose_move(&self, anfield: &Anfield, piece: &Piece) -> (r: [i32; 2]) {
        place(anfield, piece)
    }
}

} // verus!
