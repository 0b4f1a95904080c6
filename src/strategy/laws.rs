use vstd::prelude::*;

use crate::anfield::Anfield;
use crate::cell::{flat_index, Cell};
use crate::piece::Piece;
use crate::strategy::attack::{
    adjacent, chosen_move, distance, first_hit, lemma_distance_is_first_hit, step, hits, inside, is_best, is_opponent, is_own, legal,
    opponent_at, own_at, own_overlaps, placed, reach, scan_before, walkable,
};
use crate::symbols::CellRole;

verus! {

/// The roles under the cells of `shape` anchored at `(x, y)`.
pub open spec fn roles_under(f: &Anfield, shape: Seq<Cell>, x: int, y: int) -> Seq<CellRole> {
    shape.map_values(|c: Cell| f.role_at(x + c.x, y + c.y)->Some_0)
}

/// The local player's roles among `s`.
pub open spec fn own_roles(s: Seq<CellRole>) -> Seq<CellRole> {
    s.filter(|r: CellRole| is_own(r))
}

/// The opponent's roles among `s`.
pub open spec fn opponent_roles(s: Seq<CellRole>) -> Seq<CellRole> {
    s.filter(|r: CellRole| is_opponent(r))
}

proof fn lemma_overlaps_are_own_roles(f: &Anfield, shape: Seq<Cell>, x: int, y: int)
    requires
        forall|i: int| 0 <= i < shape.len() ==> inside(f, (x + (#[trigger] shape[i]).x, y + shape[i].y)),
    ensures
        own_overlaps(f, shape, x, y) == own_roles(roles_under(f, shape, x, y)).len(),
        !(exists|i: int|
            0 <= i < shape.len() && opponent_at(f, (x + (#[trigger] shape[i]).x, y + shape[i].y)))
            ==> opponent_roles(roles_under(f, shape, x, y)).len() == 0,
    decreases shape.len(),
{
    reveal(Seq::filter);
    if shape.len() > 0 {
        let rest = shape.drop_last();
        assert forall|i: int| 0 <= i < rest.len() implies inside(f, (x + (#[trigger] rest[i]).x, y + rest[i].y)) by {
            assert(rest[i] == shape[i]);
        }
        lemma_overlaps_are_own_roles(f, rest, x, y);
        let roles = roles_under(f, shape, x, y);
        assert(roles.drop_last() =~= roles_under(f, rest, x, y));
        let last = shape.last();
        assert(inside(f, (x + shape[shape.len() - 1].x, y + shape[shape.len() - 1].y)));
        if !(exists|i: int|
            0 <= i < shape.len() && opponent_at(f, (x + (#[trigger] shape[i]).x, y + shape[i].y))) {
            assert(!opponent_at(f, (x + shape[shape.len() - 1].x, y + shape[shape.len() - 1].y)));
            if exists|i: int| 0 <= i < rest.len() && opponent_at(f, (x + (#[trigger] rest[i]).x, y + rest[i].y)) {
                let i = choose|i: int| 0 <= i < rest.len() && opponent_at(f, (x + (#[trigger] rest[i]).x, y + rest[i].y));
                assert(rest[i] == shape[i]);
            }
        }
    }
}

/// A legal anchor puts every cell of the piece on the field, and among the
/// roles it covers there is no opponent role and exactly one of the local
/// player's.
pub proof fn lemma_fit_sound(f: &Anfield, p: &Piece, x: int, y: int)
    requires
        legal(f, p, x, y),
    ensures
        forall|i: int| 0 <= i < p.shape@.len() ==> inside(f, #[trigger] placed(p, i, x, y)),
        opponent_roles(roles_under(f, p.shape@, x, y)).len() == 0,
        own_roles(roles_under(f, p.shape@, x, y)).len() == 1,
{
    let shape = p.shape@;
    assert forall|i: int| 0 <= i < shape.len() implies inside(f, (x + (#[trigger] shape[i]).x, y + shape[i].y)) by {
        assert(placed(p, i, x, y) == (x + shape[i].x, y + shape[i].y));
    }
    if exists|i: int| 0 <= i < shape.len() && opponent_at(f, (x + (#[trigger] shape[i]).x, y + shape[i].y)) {
        let i = choose|i: int| 0 <= i < shape.len() && opponent_at(f, (x + (#[trigger] shape[i]).x, y + shape[i].y));
        assert(placed(p, i, x, y) == (x + shape[i].x, y + shape[i].y));
    }
    lemma_overlaps_are_own_roles(f, shape, x, y);
}

/// The engine's choice is one anchor: two moves that both meet what the
/// engine owes are the same move, ties included.
pub proof fn lemma_chosen_move_unique(f: &Anfield, p: &Piece, r1: [i32; 2], r2: [i32; 2])
    requires
        chosen_move(f, p, r1),
        chosen_move(f, p, r2),
    ensures
        r1@ == r2@,
{
    let a = (r1@[0] as int, r1@[1] as int);
    let b = (r2@[0] as int, r2@[1] as int);
    if is_best(f, p, a.0, a.1) && is_best(f, p, b.0, b.1) && a != b {
        assert(legal(f, p, a.0, a.1));
        assert(legal(f, p, b.0, b.1));
        if scan_before(a, b) {
            assert(false);
        } else {
            assert(scan_before(b, a));
        }
    }
    assert(r1@ =~= r2@);
}

/// A field one row high and `k + 2` cells wide: the local player's cell at
/// the left end, `k` empty cells, and an opponent cell at the right end.
pub open spec fn is_corridor(f: &Anfield, k: nat) -> bool {
    &&& f.width == k + 2
    &&& f.height == 1
    &&& f.cells@.len() == k + 2
    &&& f.cells@[0] == CellRole::OwnSymbol
    &&& forall|i: int| 1 <= i <= k ==> f.cells@[i] == CellRole::Empty
    &&& f.cells@[k + 1int] == CellRole::OpponentSymbol
}

/// As `is_corridor`, but for one cell `b` of the corridor, which is the
/// local player's.
pub open spec fn is_blocked_corridor(f: &Anfield, k: nat, b: int) -> bool {
    &&& f.width == k + 2
    &&& f.height == 1
    &&& f.cells@.len() == k + 2
    &&& 1 <= b <= k
    &&& f.cells@[0] == CellRole::OwnSymbol
    &&& f.cells@[b] == CellRole::OwnSymbol
    &&& forall|i: int| 1 <= i <= k && i != b ==> f.cells@[i] == CellRole::Empty
    &&& f.cells@[k + 1int] == CellRole::OpponentSymbol
}

/// The cells `lo` to `hi` of row 0.
pub open spec fn segment(lo: int, hi: int) -> Set<(int, int)> {
    Set::new(|q: (int, int)| q.1 == 0 && lo <= q.0 <= hi)
}

proof fn lemma_row_role(f: &Anfield, i: int)
    requires
        f.height == 1,
        f.cells@.len() == f.width,
        0 <= i < f.width,
    ensures
        f.role_at(i, 0) == Some(f.cells@[i]),
{
    assert(flat_index(i, 0, f.width as int) == i);
}

proof fn lemma_corridor_reach(f: &Anfield, k: nat, s: int, j: nat)
    requires
        is_corridor(f, k),
        s == 0 || (s == 1 && k >= 1),
        s + j <= k + 1,
    ensures
        reach(f, (s, 0), j) == segment(s, s + j),
    decreases j,
{
    if j == 0 {
        assert(reach(f, (s, 0), 0) =~= segment(s, s));
    } else {
        lemma_corridor_reach(f, k, s, (j - 1) as nat);
        let prev = segment(s, s + j - 1);
        assert(reach(f, (s, 0), j) == step(f, prev));
        assert forall|q: (int, int)| #[trigger] step(f, prev).contains(q) <==> segment(s, s + j).contains(q) by {
            if segment(s, s + j).contains(q) && !prev.contains(q) {
                assert(q == (s + j, 0int));
                lemma_row_role(f, s + j);
                assert(prev.contains((s + j - 1, 0)) && adjacent((s + j - 1, 0), q));
                assert(walkable(f, q));
            }
            if step(f, prev).contains(q) && !prev.contains(q) {
                let p = choose|p: (int, int)| #[trigger] prev.contains(p) && adjacent(p, q);
                assert(walkable(f, q));
                if q.0 == s - 1 && s == 1 {
                    lemma_row_role(f, 0);
                }
            }
        }
        assert(step(f, prev) =~= segment(s, s + j));
    }
}

/// Along a corridor of `k` empty cells, the search from the local player's
/// cell meets the opponent after `k + 1` moves, and from the first empty
/// cell after `k`.
pub proof fn lemma_corridor_distance(f: &Anfield, k: nat)
    requires
        is_corridor(f, k),
    ensures
        distance(f, (0, 0)) == k + 1,
        k >= 1 ==> distance(f, (1, 0)) == k,
{
    assert forall|s: int| s == 0 || (s == 1 && k >= 1) implies #[trigger] first_hit(f, (s, 0), (k + 1 - s) as nat) by {
        let goal = (k + 1 - s) as nat;
        lemma_corridor_reach(f, k, s, goal);
        lemma_row_role(f, k + 1int);
        assert(reach(f, (s, 0), goal).contains((k + 1int, 0int)) && opponent_at(f, (k + 1int, 0int)));
        assert forall|j: nat| j < goal implies !hits(f, #[trigger] reach(f, (s, 0), j)) by {
            lemma_corridor_reach(f, k, s, j);
            assert forall|q: (int, int)| #[trigger] reach(f, (s, 0), j).contains(q) implies !opponent_at(f, q) by {
                lemma_row_role(f, q.0);
            }
        }
    }
    assert(first_hit(f, (0, 0), (k + 1 - 0) as nat));
    lemma_distance_is_first_hit(f, (0, 0), k + 1);
    if k >= 1 {
        assert(first_hit(f, (1, 0), (k + 1 - 1) as nat));
        lemma_distance_is_first_hit(f, (1, 0), k);
    }
}

proof fn lemma_blocked_reach(f: &Anfield, k: nat, b: int, s: int, j: nat)
    requires
        is_blocked_corridor(f, k, b),
        0 <= s < b,
        s == 0 || s == 1,
    ensures
        reach(f, (s, 0), j).subset_of(segment(0, b - 1)),
    decreases j,
{
    if j > 0 {
        lemma_blocked_reach(f, k, b, s, (j - 1) as nat);
        let prev = reach(f, (s, 0), (j - 1) as nat);
        assert forall|q: (int, int)| #[trigger] step(f, prev).contains(q) implies segment(0, b - 1).contains(q) by {
            if !prev.contains(q) {
                let p = choose|p: (int, int)| #[trigger] prev.contains(p) && adjacent(p, q);
                assert(walkable(f, q));
                if q.0 == b {
                    lemma_row_role(f, b);
                }
            }
        }
    }
}

/// A corridor cut by one of the local player's cells: the search from the
/// left end, or from the first cell when the cut lies further on, never
/// meets the opponent, and the distance is `usize::MAX`.
pub proof fn lemma_blocked_corridor_distance(f: &Anfield, k: nat, b: int, s: int)
    requires
        is_blocked_corridor(f, k, b),
        s == 0 || s == 1,
        s < b,
    ensures
        distance(f, (s, 0)) == usize::MAX,
{
    assert forall|j: nat| !hits(f, #[trigger] reach(f, (s, 0), j)) by {
        lemma_blocked_reach(f, k, b, s, j);
        assert forall|q: (int, int)| #[trigger] reach(f, (s, 0), j).contains(q) implies !opponent_at(f, q) by {
            assert(segment(0, b - 1).contains(q));
            lemma_row_role(f, q.0);
        }
    }
    assert forall|j: nat| !first_hit(f, (s, 0), j) by {
        assert(!hits(f, reach(f, (s, 0), j)));
    }
}

} // verus!
