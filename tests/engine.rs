use filler::anfield::Anfield;
use filler::game::Game;
use filler::piece::Piece;
use filler::strategy::attack::{get_distance_to_opponent, get_possible_placements, place, Attack};
use filler::strategy::Strategy;
use filler::symbols::CellRole;

/// A field for player 1 (`@` own, `$` opponent) from its rows.
fn field(rows: &[&str]) -> Anfield {
    let width = rows[0].chars().count();
    let mut anfield = Anfield::new(1);
    anfield.set_dimensions(width, rows.len());
    let mut lines = vec![format!("    {}", "0123456789".chars().cycle().take(width).collect::<String>())];
    for (y, row) in rows.iter().enumerate() {
        lines.push(format!("{:03} {}", y, row));
    }
    anfield.parse(&lines).expect("field rows are well formed");
    anfield
}

fn piece(rows: &[&str]) -> Piece {
    let lines: Vec<String> = rows.iter().map(|r| r.to_string()).collect();
    Piece::new(&lines, rows[0].chars().count(), rows.len()).expect("piece rows are well formed")
}

fn is_own(role: CellRole) -> bool {
    matches!(role, CellRole::OwnSymbol | CellRole::OwnLatestMove)
}

fn is_opponent(role: CellRole) -> bool {
    matches!(role, CellRole::OpponentSymbol | CellRole::OpponentLatestMove)
}

/// The legal anchors, found by trying every anchor of the window.
fn brute_force_anchors(anfield: &Anfield, piece: &Piece) -> Vec<(isize, isize)> {
    let mut anchors = Vec::new();
    for x in -(piece.width as isize)..anfield.width as isize {
        for y in -(piece.height as isize)..anfield.height as isize {
            let mut own = 0;
            let mut ok = true;
            for cell in &piece.shape {
                let (s, t) = (x + cell.x as isize, y + cell.y as isize);
                if s < 0 || t < 0 {
                    ok = false;
                    continue;
                }
                match anfield.get_cell_role(s as usize, t as usize) {
                    None => ok = false,
                    Some(role) if is_opponent(role) => ok = false,
                    Some(role) if is_own(role) => own += 1,
                    Some(_) => {}
                }
            }
            if ok && own == 1 {
                anchors.push((x, y));
            }
        }
    }
    anchors
}

#[test]
fn accepted_anchors_match_brute_force() {
    let anfield = field(&[
        ".....$",
        "..@@..",
        ".@....",
        "......",
        "$...s.",
    ]);
    let piece = piece(&[".O.", "OOO"]);
    let found: Vec<(isize, isize)> = get_possible_placements(&anfield, &piece)
        .iter()
        .map(|p| (p.x, p.y))
        .collect();
    assert!(!found.is_empty());
    assert_eq!(found, brute_force_anchors(&anfield, &piece));
}

#[test]
fn anchors_may_start_left_of_the_field() {
    let anfield = field(&["@..", "...", "..$"]);
    let piece = piece(&["..", ".O"]);
    let found: Vec<(isize, isize)> = get_possible_placements(&anfield, &piece)
        .iter()
        .map(|p| (p.x, p.y))
        .collect();
    assert_eq!(found, vec![(-1, -1)]);
    assert_eq!(place(&anfield, &piece), [-1, -1]);
}

#[test]
fn legal_candidates_cover_one_own_cell_and_no_opponent() {
    let anfield = field(&["$....", ".@@..", "..a..", "....s"]);
    let piece = piece(&["OO", ".O"]);
    let candidates = get_possible_placements(&anfield, &piece);
    assert!(!candidates.is_empty());
    for candidate in &candidates {
        let mut own = 0;
        for cell in &piece.shape {
            let s = candidate.x + cell.x as isize;
            let t = candidate.y + cell.y as isize;
            assert!(s >= 0 && t >= 0);
            let role = anfield.get_cell_role(s as usize, t as usize).expect("cell on the field");
            assert!(!is_opponent(role));
            if is_own(role) {
                own += 1;
            }
        }
        assert_eq!(own, 1);
    }
}

#[test]
fn corridor_distance_counts_moves() {
    let anfield = field(&["@....$"]);
    assert_eq!(get_distance_to_opponent(&anfield, 0, 0), 5);
    assert_eq!(get_distance_to_opponent(&anfield, 1, 0), 4);
    assert_eq!(get_distance_to_opponent(&anfield, 5, 0), 0);
}

#[test]
fn blocked_corridor_gives_the_sentinel() {
    let anfield = field(&["@.@..$"]);
    assert_eq!(get_distance_to_opponent(&anfield, 0, 0), usize::MAX);
    assert_eq!(get_distance_to_opponent(&anfield, 1, 0), usize::MAX);
    assert_eq!(get_distance_to_opponent(&anfield, 3, 0), 2);
}

#[test]
fn search_goes_around_own_cells() {
    let anfield = field(&[".....", ".@@@.", ".@.@.", ".@@@.", "..$.."]);
    assert_eq!(get_distance_to_opponent(&anfield, 2, 2), usize::MAX);
    assert_eq!(get_distance_to_opponent(&anfield, 2, 1), 9);
    assert_eq!(get_distance_to_opponent(&anfield, 0, 0), 6);
}

#[test]
fn weights_sum_the_nearness_of_each_cell() {
    let anfield = field(&["@..$"]);
    let piece = piece(&["OO"]);
    let candidates = get_possible_placements(&anfield, &piece);
    assert_eq!(candidates.len(), 1);
    let c = candidates[0];
    assert_eq!((c.x, c.y), (0, 0));
    let max = usize::MAX as u128;
    assert_eq!(c.weight, (max - 3) + (max - 2));
}

#[test]
fn equal_weights_keep_the_first_anchor_searched() {
    let anfield = field(&["$.@.$"]);
    let piece = piece(&["OO"]);
    let candidates = get_possible_placements(&anfield, &piece);
    assert_eq!(candidates.len(), 2);
    assert_eq!(candidates[0].weight, candidates[1].weight);
    let first = place(&anfield, &piece);
    let second = place(&anfield, &piece);
    assert_eq!(first, [1, 0]);
    assert_eq!(first, second);
}

#[test]
fn no_legal_move_gives_origin() {
    let anfield = field(&["$$$", "$@$", "$$$"]);
    let piece = piece(&["OO"]);
    assert!(get_possible_placements(&anfield, &piece).is_empty());
    assert_eq!(place(&anfield, &piece), [0, 0]);
}

#[test]
fn single_cell_piece_only_fits_on_the_own_cell() {
    let anfield = field(&[".....", ".....", "..@..", ".....", "....$"]);
    let piece = piece(&["O"]);
    assert_eq!(place(&anfield, &piece), [2, 2]);
}

#[test]
fn domino_reaches_toward_the_opponent() {
    let anfield = field(&[".....", ".....", "..@..", ".....", "....$"]);
    let across = piece(&["OO"]);
    assert_eq!(place(&anfield, &across), [2, 2]);
    let down = piece(&["O", "O"]);
    assert_eq!(place(&anfield, &down), [2, 2]);
    let candidates = get_possible_placements(&anfield, &across);
    let anchors: Vec<(isize, isize)> = candidates.iter().map(|p| (p.x, p.y)).collect();
    assert_eq!(anchors, vec![(1, 2), (2, 2)]);
    assert!(candidates[1].weight > candidates[0].weight);
}

#[test]
fn strategy_and_game_play_the_same_move() {
    let anfield = field(&["@...", "....", "...s"]);
    let piece = piece(&["OO", "O."]);
    let expected = place(&anfield, &piece);
    assert_eq!(Attack.choose_move(&anfield, &piece), expected);
    let mut game = Game { anfield, strategy: Attack };
    assert_eq!(game.play(&piece), expected);
}
