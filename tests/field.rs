use filler::anfield::Anfield;
use filler::bimap::BiMap;
use filler::errors::GameError;
use filler::piece::Piece;
use filler::symbols::{populate_char_to_role, CellRole, SymbolTable};

fn lines(rows: &[&str]) -> Vec<String> {
    rows.iter().map(|r| r.to_string()).collect()
}

#[test]
fn new_field_is_empty_until_sized() {
    let mut anfield = Anfield::new(2);
    assert_eq!((anfield.width, anfield.height), (0, 0));
    assert_eq!(anfield.get_cell_role(0, 0), None);
    anfield.set_dimensions(3, 2);
    assert_eq!(anfield.cells.len(), 6);
    assert_eq!(anfield.get_cell_role(2, 1), Some(CellRole::Empty));
    assert_eq!(anfield.get_cell_role(3, 1), None);
    assert_eq!(anfield.get_cell_role(0, 2), None);
}

#[test]
fn snapshot_roles_depend_on_the_player() {
    let rows = lines(&["    012", "000 @$.", "001 as."]);
    let mut first = Anfield::new(1);
    first.set_dimensions(3, 2);
    first.parse(&rows).unwrap();
    assert_eq!(first.get_cell_role(0, 0), Some(CellRole::OwnSymbol));
    assert_eq!(first.get_cell_role(1, 0), Some(CellRole::OpponentSymbol));
    assert_eq!(first.get_cell_role(2, 0), Some(CellRole::Empty));
    assert_eq!(first.get_cell_role(0, 1), Some(CellRole::OwnLatestMove));
    assert_eq!(first.get_cell_role(1, 1), Some(CellRole::OpponentLatestMove));

    let mut second = Anfield::new(2);
    second.set_dimensions(3, 2);
    second.parse(&rows).unwrap();
    assert_eq!(second.get_cell_role(0, 0), Some(CellRole::OpponentSymbol));
    assert_eq!(second.get_cell_role(1, 0), Some(CellRole::OwnSymbol));
    assert_eq!(second.get_cell_role(0, 1), Some(CellRole::OpponentLatestMove));
    assert_eq!(second.get_cell_role(1, 1), Some(CellRole::OwnLatestMove));
}

#[test]
fn bad_snapshots_are_refused_and_leave_the_field() {
    let mut anfield = Anfield::new(1);
    anfield.set_dimensions(2, 2);
    anfield.parse(&lines(&["    01", "000 @.", "001 .$"])).unwrap();
    let before = anfield.cells.clone();
    for bad in [
        lines(&["    01", "000 @."]),
        lines(&["    01", "000 @.", "001 .$."]),
        lines(&["    01", "000 @.", "001 .X"]),
        lines(&["    01", "000 @.", "00"]),
        lines(&[]),
    ] {
        match anfield.parse(&bad) {
            Err(GameError::ParseAnfieldBody(_)) => {}
            _ => panic!("expected ParseAnfieldBody"),
        }
        assert_eq!(anfield.cells, before);
    }
}

#[test]
fn piece_shape_lists_marked_cells_in_row_order() {
    let piece = Piece::new(&lines(&[".O.", "OO.", "..O"]), 3, 3).unwrap();
    let cells: Vec<(usize, usize)> = piece.shape.iter().map(|c| (c.x, c.y)).collect();
    assert_eq!(cells, vec![(1, 0), (0, 1), (1, 1), (2, 2)]);
    assert_eq!((piece.width, piece.height), (3, 3));
}

#[test]
fn malformed_pieces_are_refused() {
    for (rows, w, h) in [
        (lines(&["OO"]), 2, 2),
        (lines(&["OO", "O"]), 2, 2),
        (lines(&["..", ".."]), 2, 2),
    ] {
        match Piece::new(&rows, w, h) {
            Err(GameError::ParsePieceBody(_)) => {}
            _ => panic!("expected ParsePieceBody"),
        }
    }
}

#[test]
fn bimap_keeps_pairs_one_to_one() {
    let mut map = BiMap::new();
    assert_eq!(map.insert('x', CellRole::Empty), Some(('x', CellRole::Empty)));
    map.insert('y', CellRole::OwnSymbol);
    assert_eq!(map.get_by_key(&'x'), Some(&CellRole::Empty));
    assert_eq!(map.get_by_value(&CellRole::OwnSymbol), Some(&'y'));
    map.insert('x', CellRole::OwnSymbol);
    assert_eq!(map.get_by_key(&'y'), None);
    assert_eq!(map.get_by_value(&CellRole::Empty), None);
    assert_eq!(map.get_by_value(&CellRole::OwnSymbol), Some(&'x'));
    assert_eq!(map.get_by_key(&'z'), None);
}

#[test]
fn symbol_table_swaps_with_the_player() {
    let mut map = BiMap::new();
    let chars = populate_char_to_role(&mut map, 2);
    assert_eq!(chars.own_char, '$');
    assert_eq!(chars.opponent_char, '@');
    assert_eq!(chars.own_latest_char, 's');
    assert_eq!(chars.opponent_latest_char, 'a');
    assert_eq!(map.get_by_key(&'$'), Some(&CellRole::OwnSymbol));
    assert_eq!(map.get_by_key(&'.'), Some(&CellRole::Empty));
    assert_eq!(map.get_by_value(&CellRole::OpponentLatestMove), Some(&'a'));

    let table = SymbolTable::new(1);
    assert_eq!(table.role_of('@'), Some(CellRole::OwnSymbol));
    assert_eq!(table.role_of('s'), Some(CellRole::OpponentLatestMove));
    assert_eq!(table.role_of('?'), None);
    assert_eq!(table.char_of(CellRole::OpponentSymbol), '$');
}

#[test]
fn field_text_lists_rows_and_symbols() {
    let mut anfield = Anfield::new(1);
    anfield.set_dimensions(3, 2);
    anfield.parse(&lines(&["    012", "000 @.$", "001 a.s"])).unwrap();
    assert_eq!(
        anfield.to_string(),
        "Anfield 3 2\n    012\n000 @.$\n001 a.s\n\
         own_char: @, opponent_char: $, own_latest_char: a, opponent_latest_char: s"
    );
}

#[test]
fn field_text_ruler_wraps_after_nine() {
    let mut anfield = Anfield::new(2);
    anfield.set_dimensions(12, 1);
    let text = anfield.to_string();
    assert!(text.starts_with("Anfield 12 1\n    012345678901\n000 ............\n"));
    assert!(text.ends_with("own_char: $, opponent_char: @, own_latest_char: s, opponent_latest_char: a"));
}
