use filler::visualizer::parser::GridParser;
use filler::visualizer::renderer::render_grid_to_buffer;

#[test]
fn parses_anfield_grid_correctly() {
    let input_lines = [
        "Anfield 20 15:",
        "    01234567890123456789",
        "000 ....................",
        "001 ....................",
        "002 .........@..........",
        "003 ....................",
        "004 ....................",
        "005 ....................",
        "006 ....................",
        "007 ....................",
        "008 ....................",
        "009 ....................",
        "010 ....................",
        "011 ....................",
        "012 .........$..........",
        "013 ....................",
        "014 ....................",
    ];

    let mut parser = GridParser::new();

    let mut parsed_grid = None;
    for line in input_lines.iter() {
        if let Some((width, height, grid)) = parser.process_line(line) {
            parsed_grid = Some((width, height, grid));
            break;
        }
    }

    let (width, height, grid) = parsed_grid.expect("Grid was not parsed");

    assert_eq!(width, 20);
    assert_eq!(height, 15);
    assert_eq!(grid.len(), height);

    assert_eq!(grid[2][9], '@');
    assert_eq!(grid[12][9], '$');
    assert_eq!(grid[0][0], '.');
}

#[test]
fn grid_rows_are_cut_to_width_and_short_rows_skipped() {
    let mut parser = GridParser::new();
    assert!(parser.process_line("Anfield 3 2:").is_none());
    assert!(parser.process_line("000 ..").is_none());
    assert!(parser.process_line("not a row").is_none());
    assert!(parser.process_line("000 @.$$$").is_none());
    let (w, h, grid) = parser.process_line("001 a.s").expect("second row completes the grid");
    assert_eq!((w, h), (3, 2));
    assert_eq!(grid, vec![vec!['@', '.', '$'], vec!['a', '.', 's']]);
    assert!(parser.process_line("002 ...").is_none());
}

#[test]
fn rows_before_any_header_are_ignored() {
    let mut parser = GridParser::new();
    assert!(parser.process_line("000 ....").is_none());
    assert!(parser.process_line("Anfield 1 1:").is_none());
    assert_eq!(parser.process_line("000 $").map(|g| g.2), Some(vec![vec!['$']]));
}

#[test]
fn grid_is_painted_in_scaled_squares() {
    let grid = vec![vec!['@', '$'], vec!['a', 's'], vec!['.', 'x']];
    let (width, height, scale) = (2, 3, 2);
    let mut buffer = vec![7u32; width * scale * height * scale + 3];
    render_grid_to_buffer(&mut buffer, &grid, width, height, scale);
    let bw = width * scale;
    assert_eq!(buffer[0], 0xFF0000);
    assert_eq!(buffer[bw + 1], 0xFF0000);
    assert_eq!(buffer[2], 0x00FF00);
    assert_eq!(buffer[2 * bw], 0xFFAAAA);
    assert_eq!(buffer[3 * bw + 3], 0xAAFFAA);
    assert_eq!(buffer[5 * bw], 0x123456);
    assert_eq!(buffer[5 * bw + 3], 0x123456);
    assert_eq!(&buffer[bw * height * scale..], &[7, 7, 7]);
}
