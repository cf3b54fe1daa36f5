use conway_life::parser::{cells_dimension, cells_parse, split_lines, ParseError};
use conway_life::world::World;

fn chars(s: &str) -> Vec<char> {
    s.chars().collect()
}

fn live_cells(world: &World) -> Vec<(usize, usize)> {
    let mut cells = Vec::new();
    for h in 0..world.height() {
        for w in 0..world.width() {
            if world.is_alive(w, h) {
                cells.push((w, h));
            }
        }
    }
    cells
}

#[test]
fn test_cells_dimension() {
    assert_eq!((0, 0), cells_dimension(""));
    assert_eq!((0, 0), cells_dimension("!only a comment"));
    assert_eq!(
        (7, 5),
        cells_dimension(
            r#"!7x5 world
....O
..O
...O..O
.O
O"#
        )
    );
}

#[test]
fn split_lines_agrees_with_std() {
    let texts = [
        "",
        "\n",
        "\n\n",
        "a",
        "a\n",
        "a\nb",
        "a\r\nb\r\n",
        "a\r",
        "a\r\n\r",
        "\r\n",
        "a\r\r\nb",
        "..O\n\n.O.\n",
        "!x\n!y\nO",
        "\rO\n",
    ];
    for text in texts {
        let want: Vec<Vec<char>> = text.lines().map(chars).collect();
        assert_eq!(split_lines(text), want, "{:?}", text);
    }
}

#[test]
fn split_lines_counts_characters_not_bytes() {
    assert_eq!(split_lines("é.O\nö"), vec![chars("é.O"), chars("ö")]);
}

#[test]
fn dimension_ends_each_row_at_its_last_live_cell() {
    assert_eq!(cells_dimension("O...."), (1, 1));
    assert_eq!(cells_dimension("....."), (0, 1));
    assert_eq!(cells_dimension("..O..\n.....\n"), (3, 2));
    assert_eq!(cells_dimension("\n\n\n"), (0, 3));
}

#[test]
fn dimension_skips_only_the_comments_at_the_top() {
    assert_eq!(cells_dimension("!a\n!b\n.O\n"), (2, 1));
    assert_eq!(cells_dimension("!a\n.O\n!b\n..O"), (3, 3));
    assert_eq!(cells_dimension("\n!a\nO"), (1, 3));
}

#[test]
fn dimension_counts_characters_not_bytes() {
    assert_eq!(cells_dimension("éöO"), (3, 1));
}

#[test]
fn parse_puts_a_dead_border_around_the_pattern() {
    let world = cells_parse("!glider\n.O\n..O\nOOO\n").unwrap();
    assert_eq!((world.width(), world.height()), (5, 5));
    assert_eq!(world.generation(), 0);
    assert_eq!(world.alive(), 5);
    assert_eq!(live_cells(&world), vec![(2, 1), (3, 2), (1, 3), (2, 3), (3, 3)]);
}

#[test]
fn parse_of_nothing_is_a_dead_two_by_two() {
    for text in ["", "!only a comment", "!a\n!b\n"] {
        let world = cells_parse(text).unwrap();
        assert_eq!((world.width(), world.height()), (2, 2));
        assert_eq!(world.alive(), 0);
    }
}

#[test]
fn parse_accepts_a_single_row() {
    let world = cells_parse("O.O").unwrap();
    assert_eq!((world.width(), world.height()), (5, 3));
    assert_eq!(live_cells(&world), vec![(1, 1), (3, 1)]);
}

#[test]
fn parse_takes_a_carriage_return_as_part_of_the_line_ending() {
    let world = cells_parse("!x\r\nO.\r\n.O\r\n").unwrap();
    assert_eq!((world.width(), world.height()), (4, 4));
    assert_eq!(live_cells(&world), vec![(1, 1), (2, 2)]);
}

#[test]
fn parse_reports_the_first_invalid_character() {
    assert_eq!(
        cells_parse(".O\n.x.y\nz").err().unwrap(),
        ParseError::InvalidCharacter { row: 2, col: 2, found: 'x' }
    );
    assert_eq!(
        cells_parse("!c\n!c\n..O \n").err().unwrap(),
        ParseError::InvalidCharacter { row: 1, col: 4, found: ' ' }
    );
}

#[test]
fn parse_rejects_a_comment_below_the_top() {
    assert_eq!(
        cells_parse("O\n!late").err().unwrap(),
        ParseError::InvalidCharacter { row: 2, col: 1, found: '!' }
    );
}

#[test]
fn parse_rejects_a_lone_carriage_return() {
    assert_eq!(
        cells_parse("O\r").err().unwrap(),
        ParseError::InvalidCharacter { row: 1, col: 2, found: '\r' }
    );
    assert_eq!(
        cells_parse("O\r.\n").err().unwrap(),
        ParseError::InvalidCharacter { row: 1, col: 2, found: '\r' }
    );
}

#[test]
fn parse_agrees_with_dimension() {
    let text = "!7x5 world\n....O\n..O\n...O..O\n.O\nO";
    let (w, h) = cells_dimension(text);
    let world = cells_parse(text).unwrap();
    assert_eq!((world.width(), world.height()), (w + 2, h + 2));
    assert_eq!(world.alive(), 6);
    assert_eq!(live_cells(&world), vec![(5, 1), (3, 2), (4, 3), (7, 3), (2, 4), (1, 5)]);
}
