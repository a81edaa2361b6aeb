use laberinto::maze::{is_wall, parse_maze, ray_hit, Hit};

fn grid(rows: &[&str]) -> Vec<Vec<char>> {
    rows.iter().map(|r| r.chars().collect()).collect()
}

#[test]
fn is_wall_inside_and_outside() {
    let maze = grid(&[" #", "  "]);
    assert!(!is_wall(0, 0, &maze));
    assert!(is_wall(1, 0, &maze));
    assert!(!is_wall(1, 1, &maze));
    assert!(is_wall(2, 0, &maze));
    assert!(is_wall(0, 2, &maze));
    assert!(is_wall(usize::MAX, usize::MAX, &maze));
}

#[test]
fn ray_hit_reports_walls() {
    let maze = grid(&["  ", " #"]);
    assert_eq!(ray_hit(&maze, 15, 12, 10), Some(Hit { impact: '#', tx: 5 }));
    assert_eq!(ray_hit(&maze, 12, 19, 10), Some(Hit { impact: '#', tx: 9 }));
    assert_eq!(ray_hit(&maze, 5, 5, 10), None);
    assert_eq!(ray_hit(&maze, 19, 0, 10), None);
}

#[test]
fn parse_maze_splits_lines() {
    let text: Vec<char> = "ab\r\ncd\n\nx".chars().collect();
    assert_eq!(parse_maze(&text), grid(&["ab", "cd", "", "x"]));
}

#[test]
fn parse_maze_trailing_newline_and_empty() {
    let text: Vec<char> = "+-+\n| |\n".chars().collect();
    assert_eq!(parse_maze(&text), grid(&["+-+", "| |"]));
    assert_eq!(parse_maze(&Vec::new()), Vec::<Vec<char>>::new());
    let text: Vec<char> = "\n".chars().collect();
    assert_eq!(parse_maze(&text), grid(&[""]));
}

#[test]
fn parse_maze_keeps_unterminated_carriage_return() {
    let text: Vec<char> = "a\r".chars().collect();
    assert_eq!(parse_maze(&text), grid(&["a\r"]));
}

#[test]
fn parse_maze_rows_have_no_newline() {
    let text: Vec<char> = "a\n\r\n\n b \r\n".chars().collect();
    let maze = parse_maze(&text);
    assert_eq!(maze, grid(&["a", "", "", " b "]));
    assert!(maze.iter().all(|row| !row.contains(&'\n')));
}

#[test]
fn lines_rejoin_to_the_text() {
    let text = "#  #\n# ##\n\n####\n";
    let maze = parse_maze(&text.chars().collect());
    let mut joined = String::new();
    for row in &maze {
        joined.extend(row.iter());
        joined.push('\n');
    }
    assert_eq!(joined, text);
}
