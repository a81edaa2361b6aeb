use vstd::prelude::*;

verus! {

/// The cell in column `i` of row `j` is not a space (for a cell the maze
/// has; the callers check the bounds).
pub open spec fn blocked(maze: Seq<Vec<char>>, i: int, j: int) -> bool {
    maze[j]@[i] != ' '
}

/// Tells whether column `i`, row `j` of the maze is a wall. Any position right
/// of the first row's end or below the last row counts as a wall.
pub fn is_wall(i: usize, j: usize, maze: &Vec<Vec<char>>) -> (wall: bool)
    requires
        maze@.len() > 0,
        i < maze@[0]@.len() && j < maze@.len() ==> i < maze@[j as int]@.len(),
    ensures
        wall == (i >= maze@[0]@.len() || j >= maze@.len() || blocked(maze@, i as int, j as int)),
        i < maze@[0]@.len() && j < maze@.len() ==> (wall <==> maze@[j as int]@[i as int] != ' '),
{
    if i >= maze[0].len() || j >= maze.len() {
        return true;
    }
    maze[j][i] != ' '
}

/// A maze cell is blocked exactly when it holds any character other than a
/// space: walls may be drawn with any characters.
pub proof fn lemma_blocked_iff_not_space(maze: Seq<Vec<char>>, i: int, j: int)
    requires
        0 <= j < maze.len(),
        0 <= i < maze[j]@.len(),
    ensures
        blocked(maze, i, j) <==> maze[j]@[i] != ' ',
        maze[j]@[i] == ' ' ==> !blocked(maze, i, j),
{
}

/// What a ray finds in the cell it has reached: the cell's character and how
/// far into the cell it went, the larger of its offsets from the cell's left
/// and top edges.
#[derive(Clone, Copy, Debug, PartialEq, Eq, Structural)]
pub struct Hit {
    pub impact: char,
    pub tx: usize,
}

/// Looks at the maze cell under pixel (x, y) for a ray walking through a maze
/// drawn with `block_size` pixel blocks: a wall stops the ray and is reported,
/// an empty cell lets it go on.
pub fn ray_hit(maze: &Vec<Vec<char>>, x: usize, y: usize, block_size: usize) -> (hit: Option<Hit>)
    requires
        block_size > 0,
        y / block_size < maze@.len(),
        x / block_size < maze@[(y / block_size) as int]@.len(),
    ensures
        hit == if blocked(maze@, (x / block_size) as int, (y / block_size) as int) {
            Some(
                Hit {
                    impact: maze@[(y / block_size) as int]@[(x / block_size) as int],
                    tx: if x % block_size >= y % block_size { x % block_size } else { y % block_size },
                },
            )
        } else {
            None::<Hit>
        },
        hit.is_some() <==> maze@[(y / block_size) as int]@[(x / block_size) as int] != ' ',
        hit matches Some(h) ==> h.impact == maze@[(y / block_size) as int]@[(x / block_size) as int],
{
    let i = x / block_size;
    let j = y / block_size;
    let hitx = x % block_size;
    let hity = y % block_size;
    let maxhit = if hitx >= hity { hitx } else { hity };
    if maze[j][i] != ' ' {
        Some(Hit { impact: maze[j][i], tx: maxhit })
    } else {
        None
    }
}

/// The text split at every newline: the pieces before each newline and the
/// piece after the last one.
pub open spec fn segments(text: Seq<char>) -> Seq<Seq<char>>
    decreases text.len(),
{
    if text.len() == 0 {
        seq![Seq::<char>::empty()]
    } else {
        let s = segments(text.drop_last());
        if text.last() == '\n' {
            s.push(Seq::<char>::empty())
        } else {
            s.update(s.len() - 1, s.last().push(text.last()))
        }
    }
}

/// A line that ended with a carriage return and a newline loses the carriage
/// return.
pub open spec fn strip_cr(line: Seq<char>) -> Seq<char> {
    if line.len() > 0 && line.last() == '\r' {
        line.drop_last()
    } else {
        line
    }
}

/// The lines of a text as a line reader gives them: every newline ends a line
/// (dropping a carriage return just before it), and the text after the last
/// newline is a line of its own unless it is empty.
pub open spec fn text_lines(text: Seq<char>) -> Seq<Seq<char>> {
    let s = segments(text);
    let ended = s.drop_last().map_values(|l: Seq<char>| strip_cr(l));
    if s.last().len() == 0 {
        ended
    } else {
        ended.push(s.last())
    }
}

/// Lines put back together, each followed by a newline.
pub open spec fn join_lines(lines: Seq<Seq<char>>) -> Seq<char>
    decreases lines.len(),
{
    if lines.len() == 0 {
        Seq::empty()
    } else {
        join_lines(lines.drop_last()) + lines.last().push('\n')
    }
}

/// No piece of a split text holds a newline, nor a character the text does
/// not hold; and the pieces put back together with newlines give the text.
proof fn lemma_segments(text: Seq<char>)
    ensures
        segments(text).len() >= 1,
        forall|k: int, m: int|
            0 <= k < segments(text).len() && 0 <= m < segments(text)[k].len() ==> #[trigger] segments(text)[k][m]
                != '\n' && text.contains(segments(text)[k][m]),
        join_lines(segments(text).drop_last()) + segments(text).last() == text,
    decreases text.len(),
{
    if text.len() > 0 {
        let t1 = text.drop_last();
        let c = text.last();
        lemma_segments(t1);
        let s1 = segments(t1);
        let s = segments(text);
        assert forall|k: int, m: int| 0 <= k < s.len() && 0 <= m < s[k].len() implies #[trigger] s[k][m] != '\n'
            && text.contains(s[k][m]) by {
            if k < s1.len() && !(k == s1.len() - 1 && c != '\n' && m == s1[k].len()) {
                assert(s[k][m] == s1[k][m]);
                let w = choose|w: int| 0 <= w < t1.len() && t1[w] == s1[k][m];
                assert(text[w] == s1[k][m]);
            } else {
                assert(s[k][m] == c);
                assert(text[text.len() - 1] == c);
            }
        }
        if c == '\n' {
            assert(s.drop_last() =~= s1);
            assert(join_lines(s1) == join_lines(s1.drop_last()) + s1.last().push('\n'));
            assert(join_lines(s1) =~= (join_lines(s1.drop_last()) + s1.last()).push('\n'));
            assert(text =~= t1.push('\n'));
            assert(join_lines(s.drop_last()) + s.last() =~= text);
        } else {
            assert(s.drop_last() =~= s1.drop_last());
            assert(join_lines(s.drop_last()) + s.last() =~= (join_lines(s1.drop_last()) + s1.last()).push(c));
            assert(text =~= t1.push(c));
        }
    }
}

/// No line of a text holds a newline.
pub proof fn lemma_lines_have_no_newline(text: Seq<char>)
    ensures
        forall|r: int, m: int|
            0 <= r < text_lines(text).len() && 0 <= m < text_lines(text)[r].len() ==> #[trigger] text_lines(text)[r][m]
                != '\n',
{
    lemma_segments(text);
    let s = segments(text);
    let lines = text_lines(text);
    assert forall|r: int, m: int| 0 <= r < lines.len() && 0 <= m < lines[r].len() implies #[trigger] lines[r][m] != '\n' by {
        if r < s.len() - 1 {
            assert(lines[r] == strip_cr(s[r]));
            assert(lines[r][m] == s[r][m]);
        } else {
            assert(lines[r] == s.last());
            assert(s[s.len() - 1][m] != '\n');
        }
    }
}

/// A text without carriage returns that is empty or ends with a newline is
/// its lines, each followed by a newline.
pub proof fn lemma_lines_rejoin(text: Seq<char>)
    requires
        !text.contains('\r'),
        text.len() == 0 || text.last() == '\n',
    ensures
        join_lines(text_lines(text)) == text,
{
    lemma_segments(text);
    let s = segments(text);
    assert(s.last().len() == 0);
    assert forall|k: int| 0 <= k < s.len() - 1 implies strip_cr(#[trigger] s[k]) == s[k] by {
        if s[k].len() > 0 && s[k].last() == '\r' {
            assert(s[k][s[k].len() - 1] == '\r');
            assert(text.contains('\r'));
        }
    }
    assert(text_lines(text) =~= s.drop_last());
}

/// Turns the text of a maze file into its grid: one row per line, one cell per
/// character.
pub fn parse_maze(text: &Vec<char>) -> (maze: Vec<Vec<char>>)
    ensures
        maze@.len() == text_lines(text@).len(),
        forall|r: int| 0 <= r < maze@.len() ==> #[trigger] maze@[r]@ == text_lines(text@)[r],
{
    let mut maze: Vec<Vec<char>> = Vec::new();
    let mut current: Vec<char> = Vec::new();
    let n = text.len();
    let mut i: usize = 0;
    proof {
        assert(text@.take(0) =~= Seq::<char>::empty());
    }
    while i < n
        invariant
            n == text@.len(),
            i <= n,
            segments(text@.take(i as int)).len() == maze@.len() + 1,
            current@ == segments(text@.take(i as int)).last(),
            forall|r: int|
                0 <= r < maze@.len() ==> #[trigger] maze@[r]@ == strip_cr(segments(text@.take(i as int))[r]),
        decreases n - i,
    {
        let c = text[i];
        proof {
            assert(text@.take(i + 1).drop_last() =~= text@.take(i as int));
            assert(text@.take(i + 1).last() == c);
        }
        if c == '\n' {
            let len = current.len();
            if len > 0 && current[len - 1] == '\r' {
                current.pop();
            }
            maze.push(current);
            current = Vec::new();
        } else {
            current.push(c);
        }
        i = i + 1;
    }
    proof {
        assert(text@.take(n as int) =~= text@);
    }
    if current.len() > 0 {
        maze.push(current);
    }
    maze
}

} // verus!
