//! Decoder for run-length-encoded patterns.
//!
//! A pattern is text: any number of comment lines, which start with `#`; a
//! header line `x = <width>, y = <height>`, which may go on to the end of its
//! line with anything else; then the cells, row by row, as runs of dead (`b`)
//! or live (`o`) cells, each with an optional count before it. `$` ends a
//! row, `!` ends the pattern, and line breaks among the runs mean nothing.

use crate::board::{Board, Cell};
use crate::point::{in_grid, Point};
use vstd::prelude::*;
use vstd::string::StringSliceAdditionalSpecFns;

verus! {

/// A space.
pub const SPACE: u8 = 0x20;

/// A tab.
pub const TAB: u8 = 0x09;

/// A carriage return.
pub const CARRIAGE_RETURN: u8 = 0x0d;

/// A line feed, which ends a line.
pub const LINE_FEED: u8 = 0x0a;

/// `#`, which starts a comment line.
pub const HASH: u8 = 0x23;

/// `0`.
pub const DIGIT_ZERO: u8 = 0x30;

/// `9`.
pub const DIGIT_NINE: u8 = 0x39;

/// `x`, which names the width in the header.
pub const WIDTH_NAME: u8 = 0x78;

/// `y`, which names the height in the header.
pub const HEIGHT_NAME: u8 = 0x79;

/// `=`.
pub const EQUALS: u8 = 0x3d;

/// `,`.
pub const COMMA: u8 = 0x2c;

/// `b`, the tag of a run of dead cells.
pub const DEAD_TAG: u8 = 0x62;

/// `o`, the tag of a run of live cells.
pub const ALIVE_TAG: u8 = 0x6f;

/// `$`, which ends a row.
pub const ROW_END: u8 = 0x24;

/// `!`, which ends the pattern.
pub const PATTERN_END: u8 = 0x21;

/// Why a pattern could not be decoded.
#[derive(Debug, PartialEq, Eq, Copy, Clone, Structural)]
pub enum RleError {
    /// The header line is missing, incomplete, or gives a size that is no 32-bit number.
    MalformedHeader,
    /// Where the tag of a run should stand, there is something other than `b` or `o`.
    UnknownTag,
    /// A run reaches beyond the largest coordinate of the grid.
    OutOfGrid,
}

/// A decoded pattern as a mathematical value: the declared size and the set of live cells.
pub struct Pattern {
    pub width: u32,
    pub height: u32,
    pub cells: Set<(int, int)>,
}

/// Space, tab, carriage return or line feed.
pub open spec fn is_blank(b: u8) -> bool {
    b == SPACE || b == TAB || b == CARRIAGE_RETURN || b == LINE_FEED
}

/// A decimal digit.
pub open spec fn is_digit(b: u8) -> bool {
    DIGIT_ZERO <= b <= DIGIT_NINE
}

/// The first position at or after `i` that holds no blank.
pub open spec fn blanks_end(s: Seq<u8>, i: int) -> int
    decreases s.len() - i,
{
    if 0 <= i < s.len() && is_blank(s[i]) {
        blanks_end(s, i + 1)
    } else {
        i
    }
}

/// The first position at or after `i` that holds no digit.
pub open spec fn digits_end(s: Seq<u8>, i: int) -> int
    decreases s.len() - i,
{
    if 0 <= i < s.len() && is_digit(s[i]) {
        digits_end(s, i + 1)
    } else {
        i
    }
}

/// The number that the digits from `i` up to `j` spell in base ten.
pub open spec fn digits_value(s: Seq<u8>, i: int, j: int) -> nat
    decreases j - i,
{
    if j <= i {
        0
    } else {
        (digits_value(s, i, j - 1) * 10 + (s[j - 1] - DIGIT_ZERO)) as nat
    }
}

/// The position after the first line feed at or after `i`, if there is one.
pub open spec fn line_end(s: Seq<u8>, i: int) -> Option<int>
    decreases s.len() - i,
{
    if 0 <= i < s.len() {
        if s[i] == LINE_FEED {
            Some(i + 1)
        } else {
            line_end(s, i + 1)
        }
    } else {
        None
    }
}

/// Blanks end at or after the position where they are looked for, within the text.
pub proof fn lemma_blanks_end(s: Seq<u8>, i: int)
    requires
        0 <= i <= s.len(),
    ensures
        i <= blanks_end(s, i) <= s.len(),
        blanks_end(s, i) < s.len() ==> !is_blank(s[blanks_end(s, i)]),
    decreases s.len() - i,
{
    if i < s.len() && is_blank(s[i]) {
        lemma_blanks_end(s, i + 1);
    }
}

/// Digits end at or after the position where they are looked for, within the text.
pub proof fn lemma_digits_end(s: Seq<u8>, i: int)
    requires
        0 <= i <= s.len(),
    ensures
        i <= digits_end(s, i) <= s.len(),
        digits_end(s, i) < s.len() ==> !is_digit(s[digits_end(s, i)]),
    decreases s.len() - i,
{
    if i < s.len() && is_digit(s[i]) {
        lemma_digits_end(s, i + 1);
    }
}

/// A line ends after the position where its end is looked for, within the text.
pub proof fn lemma_line_end(s: Seq<u8>, i: int)
    requires
        0 <= i <= s.len(),
    ensures
        line_end(s, i) matches Some(j) ==> i < j <= s.len(),
    decreases s.len() - i,
{
    if i < s.len() && s[i] != LINE_FEED {
        lemma_line_end(s, i + 1);
    }
}

/// The position after the comment lines that start at `i`. A comment line
/// is any number of blanks, `#`, and everything up to the next line feed.
pub open spec fn comments_end(s: Seq<u8>, i: int) -> int
    decreases s.len() - i,
{
    let j = blanks_end(s, i);
    if 0 <= j < s.len() && s[j] == HASH {
        match line_end(s, j) {
            Some(k) => {
                proof {
                    lemma_blanks_end(s, i);
                    lemma_line_end(s, j);
                }
                comments_end(s, k)
            },
            None => i,
        }
    } else {
        i
    }
}

/// One size of the header, from position `i`: blanks, the name, blanks, `=`,
/// blanks, and a number of at least one digit that fits in 32 bits. Gives the
/// number and the position after it.
pub open spec fn dimension(s: Seq<u8>, i: int, name: u8) -> Option<(u32, int)> {
    let at_name = blanks_end(s, i);
    let at_equals = blanks_end(s, at_name + 1);
    let first = blanks_end(s, at_equals + 1);
    let end = digits_end(s, first);
    if 0 <= at_name < s.len() && s[at_name] == name && at_equals < s.len() && s[at_equals]
        == EQUALS && first < end && digits_value(s, first, end) <= u32::MAX {
        Some((digits_value(s, first, end) as u32, end))
    } else {
        None
    }
}

/// The header line, from position `i`: the width, named `x`; blanks and a
/// comma; the height, named `y`; and the rest of the line, whatever it holds,
/// up to its line feed. Gives both sizes and the position after the line.
pub open spec fn header(s: Seq<u8>, i: int) -> Option<(u32, u32, int)> {
    match dimension(s, i, WIDTH_NAME) {
        Some((width, after_width)) => {
            let at_comma = blanks_end(s, after_width);
            if at_comma < s.len() && s[at_comma] == COMMA {
                match dimension(s, at_comma + 1, HEIGHT_NAME) {
                    Some((height, after_height)) => match line_end(s, after_height) {
                        Some(next) => Some((width, height, next)),
                        None => None,
                    },
                    None => None,
                }
            } else {
                None
            }
        },
        None => None,
    }
}

/// The text without its line breaks: every line feed is taken out, together
/// with a carriage return that stands directly before it.
pub open spec fn without_line_breaks(s: Seq<u8>) -> Seq<u8>
    decreases s.len(),
{
    if s.len() == 0 {
        s
    } else if s[0] == LINE_FEED {
        without_line_breaks(s.skip(1))
    } else if s[0] == CARRIAGE_RETURN && s.len() >= 2 && s[1] == LINE_FEED {
        without_line_breaks(s.skip(2))
    } else {
        seq![s[0]] + without_line_breaks(s.skip(1))
    }
}

/// The cells of a run of `count` cells that starts at `cursor` and goes right.
pub open spec fn run_cells(cursor: (int, int), count: nat) -> Set<(int, int)> {
    Set::new(|c: (int, int)| c.1 == cursor.1 && cursor.0 <= c.0 < cursor.0 + count)
}

/// The live cells after a run of `count` cells in the state `cell` has been written at `cursor`.
pub open spec fn with_run(cells: Set<(int, int)>, cursor: (int, int), count: nat, cell: Cell) -> Set<
    (int, int),
> {
    match cell {
        Cell::Alive => cells.union(run_cells(cursor, count)),
        Cell::Dead => cells.difference(run_cells(cursor, count)),
    }
}

/// Whether a run of `count` cells at `cursor` lies in the grid.
pub open spec fn run_fits(cursor: (int, int), count: nat) -> bool {
    count > 0 ==> in_grid(cursor) && in_grid((cursor.0 + count - 1, cursor.1))
}

/// The live cells that the runs from position `i` on leave, when the cursor
/// stands at `cursor` and `cells` are alive already. A run is an optional
/// count, which is 1 where it is left out, and a tag; it writes its cells
/// from the cursor to the right and leaves the cursor behind them. `$` moves
/// the cursor to the start of the next row. `!`, or the end of the text, ends
/// the pattern.
pub open spec fn runs(s: Seq<u8>, i: int, cursor: (int, int), cells: Set<(int, int)>) -> Result<
    Set<(int, int)>,
    RleError,
>
    decreases s.len() - i,
{
    if !(0 <= i < s.len()) || s[i] == PATTERN_END {
        Ok(cells)
    } else if s[i] == ROW_END {
        runs(s, i + 1, (0, cursor.1 + 1), cells)
    } else {
        let at_tag = digits_end(s, i);
        let count = if at_tag == i {
            1
        } else {
            digits_value(s, i, at_tag)
        };
        if !(at_tag < s.len() && (s[at_tag] == DEAD_TAG || s[at_tag] == ALIVE_TAG)) {
            Err(RleError::UnknownTag)
        } else if !run_fits(cursor, count) {
            Err(RleError::OutOfGrid)
        } else {
            let cell = if s[at_tag] == ALIVE_TAG {
                Cell::Alive
            } else {
                Cell::Dead
            };
            proof {
                lemma_digits_end(s, i);
            }
            runs(s, at_tag + 1, (cursor.0 + count, cursor.1), with_run(cells, cursor, count, cell))
        }
    }
}

/// What a pattern text decodes to: its declared size and its live cells, or
/// the reason why it is no pattern. The declared size is not held against
/// the cells.
pub open spec fn decode(s: Seq<u8>) -> Result<Pattern, RleError> {
    match header(s, comments_end(s, 0)) {
        Some((width, height, data)) => match runs(
            without_line_breaks(s.subrange(data, s.len() as int)),
            0,
            (0, 0),
            Set::empty(),
        ) {
            Ok(cells) => Ok(Pattern { width, height, cells }),
            Err(e) => Err(e),
        },
        None => Err(RleError::MalformedHeader),
    }
}

/// Finds the first position at or after `i` that holds no blank.
fn skip_blanks(s: &[u8], i: usize) -> (j: usize)
    requires
        i <= s.len(),
    ensures
        j == blanks_end(s@, i as int),
        i <= j <= s.len(),
{
    let mut j = i;
    while j < s.len() && (s[j] == SPACE || s[j] == TAB || s[j] == CARRIAGE_RETURN || s[j] == LINE_FEED)
        invariant
            i <= j <= s.len(),
            blanks_end(s@, j as int) == blanks_end(s@, i as int),
        decreases s.len() - j,
    {
        j = j + 1;
    }
    j
}

/// Finds the position after the first line feed at or after `i`.
fn find_line_end(s: &[u8], i: usize) -> (end: Option<usize>)
    requires
        i <= s.len(),
    ensures
        match end {
            Some(j) => line_end(s@, i as int) == Some(j as int) && i < j <= s.len(),
            None => line_end(s@, i as int) is None,
        },
{
    let mut j = i;
    while j < s.len()
        invariant
            i <= j <= s.len(),
            line_end(s@, j as int) == line_end(s@, i as int),
        decreases s.len() - j,
    {
        if s[j] == LINE_FEED {
            return Some(j + 1);
        }
        j = j + 1;
    }
    None
}

/// Finds the position after the comment lines that start at `i`.
fn skip_comments(s: &[u8], i: usize) -> (j: usize)
    requires
        i <= s.len(),
    ensures
        j == comments_end(s@, i as int),
        i <= j <= s.len(),
{
    let mut j = i;
    loop
        invariant
            i <= j <= s.len(),
            comments_end(s@, j as int) == comments_end(s@, i as int),
        decreases s.len() - j,
    {
        let start = skip_blanks(s, j);
        if start < s.len() && s[start] == HASH {
            match find_line_end(s, start) {
                Some(next) => {
                    j = next;
                },
                None => {
                    return j;
                },
            }
        } else {
            return j;
        }
    }
}

/// The largest count that is told apart from larger ones.
const COUNT_CAP: u64 = 0x1_0000_0000;

/// Reads the digits from `i` on. Gives the number they spell, or `COUNT_CAP`
/// where that is less, and the position after them.
fn read_number(s: &[u8], i: usize) -> (number: (u64, usize))
    requires
        i <= s.len(),
    ensures
        number.1 == digits_end(s@, i as int),
        i <= number.1 <= s.len(),
        number.0 == if digits_value(s@, i as int, number.1 as int) < COUNT_CAP {
            digits_value(s@, i as int, number.1 as int)
        } else {
            COUNT_CAP as nat
        },
{
    let mut value: u64 = 0;
    let mut j = i;
    while j < s.len() && DIGIT_ZERO <= s[j] && s[j] <= DIGIT_NINE
        invariant
            i <= j <= s.len(),
            digits_end(s@, j as int) == digits_end(s@, i as int),
            value <= COUNT_CAP,
            value == if digits_value(s@, i as int, j as int) < COUNT_CAP {
                digits_value(s@, i as int, j as int)
            } else {
                COUNT_CAP as nat
            },
        decreases s.len() - j,
    {
        let digit: u64 = (s[j] - DIGIT_ZERO) as u64;
        value = value * 10 + digit;
        if value > COUNT_CAP {
            value = COUNT_CAP;
        }
        j = j + 1;
    }
    (value, j)
}

/// Reads one size of the header, named `name`, from position `i`.
fn read_dimension(s: &[u8], i: usize, name: u8) -> (found: Option<(u32, usize)>)
    requires
        i <= s.len(),
    ensures
        match found {
            Some((size, end)) => dimension(s@, i as int, name) == Some((size, end as int)) && end
                <= s.len(),
            None => dimension(s@, i as int, name) is None,
        },
{
    let at_name = skip_blanks(s, i);
    if at_name >= s.len() || s[at_name] != name {
        return None;
    }
    let at_equals = skip_blanks(s, at_name + 1);
    if at_equals >= s.len() || s[at_equals] != EQUALS {
        return None;
    }
    let first = skip_blanks(s, at_equals + 1);
    let (value, end) = read_number(s, first);
    if end == first || value > u32::MAX as u64 {
        return None;
    }
    Some((value as u32, end))
}

/// Reads the header line from position `i`.
fn read_header(s: &[u8], i: usize) -> (found: Option<(u32, u32, usize)>)
    requires
        i <= s.len(),
    ensures
        match found {
            Some((width, height, next)) => header(s@, i as int) == Some(
                (width, height, next as int),
            ) && next <= s.len(),
            None => header(s@, i as int) is None,
        },
{
    match read_dimension(s, i, WIDTH_NAME) {
        Some((width, after_width)) => {
            let at_comma = skip_blanks(s, after_width);
            if at_comma >= s.len() || s[at_comma] != COMMA {
                return None;
            }
            match read_dimension(s, at_comma + 1, HEIGHT_NAME) {
                Some((height, after_height)) => match find_line_end(s, after_height) {
                    Some(next) => Some((width, height, next)),
                    None => None,
                },
                None => None,
            }
        },
        None => None,
    }
}

/// Copies the text from `start` on, without its line breaks.
fn strip_line_breaks(s: &[u8], start: usize) -> (data: Vec<u8>)
    requires
        start <= s.len(),
    ensures
        data@ == without_line_breaks(s@.subrange(start as int, s.len() as int)),
{
    let mut data: Vec<u8> = Vec::new();
    let mut i = start;
    let ghost text = s@.subrange(start as int, s.len() as int);
    assert(text.skip(0) =~= text);
    while i < s.len()
        invariant
            start <= i <= s.len(),
            text == s@.subrange(start as int, s.len() as int),
            data@ + without_line_breaks(text.skip(i - start)) == without_line_breaks(text),
        decreases s.len() - i,
    {
        let ghost rest = text.skip(i - start);
        assert(rest.len() == s.len() - i);
        assert(rest[0] == s[i as int]);
        if s[i] == LINE_FEED {
            assert(rest.skip(1) =~= text.skip(i + 1 - start));
            i = i + 1;
        } else if s[i] == CARRIAGE_RETURN && i + 1 < s.len() && s[i + 1] == LINE_FEED {
            assert(rest[1] == s[i + 1]);
            assert(rest.skip(2) =~= text.skip(i + 2 - start));
            i = i + 2;
        } else {
            assert(rest.len() >= 2 ==> rest[1] == s[i + 1]);
            assert(rest.skip(1) =~= text.skip(i + 1 - start));
            assert((data@ + seq![s[i as int]]) + without_line_breaks(rest.skip(1)) =~= data@ + (
            seq![s[i as int]] + without_line_breaks(rest.skip(1))));
            data.push(s[i]);
            i = i + 1;
        }
    }
    assert(data@ + without_line_breaks(text.skip(i - start)) =~= data@);
    data
}

/// Writes a run of `count` cells in the state `cell`, from (`x`, `y`) to the right.
fn write_run(board: &mut Board, x: u64, y: u64, count: u64, cell: Cell)
    requires
        run_fits((x as int, y as int), count as nat),
    ensures
        final(board)@ == with_run(old(board)@, (x as int, y as int), count as nat, cell),
{
    let mut done: u64 = 0;
    assert(board@ =~= with_run(old(board)@, (x as int, y as int), 0, cell));
    while done < count
        invariant
            done <= count,
            run_fits((x as int, y as int), count as nat),
            board@ == with_run(old(board)@, (x as int, y as int), done as nat, cell),
        decreases count - done,
    {
        let p = Point::new((x + done) as i32, y as i32);
        board.set_cell(p, cell);
        done = done + 1;
        assert(board@ =~= with_run(old(board)@, (x as int, y as int), done as nat, cell));
    }
}

/// Decodes the runs of a text that holds no line breaks.
fn read_runs(s: &[u8]) -> (decoded: Result<Board, RleError>)
    ensures
        match decoded {
            Ok(board) => runs(s@, 0, (0, 0), Set::empty()) == Ok::<Set<(int, int)>, RleError>(
                board@,
            ),
            Err(e) => runs(s@, 0, (0, 0), Set::empty()) == Err::<Set<(int, int)>, RleError>(e),
        },
{
    let mut board = Board::new();
    let mut x: u64 = 0;
    let mut y: u64 = 0;
    let mut i: usize = 0;
    while i < s.len() && s[i] != PATTERN_END
        invariant
            i <= s.len(),
            y <= i,
            x <= 0x8000_0000,
            runs(s@, i as int, (x as int, y as int), board@) == runs(s@, 0, (0, 0), Set::empty()),
        decreases s.len() - i,
    {
        if s[i] == ROW_END {
            x = 0;
            y = y + 1;
            i = i + 1;
        } else {
            let (number, at_tag) = read_number(s, i);
            let count = if at_tag == i {
                1
            } else {
                number
            };
            if at_tag >= s.len() || (s[at_tag] != DEAD_TAG && s[at_tag] != ALIVE_TAG) {
                return Err(RleError::UnknownTag);
            }
            if count > 0 && (y > 0x7fff_ffff || count > 0x8000_0000 - x) {
                return Err(RleError::OutOfGrid);
            }
            let cell = if s[at_tag] == ALIVE_TAG {
                Cell::Alive
            } else {
                Cell::Dead
            };
            write_run(&mut board, x, y, count, cell);
            x = x + count;
            i = at_tag + 1;
        }
    }
    Ok(board)
}

/// A decoded pattern: the size that its header declares, and its board.
pub struct RleLoader {
    pub width: u32,
    pub height: u32,
    pub board: Board,
}

impl View for RleLoader {
    type V = Pattern;

    open spec fn view(&self) -> Pattern {
        Pattern { width: self.width, height: self.height, cells: self.board@ }
    }
}

impl RleLoader {
    /// Decodes a pattern from the bytes of its text.
    pub fn from_bytes(bytes: &[u8]) -> (decoded: Result<RleLoader, RleError>)
        ensures
            match decoded {
                Ok(loader) => decode(bytes@) == Ok::<Pattern, RleError>(loader@),
                Err(e) => decode(bytes@) == Err::<Pattern, RleError>(e),
            },
    {
        let start = skip_comments(bytes, 0);
        match read_header(bytes, start) {
            Some((width, height, next)) => {
                let data = strip_line_breaks(bytes, next);
                match read_runs(data.as_slice()) {
                    Ok(board) => Ok(RleLoader { width, height, board }),
                    Err(e) => Err(e),
                }
            },
            None => Err(RleError::MalformedHeader),
        }
    }

    /// Decodes a pattern from its text.
    pub fn from_string(string: &str) -> (decoded: Result<RleLoader, RleError>)
        ensures
            match decoded {
                Ok(loader) => decode(string.spec_bytes()) == Ok::<Pattern, RleError>(loader@),
                Err(e) => decode(string.spec_bytes()) == Err::<Pattern, RleError>(e),
            },
    {
        RleLoader::from_bytes(string.as_bytes())
    }
}

/// The live cells of the built-in example pattern, a glider.
pub open spec fn example_cells() -> Set<(int, int)> {
    set![(1, 0), (2, 1), (0, 2), (1, 2), (2, 2)]
}

/// The board of the built-in example pattern.
pub fn example_board() -> (board: Board)
    ensures
        board@ == example_cells(),
{
    let string = "x = 3, y = 4\nbo$2bo$3o!";
    proof {
        reveal_strlit("x = 3, y = 4\nbo$2bo$3o!");
        vstd::string::is_ascii_spec_bytes(string);
        assert(vstd::string::is_ascii(string));
        assert(string.spec_bytes() =~= seq![
            0x78u8, 0x20, 0x3d, 0x20, 0x33, 0x2c, 0x20, 0x79, 0x20, 0x3d, 0x20, 0x34, 0x0a,
            0x62, 0x6f, 0x24, 0x32, 0x62, 0x6f, 0x24, 0x33, 0x6f, 0x21,
        ]);
        lemma_example_decodes(string.spec_bytes());
    }
    RleLoader::from_string(string).unwrap().board
}

/// The example text decodes to the example cells, under the size 3 by 4.
proof fn lemma_example_decodes(b: Seq<u8>)
    requires
        b == seq![
            0x78u8, 0x20, 0x3d, 0x20, 0x33, 0x2c, 0x20, 0x79, 0x20, 0x3d, 0x20, 0x34, 0x0a,
            0x62, 0x6f, 0x24, 0x32, 0x62, 0x6f, 0x24, 0x33, 0x6f, 0x21,
        ],
    ensures
        decode(b) == Ok::<Pattern, RleError>(
            Pattern { width: 3, height: 4, cells: example_cells() },
        ),
{
    reveal_with_fuel(blanks_end, 3);
    reveal_with_fuel(digits_end, 3);
    reveal_with_fuel(digits_value, 3);
    assert(b.len() == 23);
    assert(comments_end(b, 0) == 0);
    assert(dimension(b, 0, WIDTH_NAME) == Some((3u32, 5int)));
    assert(dimension(b, 6, HEIGHT_NAME) == Some((4u32, 12int)));
    assert(line_end(b, 12) == Some(13int));
    assert(header(b, 0) == Some((3u32, 4u32, 13int)));
    let d = b.subrange(13, 23);
    assert(d =~= seq![0x62u8, 0x6f, 0x24, 0x32, 0x62, 0x6f, 0x24, 0x33, 0x6f, 0x21]);
    lemma_no_line_breaks(d);
    let c0 = Set::<(int, int)>::empty();
    let c1 = with_run(c0, (0, 0), 1, Cell::Dead);
    let c2 = with_run(c1, (1, 0), 1, Cell::Alive);
    let c3 = with_run(c2, (0, 1), 2, Cell::Dead);
    let c4 = with_run(c3, (2, 1), 1, Cell::Alive);
    let c5 = with_run(c4, (0, 2), 3, Cell::Alive);
    assert(runs(d, 9, (3, 2), c5) == Ok::<Set<(int, int)>, RleError>(c5));
    assert(runs(d, 7, (0, 2), c4) == runs(d, 9, (3, 2), c5));
    assert(runs(d, 6, (3, 1), c4) == runs(d, 7, (0, 2), c4));
    assert(runs(d, 5, (2, 1), c3) == runs(d, 6, (3, 1), c4));
    assert(runs(d, 3, (0, 1), c2) == runs(d, 5, (2, 1), c3));
    assert(runs(d, 2, (2, 0), c2) == runs(d, 3, (0, 1), c2));
    assert(runs(d, 1, (1, 0), c1) == runs(d, 2, (2, 0), c2));
    assert(runs(d, 0, (0, 0), c0) == runs(d, 1, (1, 0), c1));
    assert(c5 =~= example_cells());
}

/// A text that holds no line feed has no line breaks to take out.
proof fn lemma_no_line_breaks(s: Seq<u8>)
    requires
        forall|i: int| 0 <= i < s.len() ==> s[i] != LINE_FEED,
    ensures
        without_line_breaks(s) == s,
    decreases s.len(),
{
    if s.len() > 0 {
        lemma_no_line_breaks(s.skip(1));
        assert(seq![s[0]] + s.skip(1) =~= s);
    }
}

} // verus!
