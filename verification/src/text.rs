//! The text form of a field: 13 top-to-bottom rows of 6 cells.

use vstd::prelude::*;
use crate::board::{Board, Cell, ParseBoardError};
use crate::board;
use vstd::string::StringExecFns;

verus! {

broadcast use board::lemma_board_len;

/// `char::is_whitespace`: the Unicode `White_Space` property.
pub open spec fn is_white_space(c: char) -> bool {
    let v = c as u32;
    ||| (0x9 <= v && v <= 0xd)
    ||| v == 0x20
    ||| v == 0x85
    ||| v == 0xa0
    ||| v == 0x1680
    ||| (0x2000 <= v && v <= 0x200a)
    ||| v == 0x2028
    ||| v == 0x2029
    ||| v == 0x202f
    ||| v == 0x205f
    ||| v == 0x3000
}

pub fn white_space(c: char) -> (r: bool)
    ensures
        r == is_white_space(c),
{
    let v = c as u32;
    (0x9 <= v && v <= 0xd) || v == 0x20 || v == 0x85 || v == 0xa0 || v == 0x1680 || (0x2000 <= v
        && v <= 0x200a) || v == 0x2028 || v == 0x2029 || v == 0x202f || v == 0x205f || v == 0x3000
}

pub open spec fn is_separator(c: char) -> bool {
    c == '/' || c == '\n' || c == '\r'
}

pub open spec fn leading_space(s: Seq<char>) -> nat
    decreases s.len(),
{
    if s.len() > 0 && is_white_space(s[0]) {
        1 + leading_space(s.drop_first())
    } else {
        0
    }
}

pub open spec fn trailing_space(s: Seq<char>) -> nat
    decreases s.len(),
{
    if s.len() > 0 && is_white_space(s.last()) {
        1 + trailing_space(s.drop_last())
    } else {
        0
    }
}

/// `str::trim`: the text without leading and trailing white space.
pub open spec fn trimmed(s: Seq<char>) -> Seq<char> {
    if leading_space(s) >= s.len() {
        Seq::empty()
    } else {
        s.subrange(leading_space(s) as int, s.len() - trailing_space(s))
    }
}

/// Ends the row in progress: it is kept, trimmed, unless only white space
/// remains.
pub open spec fn close_row(rows: Seq<Seq<char>>, cur: Seq<char>) -> Seq<Seq<char>> {
    if trimmed(cur).len() > 0 {
        rows.push(trimmed(cur))
    } else {
        rows
    }
}

/// Rows closed so far and the row in progress, after reading `s`.
pub open spec fn split_state(s: Seq<char>) -> (Seq<Seq<char>>, Seq<char>)
    decreases s.len(),
{
    if s.len() == 0 {
        (Seq::empty(), Seq::empty())
    } else {
        let (rows, cur) = split_state(s.drop_last());
        if is_separator(s.last()) {
            (close_row(rows, cur), Seq::empty())
        } else {
            (rows, cur.push(s.last()))
        }
    }
}

/// The non-blank rows of `s`, trimmed; rows end at `/`, a newline, or a
/// carriage return.
pub open spec fn text_rows(s: Seq<char>) -> Seq<Seq<char>> {
    close_row(split_state(s).0, split_state(s).1)
}

pub open spec fn first_invalid(row: Seq<char>, x: int) -> Option<int>
    decreases row.len() - x,
{
    if x >= row.len() || x < 0 {
        None
    } else if board::cell_from_char(row[x]) is None {
        Some(x)
    } else {
        first_invalid(row, x + 1)
    }
}

/// The error of the row `top` (zero-based, from the top), if any.
pub open spec fn row_error(row: Seq<char>, top: int) -> Option<ParseBoardError> {
    if row.len() != 6 {
        Some(ParseBoardError::WrongColumnCount { row: (top + 1) as usize, actual: row.len() as usize })
    } else {
        match first_invalid(row, 0) {
            Some(x) => Some(
                ParseBoardError::InvalidCell {
                    row: (top + 1) as usize,
                    column: (x + 1) as usize,
                    value: row[x],
                },
            ),
            None => None,
        }
    }
}

/// The first row error among rows `k..`.
pub open spec fn rows_error(rows: Seq<Seq<char>>, k: int) -> Option<ParseBoardError>
    decreases rows.len() - k,
{
    if k >= rows.len() || k < 0 {
        None
    } else {
        match row_error(rows[k], k) {
            Some(e) => Some(e),
            None => rows_error(rows, k + 1),
        }
    }
}

/// The field written by 13 rows of valid cells, top row first.
pub open spec fn rows_field(rows: Seq<Seq<char>>) -> Seq<Cell> {
    Seq::new(78, |p: int| board::cell_from_char(rows[12 - p / 6][p % 6])->0)
}

pub open spec fn parse_spec(s: Seq<char>) -> Result<Seq<Cell>, ParseBoardError> {
    let rows = text_rows(s);
    if rows.len() != 13 {
        Err(ParseBoardError::WrongRowCount { actual: rows.len() as usize })
    } else {
        match rows_error(rows, 0) {
            Some(e) => Err(e),
            None => match board::gravity_check(rows_field(rows)) {
                Ok(()) => Ok(rows_field(rows)),
                Err(e) => Err(e),
            },
        }
    }
}

proof fn lemma_leading(s: Seq<char>, a: int)
    requires
        0 <= a <= s.len(),
        forall|j: int| 0 <= j < a ==> is_white_space(s[j]),
    ensures
        leading_space(s) >= a,
        a == s.len() || !is_white_space(s[a]) ==> leading_space(s) == a,
        leading_space(s) <= s.len(),
    decreases s.len(),
{
    if a > 0 {
        lemma_leading(s.drop_first(), a - 1);
    } else if s.len() > 0 && is_white_space(s[0]) {
        lemma_leading(s.drop_first(), 0);
    }
}

proof fn lemma_trailing(s: Seq<char>, a: int)
    requires
        0 <= a <= s.len(),
        forall|j: int| s.len() - a <= j < s.len() ==> is_white_space(s[j]),
    ensures
        trailing_space(s) >= a,
        a == s.len() || !is_white_space(s[s.len() - 1 - a]) ==> trailing_space(s) == a,
        trailing_space(s) <= s.len(),
    decreases s.len(),
{
    if a > 0 {
        lemma_trailing(s.drop_last(), a - 1);
    } else if s.len() > 0 && is_white_space(s.last()) {
        lemma_trailing(s.drop_last(), 0);
    }
}

fn trim_row(cur: &Vec<char>) -> (t: Vec<char>)
    ensures
        t@ == trimmed(cur@),
{
    let ghost s = cur@;
    let n = cur.len();
    let mut a: usize = 0;
    while a < n && white_space(cur[a])
        invariant
            s == cur@,
            n == s.len(),
            a <= n,
            forall|j: int| 0 <= j < a ==> is_white_space(s[j]),
        decreases n - a,
    {
        a += 1;
    }
    proof {
        lemma_leading(s, a as int);
    }
    if a == n {
        return Vec::new();
    }
    let mut z: usize = n;
    while z > a && white_space(cur[z - 1])
        invariant
            s == cur@,
            n == s.len(),
            a < n,
            a <= z <= n,
            !is_white_space(s[a as int]),
            forall|j: int| z <= j < n ==> is_white_space(s[j]),
        decreases z,
    {
        z -= 1;
    }
    proof {
        lemma_trailing(s, (n - z) as int);
    }
    let mut t: Vec<char> = Vec::new();
    let mut i = a;
    while i < z
        invariant
            s == cur@,
            a <= i <= z <= n,
            n == s.len(),
            t@ == s.subrange(a as int, i as int),
        decreases z - i,
    {
        t.push(cur[i]);
        assert(t@ =~= s.subrange(a as int, (i + 1) as int));
        i += 1;
    }
    t
}

/// Adds the row in progress to the closed rows.
fn close(rows: &mut Vec<Vec<char>>, cur: &Vec<char>, Ghost(spec_rows): Ghost<Seq<Seq<char>>>) -> (r: Ghost<Seq<Seq<char>>>)
    requires
        old(rows)@.len() == spec_rows.len(),
        forall|i: int| 0 <= i < spec_rows.len() ==> #[trigger] old(rows)@[i]@ == spec_rows[i],
    ensures
        r@ == close_row(spec_rows, cur@),
        final(rows)@.len() == r@.len(),
        forall|i: int| 0 <= i < r@.len() ==> #[trigger] final(rows)@[i]@ == r@[i],
{
    let t = trim_row(cur);
    if t.len() > 0 {
        rows.push(t);
        Ghost(spec_rows.push(trimmed(cur@)))
    } else {
        Ghost(spec_rows)
    }
}

impl Board {
    /// Parses 13 top-to-bottom rows separated by `/` or newlines.
    ///
    /// Empty cells are `.`, `E`, or `e`; garbage is `O`; colors are `RGBY`.
    pub fn parse(input: &str) -> (r: Result<Board, ParseBoardError>)
        ensures
            match parse_spec(input@) {
                Ok(f) => r matches Ok(b) && b@ == f,
                Err(e) => r == Err::<Board, ParseBoardError>(e),
            },
    {
        let ghost s = input@;
        let n = input.unicode_len();
        let mut rows: Vec<Vec<char>> = Vec::new();
        let mut cur: Vec<char> = Vec::new();
        let ghost mut spec_rows: Seq<Seq<char>> = Seq::empty();
        let mut i: usize = 0;
        while i < n
            invariant
                s == input@,
                n == s.len(),
                i <= n,
                split_state(s.take(i as int)) == (spec_rows, cur@),
                rows@.len() == spec_rows.len(),
                forall|k: int| 0 <= k < spec_rows.len() ==> #[trigger] rows@[k]@ == spec_rows[k],
            decreases n - i,
        {
            let c = input.get_char(i);
            assert(s.take(i + 1).drop_last() =~= s.take(i as int));
            if c == '/' || c == '\n' || c == '\r' {
                let g = close(&mut rows, &cur, Ghost(spec_rows));
                proof {
                    spec_rows = g@;
                }
                cur = Vec::new();
            } else {
                cur.push(c);
            }
            i += 1;
        }
        assert(s.take(n as int) =~= s);
        let g = close(&mut rows, &cur, Ghost(spec_rows));
        proof {
            spec_rows = g@;
        }
        assert(spec_rows == text_rows(s));
        if rows.len() != 13 {
            return Err(ParseBoardError::WrongRowCount { actual: rows.len() });
        }
        let mut board = Board::empty();
        let mut top: usize = 0;
        while top < 13
            invariant
                s == input@,
                spec_rows == text_rows(s),
                spec_rows.len() == 13,
                rows@.len() == 13,
                forall|k: int| 0 <= k < 13 ==> #[trigger] rows@[k]@ == spec_rows[k],
                top <= 13,
                rows_error(spec_rows, 0) == rows_error(spec_rows, top as int),
                forall|p: int|
                    0 <= p < 78 && 12 - p / 6 < top ==> board@[p] == rows_field(spec_rows)[p],
            decreases 13 - top,
        {
            let row = &rows[top];
            assert(row@ == spec_rows[top as int]);
            if row.len() != 6 {
                assert(row_error(spec_rows[top as int], top as int) is Some);
                assert(rows_error(spec_rows, top as int) == row_error(spec_rows[top as int], top as int));
                return Err(ParseBoardError::WrongColumnCount { row: top + 1, actual: row.len() });
            }
            let mut x: usize = 0;
            while x < 6
                invariant
                    s == input@,
                    spec_rows == text_rows(s),
                    spec_rows.len() == 13,
                    rows_error(spec_rows, 0) == rows_error(spec_rows, top as int),
                    top < 13,
                    row@ == spec_rows[top as int],
                    row@.len() == 6,
                    x <= 6,
                    first_invalid(row@, 0) == first_invalid(row@, x as int),
                    forall|p: int|
                        0 <= p < 78 && (12 - p / 6 < top || (12 - p / 6 == top && p % 6 < x))
                            ==> board@[p] == rows_field(spec_rows)[p],
                decreases 6 - x,
            {
                let value = row[x];
                match Cell::from_char(value) {
                    None => {
                        assert(first_invalid(row@, x as int) == Some(x as int));
                        assert(row_error(spec_rows[top as int], top as int) is Some);
                        assert(rows_error(spec_rows, top as int) == row_error(spec_rows[top as int], top as int));
                        return Err(
                            ParseBoardError::InvalidCell { row: top + 1, column: x + 1, value },
                        );
                    },
                    Some(cell) => {
                        board.set(x, 12 - top, cell);
                    },
                }
                x += 1;
            }
            assert(first_invalid(row@, 6) is None);
            assert(rows_error(spec_rows, top as int) == rows_error(spec_rows, top + 1));
            top += 1;
        }
        assert(board@ =~= rows_field(spec_rows));
        match board.validate_gravity() {
            Ok(()) => Ok(board),
            Err(e) => Err(e),
        }
    }
}


/// Row `top` of the field (zero-based from the top) as text.
pub open spec fn row_text(b: Seq<Cell>, top: int) -> Seq<char> {
    Seq::new(6, |x: int| board::cell_char(b[(12 - top) * 6 + x]))
}

/// The first `n` rows from the top, one text line each.
pub open spec fn field_text_upto(b: Seq<Cell>, n: int) -> Seq<char>
    decreases n,
{
    if n <= 0 {
        Seq::empty()
    } else if n == 1 {
        row_text(b, 0)
    } else {
        field_text_upto(b, n - 1) + seq!['\n'] + row_text(b, n - 1)
    }
}

/// The field as 13 lines of 6 cells, top row first, without a final
/// newline.
pub open spec fn field_text(b: Seq<Cell>) -> Seq<char> {
    field_text_upto(b, 13)
}

/// `String::push`: appends one character to the string.
#[verifier::external_body]
fn push_char(s: &mut String, c: char)
    ensures
        final(s)@ == old(s)@.push(c),
{
    s.push(c);
}

impl Board {
    /// The field as text, as `Board::parse` reads it.
    pub fn to_string(&self) -> (r: String)
        ensures
            r@ == field_text(self@),
    {
        let mut text = String::new();
        let mut top: usize = 0;
        while top < 13
            invariant
                top <= 13,
                text@ == field_text_upto(self@, top as int),
            decreases 13 - top,
        {
            let ghost before = text@;
            if top > 0 {
                push_char(&mut text, '\n');
            }
            let mut x: usize = 0;
            while x < 6
                invariant
                    top < 13,
                    x <= 6,
                    text@ == (if top > 0 {
                        before + seq!['\n']
                    } else {
                        before
                    }) + row_text(self@, top as int).take(x as int),
                decreases 6 - x,
            {
                let c = self.get(x, 12 - top).as_char();
                push_char(&mut text, c);
                assert(row_text(self@, top as int).take(x + 1) =~= row_text(self@, top as int).take(
                    x as int,
                ).push(c));
                x += 1;
            }
            assert(row_text(self@, top as int).take(6) =~= row_text(self@, top as int));
            if top == 0 {
                assert(before =~= Seq::<char>::empty());
                assert(text@ =~= row_text(self@, 0));
            }
            top += 1;
        }
        text
    }
}

proof fn lemma_split_append(s: Seq<char>, t: Seq<char>)
    requires
        forall|i: int| 0 <= i < t.len() ==> !is_separator(t[i]),
    ensures
        split_state(s + t) == (split_state(s).0, split_state(s).1 + t),
    decreases t.len(),
{
    if t.len() == 0 {
        assert(s + t =~= s);
        assert(split_state(s).1 + t =~= split_state(s).1);
    } else {
        let front = t.drop_last();
        lemma_split_append(s, front);
        assert((s + t).drop_last() =~= s + front);
        assert((s + t).last() == t.last());
        assert((split_state(s).1 + front).push(t.last()) =~= split_state(s).1 + t);
    }
}

proof fn lemma_row_text_plain(b: Seq<Cell>, top: int)
    ensures
        row_text(b, top).len() == 6,
        forall|i: int|
            0 <= i < 6 ==> !is_separator(#[trigger] row_text(b, top)[i]) && !is_white_space(
                row_text(b, top)[i],
            ) && board::cell_from_char(row_text(b, top)[i]) == Some(b[(12 - top) * 6 + i]),
        trimmed(row_text(b, top)) == row_text(b, top),
        first_invalid(row_text(b, top), 0) is None,
{
    let r = row_text(b, top);
    assert forall|i: int| 0 <= i < 6 implies !is_separator(#[trigger] r[i]) && !is_white_space(r[i])
        && board::cell_from_char(r[i]) == Some(b[(12 - top) * 6 + i]) by {
        let c = b[(12 - top) * 6 + i];
        assert(r[i] == board::cell_char(c));
    }
    assert(leading_space(r) == 0);
    assert(trailing_space(r) == 0);
    assert(r.subrange(0, 6) =~= r);
    lemma_row_valid(r, 0);
}

proof fn lemma_row_valid(r: Seq<char>, x: int)
    requires
        0 <= x,
        forall|i: int| 0 <= i < r.len() ==> board::cell_from_char(r[i]) is Some,
    ensures
        first_invalid(r, x) is None,
    decreases r.len() - x,
{
    if x < r.len() {
        lemma_row_valid(r, x + 1);
    }
}

/// The rows of the first `n` lines of a field's text.
proof fn lemma_split_field_text(b: Seq<Cell>, n: int)
    requires
        1 <= n <= 13,
    ensures
        split_state(field_text_upto(b, n)) == (
            Seq::new((n - 1) as nat, |k: int| row_text(b, k)),
            row_text(b, n - 1),
        ),
    decreases n,
{
    lemma_row_text_plain(b, n - 1);
    if n == 1 {
        lemma_split_append(Seq::empty(), row_text(b, 0));
        assert(Seq::<char>::empty() + row_text(b, 0) =~= row_text(b, 0));
        assert(Seq::<char>::empty() + row_text(b, 0) =~= row_text(b, 0));
        assert(Seq::new(0, |k: int| row_text(b, k)) =~= Seq::<Seq<char>>::empty());
    } else {
        lemma_split_field_text(b, n - 1);
        lemma_row_text_plain(b, n - 2);
        let head = field_text_upto(b, n - 1) + seq!['\n'];
        assert(head =~= field_text_upto(b, n - 1).push('\n'));
        assert(head.drop_last() =~= field_text_upto(b, n - 1));
        assert(split_state(head) == (
            Seq::new((n - 1) as nat, |k: int| row_text(b, k)),
            Seq::<char>::empty(),
        )) by {
            assert(Seq::new((n - 2) as nat, |k: int| row_text(b, k)).push(row_text(b, n - 2))
                =~= Seq::new((n - 1) as nat, |k: int| row_text(b, k)));
        }
        lemma_split_append(head, row_text(b, n - 1));
        assert(Seq::<char>::empty() + row_text(b, n - 1) =~= row_text(b, n - 1));
    }
}

proof fn lemma_rows_valid(rows: Seq<Seq<char>>, b: Seq<Cell>, k: int)
    requires
        rows == Seq::new(13, |t: int| row_text(b, t)),
        0 <= k,
    ensures
        rows_error(rows, k) is None,
    decreases 13 - k,
{
    if k < 13 {
        lemma_row_text_plain(b, k);
        lemma_rows_valid(rows, b, k + 1);
    }
}

/// Printing a field and parsing the text gives the field back when it is
/// settled, and the error of its first floating cell otherwise.
pub proof fn parse_reads_back_to_string(b: Board)
    ensures
        parse_spec(field_text(b@)) == (match board::gravity_check(b@) {
            Ok(()) => Ok(b@),
            Err(e) => Err(e),
        }),
{
    let f = b@;
    lemma_split_field_text(f, 13);
    lemma_row_text_plain(f, 12);
    let rows = Seq::new(13, |k: int| row_text(f, k));
    assert(text_rows(field_text(f)) == rows) by {
        assert(Seq::new(12, |k: int| row_text(f, k)).push(row_text(f, 12)) =~= rows);
    }
    lemma_rows_valid(rows, f, 0);
    assert(rows_field(rows) =~= f) by {
        assert forall|p: int| 0 <= p < 78 implies #[trigger] rows_field(rows)[p] == f[p] by {
            lemma_row_text_plain(f, 12 - p / 6);
            assert((12 - (12 - p / 6)) * 6 + p % 6 == p);
        }
    }
}

/// The decimal digit `d` as a character.
pub open spec fn digit_char(d: int) -> char {
    ((48 + d) as u8) as char
}

/// The decimal form of `n`, most significant digit first.
pub open spec fn decimal(n: nat) -> Seq<char>
    decreases n,
{
    if n < 10 {
        seq![digit_char(n as int)]
    } else {
        decimal(n / 10).push(digit_char((n % 10) as int))
    }
}

/// Appends the decimal form of `n`.
fn push_decimal(s: &mut String, n: usize)
    ensures
        final(s)@ == old(s)@ + decimal(n as nat),
    decreases n,
{
    if n >= 10 {
        push_decimal(s, n / 10);
    }
    let d = (n % 10) as u8;
    push_char(s, (48u8 + d) as char);
    assert(s@ =~= old(s)@ + decimal(n as nat));
}

/// What `format!("{:?}", c)` gives for a character: the character quoted
/// and escaped as Rust's `Debug` shows it.
pub uninterp spec fn char_debug_text(c: char) -> Seq<char>;

/// `format!("{:?}", c)`: the `Debug` form of a character; its text is
/// `char_debug_text(c)`, a function of `c` alone.
#[verifier::external_body]
fn char_debug(c: char) -> (r: String)
    ensures
        r@ == char_debug_text(c),
{
    format!("{c:?}")
}

/// The message of a field that cannot be read.
pub open spec fn parse_error_text(e: ParseBoardError) -> Seq<char> {
    match e {
        ParseBoardError::WrongRowCount { actual } => "expected "@ + decimal(13) + " rows, got "@ + decimal(
            actual as nat,
        ),
        ParseBoardError::WrongColumnCount { row, actual } => "row "@ + decimal(row as nat)
            + " must contain "@ + decimal(6) + " cells, got "@ + decimal(actual as nat),
        ParseBoardError::InvalidCell { row, column, value } => "invalid cell "@ + char_debug_text(value)
            + " at row "@ + decimal(row as nat) + ", column "@ + decimal(column as nat),
        ParseBoardError::FloatingCell { row, column } => "floating cell at row "@ + decimal(row as nat)
            + ", column "@ + decimal(column as nat),
    }
}

impl ParseBoardError {
    /// The message of the error, as it is shown to a player.
    pub fn message(&self) -> (r: String)
        ensures
            r@ == parse_error_text(*self),
    {
        let mut text = String::new();
        match *self {
            ParseBoardError::WrongRowCount { actual } => {
                text.append("expected ");
                push_decimal(&mut text, 13);
                text.append(" rows, got ");
                push_decimal(&mut text, actual);
            },
            ParseBoardError::WrongColumnCount { row, actual } => {
                text.append("row ");
                push_decimal(&mut text, row);
                text.append(" must contain ");
                push_decimal(&mut text, 6);
                text.append(" cells, got ");
                push_decimal(&mut text, actual);
            },
            ParseBoardError::InvalidCell { row, column, value } => {
                text.append("invalid cell ");
                let shown = char_debug(value);
                text.append(shown.as_str());
                text.append(" at row ");
                push_decimal(&mut text, row);
                text.append(", column ");
                push_decimal(&mut text, column);
            },
            ParseBoardError::FloatingCell { row, column } => {
                text.append("floating cell at row ");
                push_decimal(&mut text, row);
                text.append(", column ");
                push_decimal(&mut text, column);
            },
        }
        assert(text@ =~= parse_error_text(*self));
        text
    }
}

} // verus!
