//! Parse errors: what went wrong, and where, as a byte index into the text
//! and a line and column.
use vstd::prelude::*;
use vstd::utf8::encode_utf8;
use crate::text::utf8_width;
use crate::text::lemma_encode_utf8_push;
use crate::text::lemma_encode_utf8_prefix;
use crate::text::chars_of;
use crate::text::u64_digits;
use crate::text::nat_digits;
use crate::text::push_char;

verus! {

/// The representation of an s-expression parse error.
#[derive(Debug)]
pub struct Error {
    /// The error message.
    pub message: &'static str,
    /// The line number on which the error occurred.
    pub line: usize,
    /// The column number on which the error occurred.
    pub column: usize,
    /// The index in the given string which caused the error.
    pub index: usize,
}

/// The kinds of parse error.
pub enum ErrKind {
    /// The text ended where more was needed.
    UnexpectedEof,
    /// A character other than the one needed was found.
    UnexpectedCharacter,
    /// Text was left over after a complete s-expression.
    TrailingData,
}

/// The message that an error of kind `k` carries.
pub open spec fn kind_message(k: ErrKind) -> Seq<char> {
    match k {
        ErrKind::UnexpectedEof => "unexpected eof"@,
        ErrKind::UnexpectedCharacter => "unexpected character"@,
        ErrKind::TrailingData => "unrecognized post-s-expression data"@,
    }
}

/// The model of an error: its kind, the index of the character at which
/// it was found, and the index at which the reader's position was left.
pub struct ErrV {
    pub kind: ErrKind,
    pub pos: int,
    pub stop: int,
}

/// The byte index of the character at index `i` of `cs`: the length of the
/// UTF-8 encoding of the characters before it.
pub open spec fn byte_offset(cs: Seq<char>, i: int) -> int {
    encode_utf8(cs.take(i)).len() as int
}

/// The line (from 1) reached after reading `p`, and the number of characters
/// read since the last line feed.
pub open spec fn lines_and_run(p: Seq<char>) -> (int, int)
    decreases p.len(),
{
    if p.len() == 0 {
        (1, 0)
    } else {
        let (l, c) = lines_and_run(p.drop_last());
        if p.last() == '\n' {
            (l + 1, 0)
        } else {
            (l, c + 1)
        }
    }
}

/// How many characters the line and column of byte index `pos` are read
/// from: the first `pos + 1` characters, or all of them.
pub open spec fn prefix_len(cs: Seq<char>, pos: int) -> int {
    if pos + 1 < cs.len() {
        pos + 1
    } else {
        cs.len() as int
    }
}

/// The line and column reported for index `pos` of the text `cs`: the line
/// on which the first `pos + 1` characters end, and the column (from 0) of
/// the last of them on that line.
pub open spec fn line_col(cs: Seq<char>, pos: int) -> (int, int) {
    let (l, c) = lines_and_run(cs.take(prefix_len(cs, pos)));
    (l, if c > 0 {
        c - 1
    } else {
        0
    })
}

/// `e` is an error of kind `kind` found at character index `pos` of `cs`:
/// its index is the byte index of that character, and its line and column
/// are those on which that character stands.
pub open spec fn error_at(e: Error, cs: Seq<char>, kind: ErrKind, pos: int) -> bool {
    &&& e.message@ == kind_message(kind)
    &&& e.index == byte_offset(cs, pos)
    &&& e.line == line_col(cs, pos).0
    &&& e.column == line_col(cs, pos).1
}

/// `e` is the error that the model `ev` describes, in the text `cs`.
pub open spec fn error_is(e: Error, cs: Seq<char>, ev: ErrV) -> bool {
    error_at(e, cs, ev.kind, ev.pos)
}

/// A text whose UTF-8 encoding is shorter than `usize::MAX` bytes, so that
/// every byte index, line and column in it fits in a `usize`.
pub open spec fn fits(cs: Seq<char>) -> bool {
    encode_utf8(cs).len() < usize::MAX
}

/// Every character takes at least one byte.
pub proof fn lemma_len_le_bytes(cs: Seq<char>)
    ensures
        cs.len() <= encode_utf8(cs).len(),
    decreases cs.len(),
{
    if cs.len() > 0 {
        lemma_len_le_bytes(cs.drop_last());
        lemma_encode_utf8_push(cs.drop_last(), cs.last());
        assert(cs.drop_last().push(cs.last()) =~= cs);
        vstd::utf8::char_is_scalar(cs.last());
    }
}

/// Lines and runs never outgrow the text read.
proof fn lemma_lines_bound(p: Seq<char>)
    ensures
        lines_and_run(p).0 <= p.len() + 1,
        0 <= lines_and_run(p).1 <= p.len(),
        lines_and_run(p).0 >= 1,
    decreases p.len(),
{
    if p.len() > 0 {
        lemma_lines_bound(p.drop_last());
    }
}

/// The byte index of the character at `pos`.
pub fn byte_index(s: &[char], pos: usize) -> (b: usize)
    requires
        pos <= s@.len(),
        fits(s@),
    ensures
        b == byte_offset(s@, pos as int),
        b < usize::MAX,
        s@.len() < usize::MAX,
{
    proof {
        lemma_len_le_bytes(s@);
        lemma_encode_utf8_prefix(s@, pos as int, pos as int);
    }
    let mut b: usize = 0;
    let mut i: usize = 0;
    assert(s@.take(0) =~= Seq::<char>::empty());
    while i < pos
        invariant
            i <= pos <= s@.len(),
            fits(s@),
            b == encode_utf8(s@.take(i as int)).len(),
        decreases pos - i,
    {
        let w = utf8_width(s[i]);
        proof {
            lemma_encode_utf8_push(s@.take(i as int), s@[i as int]);
            assert(s@.take(i as int).push(s@[i as int]) =~= s@.take(i + 1));
            lemma_encode_utf8_prefix(s@, i + 1, i + 1);
        }
        b = b + w;
        i = i + 1;
    }
    b
}

/// The line and column of index `pos` of the text `s`, read from its first
/// `pos + 1` characters.
pub fn line_and_column(s: &[char], pos: usize) -> (r: (usize, usize))
    requires
        s@.len() < usize::MAX,
    ensures
        r.0 == line_col(s@, pos as int).0,
        r.1 == line_col(s@, pos as int).1,
{
    let n = s.len();
    let m: usize = if pos < n {
        pos + 1
    } else {
        n
    };
    assert(m == prefix_len(s@, pos as int));
    let mut line: usize = 1;
    let mut run: usize = 0;
    let mut i: usize = 0;
    assert(s@.take(0) =~= Seq::<char>::empty());
    while i < m
        invariant
            i <= m <= s@.len() < usize::MAX,
            (line as int, run as int) == lines_and_run(s@.take(i as int)),
        decreases m - i,
    {
        proof {
            lemma_lines_bound(s@.take(i as int));
            assert(s@.take(i + 1).drop_last() =~= s@.take(i as int));
        }
        if s[i] == '\n' {
            line = line + 1;
            run = 0;
        } else {
            run = run + 1;
        }
        i = i + 1;
    }
    let column: usize = if run > 0 {
        run - 1
    } else {
        0
    };
    (line, column)
}

/// Return the line and column of the byte index `pos` in `s`, counted as
/// the line on which the first `pos + 1` characters of `s` end and the
/// column (from 0) of the last of them.
pub fn get_line_and_column(s: &str, pos: usize) -> (r: (usize, usize))
    requires
        pos < usize::MAX,
        s@.len() < usize::MAX,
    ensures
        r.0 == line_col(s@, pos as int).0,
        r.1 == line_col(s@, pos as int).1,
{
    let cs = chars_of(s);
    line_and_column(cs.as_slice(), pos)
}

/// Builds the error with `message` for the byte index `pos` of the text
/// `s`, with the line and column that `get_line_and_column` gives for it.
pub fn err_impl(message: &'static str, s: &[char], pos: &usize) -> (e: Box<Error>)
    requires
        *pos < usize::MAX,
        s@.len() < usize::MAX,
    ensures
        e.message == message,
        e.index == *pos,
        e.line == line_col(s@, *pos as int).0,
        e.column == line_col(s@, *pos as int).1,
{
    let (line, column) = line_and_column(s, *pos);
    Box::new(Error { message: message, line: line, column: column, index: *pos })
}

/// The error with `message` for the byte index `pos` of the text `s`, as a
/// failed result.
pub fn err<T>(message: &'static str, s: &[char], pos: &usize) -> (r: Result<T, Box<Error>>)
    requires
        *pos < usize::MAX,
        s@.len() < usize::MAX,
    ensures
        r matches Err(e) && e.message == message && e.index == *pos && e.line == line_col(
            s@,
            *pos as int,
        ).0 && e.column == line_col(s@, *pos as int).1,
{
    Err(err_impl(message, s, pos))
}

/// The error with `message` for the character at index `pos` of `s`: its
/// byte index, and the line and column on which that character stands.
pub fn char_error<T>(message: &'static str, s: &[char], pos: usize) -> (r: Result<T, Box<Error>>)
    requires
        pos <= s@.len(),
        fits(s@),
    ensures
        r matches Err(e) && e.message == message && e.index == byte_offset(s@, pos as int)
            && e.line == line_col(s@, pos as int).0 && e.column == line_col(s@, pos as int).1,
{
    let index = byte_index(s, pos);
    let (line, column) = line_and_column(s, pos);
    Err(Box::new(Error { message: message, line: line, column: column, index: index }))
}

/// The decimal text of `n`.
pub fn usize_text(n: usize) -> (s: String)
    ensures
        s@ == nat_digits(n as nat),
{
    let ds = u64_digits(n as u64);
    let mut s = String::new();
    let mut i: usize = 0;
    while i < ds.len()
        invariant
            i <= ds@.len(),
            s@ == ds@.take(i as int),
        decreases ds.len() - i,
    {
        push_char(&mut s, ds[i]);
        i = i + 1;
        assert(s@ =~= ds@.take(i as int));
    }
    assert(ds@.take(ds@.len() as int) =~= ds@);
    s
}

impl Error {
    /// The error as text: `line:column: message`.
    pub fn to_string(&self) -> (s: String)
        ensures
            s@ == nat_digits(self.line as nat) + seq![':'] + nat_digits(self.column as nat) + seq![
                ':',
                ' ',
            ] + self.message@,
    {
        let mut s = usize_text(self.line);
        push_char(&mut s, ':');
        let c = usize_text(self.column);
        s.append(c.as_str());
        push_char(&mut s, ':');
        push_char(&mut s, ' ');
        s.append(self.message);
        s
    }
}

} // verus!
