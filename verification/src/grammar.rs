//! What reading an s-expression from text gives, stated over the text's
//! characters: where white space and comments end, where atoms end, what a
//! quoted atom holds, and what the reader returns or which error it reports.
use vstd::prelude::*;
use crate::text::is_ws;
use crate::text::int_value;
use crate::text::is_float_text;
use crate::sexp::AtomV;
use crate::sexp::SexpV;
use crate::error::ErrKind;
use crate::error::ErrV;

verus! {

/// A character that ends an unquoted atom.
pub open spec fn is_delim(c: char) -> bool {
    is_ws(c) || c == '(' || c == ')' || c == ';'
}

/// The index just past the first line feed at or after `i`, or the end of
/// the text: where a comment that starts at `i` ends.
pub open spec fn line_end(cs: Seq<char>, i: int) -> int
    decreases cs.len() - i,
{
    if i >= cs.len() {
        cs.len() as int
    } else if cs[i] == '\n' {
        i + 1
    } else {
        line_end(cs, i + 1)
    }
}

/// A comment ends after where it starts, and within the text.
pub proof fn lemma_line_end(cs: Seq<char>, i: int)
    requires
        i < cs.len(),
    ensures
        i < line_end(cs, i) <= cs.len(),
    decreases cs.len() - i,
{
    if cs[i] != '\n' {
        if i + 1 < cs.len() {
            lemma_line_end(cs, i + 1);
        } else {
            assert(line_end(cs, i + 1) == cs.len());
        }
    }
}

/// The index of the first character at or after `i` that is neither white
/// space nor part of a `;` comment, or the end of the text.
pub open spec fn skip_ws(cs: Seq<char>, i: int) -> int
    decreases cs.len() - i,
{
    if i >= cs.len() {
        cs.len() as int
    } else if cs[i] == ';' {
        proof {
            lemma_line_end(cs, i);
        }
        skip_ws(cs, line_end(cs, i))
    } else if is_ws(cs[i]) {
        skip_ws(cs, i + 1)
    } else {
        i
    }
}

/// Skipping white space moves forward, stays within the text, and stops at
/// the end or at a character that is neither white space nor `;`.
pub proof fn lemma_skip_ws(cs: Seq<char>, i: int)
    requires
        0 <= i,
    ensures
        i <= skip_ws(cs, i) || i > cs.len(),
        skip_ws(cs, i) <= cs.len(),
        skip_ws(cs, i) >= 0,
        skip_ws(cs, i) < cs.len() ==> !is_ws(cs[skip_ws(cs, i)]) && cs[skip_ws(cs, i)] != ';',
        skip_ws(cs, skip_ws(cs, i)) == skip_ws(cs, i),
    decreases cs.len() - i,
{
    if i < cs.len() {
        if cs[i] == ';' {
            lemma_line_end(cs, i);
            lemma_skip_ws(cs, line_end(cs, i));
        } else if is_ws(cs[i]) {
            lemma_skip_ws(cs, i + 1);
        }
    }
}

/// The index of the first character at or after `i` that ends an unquoted
/// atom, or the end of the text.
pub open spec fn token_end(cs: Seq<char>, i: int) -> int
    decreases cs.len() - i,
{
    if i >= cs.len() {
        cs.len() as int
    } else if is_delim(cs[i]) {
        i
    } else {
        token_end(cs, i + 1)
    }
}

/// An unquoted atom lies within the text and holds no delimiter.
pub proof fn lemma_token_end(cs: Seq<char>, i: int)
    requires
        0 <= i <= cs.len(),
    ensures
        i <= token_end(cs, i) <= cs.len(),
        token_end(cs, i) < cs.len() ==> is_delim(cs[token_end(cs, i)]),
        forall|j: int| i <= j < token_end(cs, i) ==> !is_delim(#[trigger] cs[j]),
    decreases cs.len() - i,
{
    if i < cs.len() && !is_delim(cs[i]) {
        lemma_token_end(cs, i + 1);
    }
}

/// Where reading goes on after an unquoted atom that ends at `e`: past the
/// comment that follows it directly, if any.
pub open spec fn after_token(cs: Seq<char>, e: int) -> int {
    if 0 <= e < cs.len() && cs[e] == ';' {
        line_end(cs, e)
    } else {
        e
    }
}

/// The text of a quoted atom whose body starts at `i`, and the index past
/// its closing quote; or, when the text ends too early, the index at which
/// it ended and the index of the piece being read then (a backslash that
/// ends the text, or the end).
/// Inside the quotes, `\"` stands for `"` and `\\` for `\`; a backslash
/// before any other character stands for itself.
pub open spec fn quoted(cs: Seq<char>, i: int) -> Result<(Seq<char>, int), (int, int)>
    decreases cs.len() - i,
{
    if i >= cs.len() {
        Err((i, i))
    } else if cs[i] == '"' {
        Ok((Seq::empty(), i + 1))
    } else if cs[i] == '\\' {
        if i + 1 >= cs.len() {
            Err((i + 1, i))
        } else {
            let c = cs[i + 1];
            let piece = if c == '"' || c == '\\' {
                seq![c]
            } else {
                seq!['\\', c]
            };
            match quoted(cs, i + 2) {
                Ok((t, k)) => Ok((piece + t, k)),
                Err(p) => Err(p),
            }
        }
    } else {
        match quoted(cs, i + 1) {
            Ok((t, k)) => Ok((seq![cs[i]] + t, k)),
            Err(p) => Err(p),
        }
    }
}

/// A quoted atom ends within the text, after where its body starts.
pub proof fn lemma_quoted(cs: Seq<char>, i: int)
    requires
        0 <= i <= cs.len(),
    ensures
        quoted(cs, i) matches Ok((t, k)) ==> i < k <= cs.len(),
        quoted(cs, i) matches Err((p, q)) ==> p == cs.len() && i <= q <= cs.len() && (q == p
            || q == p - 1),
    decreases cs.len() - i,
{
    if i < cs.len() && cs[i] != '"' {
        if cs[i] == '\\' {
            if i + 1 < cs.len() {
                lemma_quoted(cs, i + 2);
            }
        } else {
            lemma_quoted(cs, i + 1);
        }
    }
}

/// The atom that an unquoted token stands for: an integer if `i64` reads
/// it, else a float if `f64` reads it, else a string.
pub open spec fn atom_of(tok: Seq<char>) -> AtomV {
    match int_value(tok) {
        Some(v) => AtomV::I(v),
        None => if is_float_text(tok) {
            AtomV::F(tok)
        } else {
            AtomV::S(tok)
        },
    }
}

/// The error of kind `kind` at index `pos`, with the reader's position left
/// there.
pub open spec fn err_at(kind: ErrKind, pos: int) -> ErrV {
    ErrV { kind, pos, stop: pos }
}

/// Reading an atom that starts at `i`.
pub open spec fn atom_at(cs: Seq<char>, i: int) -> Result<(AtomV, int), ErrV> {
    if i >= cs.len() {
        Err(err_at(ErrKind::UnexpectedEof, i))
    } else if cs[i] == '"' {
        match quoted(cs, i + 1) {
            Ok((t, k)) => Ok((AtomV::S(t), k)),
            Err((p, q)) => Err(ErrV { kind: ErrKind::UnexpectedEof, pos: p, stop: q }),
        }
    } else {
        let e = token_end(cs, i);
        Ok((atom_of(cs.subrange(i, e)), after_token(cs, e)))
    }
}

/// Reading an s-expression from index `i`: white space, then a list or an
/// atom, then white space. The result is the s-expression and the index
/// where reading stopped, or the first error.
pub open spec fn sexp_at(cs: Seq<char>, i: int) -> Result<(SexpV, int), ErrV>
    decreases cs.len() - i, 2int,
{
    if i < 0 {
        Err(err_at(ErrKind::UnexpectedEof, i))
    } else {
        let j = skip_ws(cs, i);
        proof {
            lemma_skip_ws(cs, i);
        }
        if j >= cs.len() {
            Err(err_at(ErrKind::UnexpectedEof, j))
        } else if cs[j] == '(' {
            match list_at(cs, j) {
                Ok((xs, k)) => Ok((SexpV::List(xs), skip_ws(cs, k))),
                Err(e) => Err(e),
            }
        } else {
            match atom_at(cs, j) {
                Ok((a, k)) => Ok((SexpV::Atom(a), skip_ws(cs, k))),
                Err(e) => Err(e),
            }
        }
    }
}

/// Reading a list from index `i`: white space, `(`, the items up to the
/// closing `)`, then white space.
pub open spec fn list_at(cs: Seq<char>, i: int) -> Result<(Seq<SexpV>, int), ErrV>
    decreases cs.len() - i, 1int,
{
    if i < 0 {
        Err(err_at(ErrKind::UnexpectedEof, i))
    } else {
        let j = skip_ws(cs, i);
        proof {
            lemma_skip_ws(cs, i);
        }
        if j >= cs.len() {
            Err(err_at(ErrKind::UnexpectedEof, j))
        } else if cs[j] != '(' {
            Err(err_at(ErrKind::UnexpectedCharacter, j + 1))
        } else {
            match items(cs, j + 1) {
                Ok((xs, k)) => Ok((xs, skip_ws(cs, k))),
                Err(e) => Err(e),
            }
        }
    }
}

/// Reading the items of a list from index `i` up to and including its
/// closing `)`.
pub open spec fn items(cs: Seq<char>, i: int) -> Result<(Seq<SexpV>, int), ErrV>
    decreases cs.len() - i, 3int,
{
    if i < 0 {
        Err(err_at(ErrKind::UnexpectedEof, i))
    } else {
        let j = skip_ws(cs, i);
        proof {
            lemma_skip_ws(cs, i);
        }
        if j >= cs.len() {
            Err(err_at(ErrKind::UnexpectedEof, j))
        } else if cs[j] == ')' {
            Ok((Seq::empty(), j + 1))
        } else {
            match sexp_at(cs, j) {
                Ok((x, k)) => if j < k <= cs.len() {
                    match items(cs, k) {
                        Ok((xs, m)) => Ok((seq![x] + xs, m)),
                        Err(e) => Err(e),
                    }
                } else {
                    Err(err_at(ErrKind::UnexpectedEof, k))
                },
                Err(e) => Err(e),
            }
        }
    }
}

/// What reading the whole text `cs` gives: the s-expression it holds, or the
/// first error, which is an error at the end of the s-expression when text
/// is left over after it.
pub open spec fn parse_spec(cs: Seq<char>) -> Result<SexpV, ErrV> {
    match sexp_at(cs, 0) {
        Ok((x, k)) => if k == cs.len() {
            Ok(x)
        } else {
            Err(err_at(ErrKind::TrailingData, k))
        },
        Err(e) => Err(e),
    }
}

/// Reading an atom ends within the text, no earlier than where it starts,
/// and later unless it starts with a delimiter.
pub proof fn lemma_atom_bounds(cs: Seq<char>, j: int)
    requires
        0 <= j <= cs.len(),
    ensures
        atom_at(cs, j) matches Ok((a, k)) ==> j <= k <= cs.len() && (!is_delim(cs[j]) ==> j < k),
        atom_at(cs, j) matches Err(ev) ==> 0 <= ev.pos <= cs.len(),
{
    if j < cs.len() {
        if cs[j] == '"' {
            lemma_quoted(cs, j + 1);
        } else {
            lemma_token_end(cs, j);
            let e = token_end(cs, j);
            if e < cs.len() && cs[e] == ';' {
                lemma_line_end(cs, e);
            }
        }
    }
}

/// Reading an s-expression ends within the text, no earlier than where its
/// first character is, and later unless that character is `)`.
pub proof fn lemma_sexp_bounds(cs: Seq<char>, i: int)
    requires
        0 <= i <= cs.len(),
    ensures
        sexp_at(cs, i) matches Ok((x, k)) ==> skip_ws(cs, i) <= k <= cs.len() && (cs[skip_ws(
            cs,
            i,
        )] != ')' ==> skip_ws(cs, i) < k),
        sexp_at(cs, i) matches Err(ev) ==> 0 <= ev.pos <= cs.len(),
    decreases cs.len() - i, 2int,
{
    let j = skip_ws(cs, i);
    lemma_skip_ws(cs, i);
    if j < cs.len() {
        if cs[j] == '(' {
            lemma_list_bounds(cs, j);
            if let Ok((xs, k)) = list_at(cs, j) {
                lemma_skip_ws(cs, k);
            }
        } else {
            lemma_atom_bounds(cs, j);
            if let Ok((a, k)) = atom_at(cs, j) {
                lemma_skip_ws(cs, k);
            }
        }
    }
}

/// Reading a list ends within the text, after where it starts.
pub proof fn lemma_list_bounds(cs: Seq<char>, i: int)
    requires
        0 <= i <= cs.len(),
    ensures
        list_at(cs, i) matches Ok((xs, k)) ==> i < k <= cs.len(),
        list_at(cs, i) matches Err(ev) ==> 0 <= ev.pos <= cs.len(),
    decreases cs.len() - i, 1int,
{
    let j = skip_ws(cs, i);
    lemma_skip_ws(cs, i);
    if j < cs.len() && cs[j] == '(' {
        lemma_items_bounds(cs, j + 1);
        if let Ok((xs, k)) = items(cs, j + 1) {
            lemma_skip_ws(cs, k);
        }
    }
}

/// Reading the items of a list ends within the text, after where it starts.
pub proof fn lemma_items_bounds(cs: Seq<char>, i: int)
    requires
        0 <= i <= cs.len(),
    ensures
        items(cs, i) matches Ok((xs, k)) ==> i < k <= cs.len(),
        items(cs, i) matches Err(ev) ==> 0 <= ev.pos <= cs.len(),
    decreases cs.len() - i, 3int,
{
    let j = skip_ws(cs, i);
    lemma_skip_ws(cs, i);
    if j < cs.len() && cs[j] != ')' {
        lemma_sexp_bounds(cs, j);
        lemma_skip_ws(cs, j);
        if let Ok((x, k)) = sexp_at(cs, j) {
            if j < k <= cs.len() {
                lemma_items_bounds(cs, k);
            }
        }
    }
}

/// An error in reading an s-expression is the text ending too early, found
/// at its end.
pub proof fn lemma_sexp_errors(cs: Seq<char>, i: int)
    requires
        0 <= i <= cs.len(),
    ensures
        sexp_at(cs, i) matches Err(ev) ==> ev.kind is UnexpectedEof && ev.pos == cs.len(),
    decreases cs.len() - i, 2int,
{
    let j = skip_ws(cs, i);
    lemma_skip_ws(cs, i);
    if j < cs.len() {
        if cs[j] == '(' {
            lemma_skip_ws(cs, j);
            lemma_list_errors(cs, j);
        } else if cs[j] == '"' {
            lemma_quoted(cs, j + 1);
        }
    }
}

/// An error in reading a list that starts with `(` is the text ending too
/// early, found at its end.
pub proof fn lemma_list_errors(cs: Seq<char>, i: int)
    requires
        0 <= i <= cs.len(),
        skip_ws(cs, i) < cs.len() && cs[skip_ws(cs, i)] == '(',
    ensures
        list_at(cs, i) matches Err(ev) ==> ev.kind is UnexpectedEof && ev.pos == cs.len(),
    decreases cs.len() - i, 1int,
{
    let j = skip_ws(cs, i);
    lemma_skip_ws(cs, i);
    lemma_items_errors(cs, j + 1);
}

/// An error in reading the items of a list is the text ending too early,
/// found at its end.
pub proof fn lemma_items_errors(cs: Seq<char>, i: int)
    requires
        0 <= i <= cs.len(),
    ensures
        items(cs, i) matches Err(ev) ==> ev.kind is UnexpectedEof && ev.pos == cs.len(),
    decreases cs.len() - i, 3int,
{
    let j = skip_ws(cs, i);
    lemma_skip_ws(cs, i);
    if j < cs.len() && cs[j] != ')' {
        lemma_sexp_bounds(cs, j);
        lemma_skip_ws(cs, j);
        lemma_sexp_errors(cs, j);
        if let Ok((x, k)) = sexp_at(cs, j) {
            if j < k <= cs.len() {
                lemma_items_errors(cs, k);
            }
        }
    }
}

} // verus!
