//! The reader: turns text into an s-expression, or reports the first error.
//! Positions are indices into the text's characters; errors report the
//! byte index of the character at fault.
use vstd::prelude::*;
use crate::text::is_whitespace;
use crate::text::push_char;
use crate::text::chars_of;
use crate::text::parse_i64;
use crate::text::parse_float_text;
use crate::sexp::Atom;
use crate::sexp::AtomV;
use crate::sexp::Sexp;
use crate::sexp::SexpV;
use crate::sexp::views;
use crate::sexp::lemma_list_view;
use crate::error::Error;
use crate::error::ErrKind;
use crate::error::ErrV;
use crate::error::error_at;
use crate::error::error_is;
use crate::error::fits;
use crate::error::char_error;
use crate::laws::lemma_error_kinds;
use vstd::utf8::encode_utf8;
use crate::grammar::line_end;
use crate::grammar::lemma_line_end;
use crate::grammar::skip_ws;
use crate::grammar::lemma_skip_ws;
use crate::grammar::token_end;
use crate::grammar::after_token;
use crate::grammar::quoted;
use crate::grammar::atom_of;
use crate::grammar::atom_at;
use crate::grammar::sexp_at;
use crate::grammar::list_at;
use crate::grammar::items;
use crate::grammar::parse_spec;
use crate::grammar::lemma_sexp_bounds;
use crate::grammar::lemma_list_bounds;
use crate::grammar::lemma_atom_bounds;

verus! {

/// A hook to trace the reader while testing; it does nothing.
pub fn dbg(msg: &str, pos: &usize) {
}

/// Returns the character at `pos` and the position after it, or an
/// "unexpected eof" error at the end of the text.
pub fn peek(s: &[char], pos: &usize) -> (r: Result<(char, usize), Box<Error>>)
    requires
        *pos <= s@.len(),
        fits(s@),
    ensures
        *pos < s@.len() ==> (r matches Ok((c, next)) && c == s@[*pos as int] && next == *pos + 1),
        *pos == s@.len() ==> (r matches Err(e) && error_at(*e, s@, ErrKind::UnexpectedEof, *pos as int)),
{
    dbg("peek", pos);
    if *pos == s.len() {
        return char_error("unexpected eof", s, *pos);
    }
    Ok((s[*pos], *pos + 1))
}

/// Consumes the character at `pos`, which must be `c`: an "unexpected eof"
/// error at the end of the text, or an "unexpected character" error just
/// past a different character.
pub fn expect(s: &[char], pos: &mut usize, c: char) -> (r: Result<(), Box<Error>>)
    requires
        *old(pos) <= s@.len(),
        fits(s@),
    ensures
        *old(pos) == s@.len() ==> *final(pos) == *old(pos) && (r matches Err(e) && error_at(
            *e,
            s@,
            ErrKind::UnexpectedEof,
            *old(pos) as int,
        )),
        *old(pos) < s@.len() ==> *final(pos) == *old(pos) + 1,
        *old(pos) < s@.len() && s@[*old(pos) as int] == c ==> r is Ok,
        *old(pos) < s@.len() && s@[*old(pos) as int] != c ==> (r matches Err(e) && error_at(
            *e,
            s@,
            ErrKind::UnexpectedCharacter,
            *old(pos) + 1,
        )),
{
    dbg("expect", pos);
    let (ch, next) = peek(s, pos)?;
    *pos = next;
    if ch == c {
        Ok(())
    } else {
        char_error("unexpected character", s, *pos)
    }
}

/// Moves `pos` past the next line feed, or to the end of the text.
pub fn consume_until_newline(s: &[char], pos: &mut usize) -> (r: Result<(), Box<Error>>)
    requires
        *old(pos) <= s@.len(),
        fits(s@),
    ensures
        r is Ok,
        *final(pos) == line_end(s@, *old(pos) as int),
{
    let ghost start = *pos;
    loop
        invariant
            start == *old(pos),
            start <= *pos <= s@.len(),
            fits(s@),
            line_end(s@, start as int) == line_end(s@, *pos as int),
        decreases s@.len() - *pos,
    {
        if *pos == s.len() {
            return Ok(());
        }
        let (ch, next) = peek(s, pos)?;
        *pos = next;
        if ch == '\n' {
            return Ok(());
        }
    }
}

/// Moves `pos` past white space and `;` comments: zero or more spaces.
pub fn zspace(s: &[char], pos: &mut usize) -> (r: Result<(), Box<Error>>)
    requires
        *old(pos) <= s@.len(),
        fits(s@),
    ensures
        r is Ok,
        *final(pos) == skip_ws(s@, *old(pos) as int),
{
    dbg("zspace", pos);
    let ghost start = *pos;
    loop
        invariant
            start == *old(pos),
            start <= *pos <= s@.len(),
            fits(s@),
            skip_ws(s@, start as int) == skip_ws(s@, *pos as int),
        decreases s@.len() - *pos,
    {
        if *pos == s.len() {
            return Ok(());
        }
        let (ch, next) = peek(s, pos)?;
        if ch == ';' {
            proof {
                lemma_line_end(s@, *pos as int);
            }
            consume_until_newline(s, pos)?;
        } else if is_whitespace(ch) {
            *pos = next;
        } else {
            return Ok(());
        }
    }
}

/// `acc` put in front of the text of a quoted-atom result.
pub open spec fn prepend_text(acc: Seq<char>, r: Result<(Seq<char>, int), (int, int)>) -> Result<
    (Seq<char>, int),
    (int, int),
> {
    match r {
        Ok((t, k)) => Ok((acc + t, k)),
        Err(p) => Err(p),
    }
}

proof fn lemma_prepend_text(a: Seq<char>, b: Seq<char>, r: Result<(Seq<char>, int), (int, int)>)
    ensures
        prepend_text(a, prepend_text(b, r)) == prepend_text(a + b, r),
{
    if let Ok((t, k)) = r {
        assert(a + (b + t) =~= (a + b) + t);
    }
}

/// Reads a quoted atom whose opening quote is at `pos`. Without a quote
/// there, the error is "unexpected eof" at the end of the text, or
/// "unexpected character" just past the character found. When the text
/// ends inside the atom, the error is at the end of the text and `pos` is
/// left at the piece being read: the end, or a backslash just before it.
#[verifier::loop_isolation(false)]
pub fn parse_quoted_atom(s: &[char], pos: &mut usize) -> (r: Result<Atom, Box<Error>>)
    requires
        *old(pos) <= s@.len(),
        fits(s@),
    ensures
        *old(pos) == s@.len() ==> (r matches Err(e) && error_at(
            *e,
            s@,
            ErrKind::UnexpectedEof,
            *old(pos) as int,
        )) && *final(pos) == *old(pos),
        *old(pos) < s@.len() && s@[*old(pos) as int] != '"' ==> (r matches Err(e) && error_at(
            *e,
            s@,
            ErrKind::UnexpectedCharacter,
            *old(pos) + 1,
        )) && *final(pos) == *old(pos) + 1,
        *old(pos) < s@.len() && s@[*old(pos) as int] == '"' ==> match quoted(s@, *old(pos) + 1) {
            Ok((t, k)) => r matches Ok(a) && a@ == AtomV::S(t) && *final(pos) == k,
            Err((p, q)) => r matches Err(e) && error_at(*e, s@, ErrKind::UnexpectedEof, p)
                && *final(pos) == q,
        },
{
    dbg("parse_quoted_atom", pos);
    let mut cs: String = String::new();
    expect(s, pos, '"')?;
    let ghost start = *pos;
    assert(cs@ + Seq::<char>::empty() =~= cs@);
    proof {
        match quoted(s@, start as int) {
            Ok((t, k)) => {
                assert(Seq::<char>::empty() + t =~= t);
            },
            Err(_) => {},
        }
    }
    loop
        invariant
            start == *old(pos) + 1,
            start <= *pos <= s@.len(),
            fits(s@),
            quoted(s@, start as int) == prepend_text(cs@, quoted(s@, *pos as int)),
        decreases s@.len() - *pos,
    {
        let (ch, next) = peek(s, pos)?;
        if ch == '"' {
            *pos = next;
            proof {
                assert(cs@ + Seq::<char>::empty() =~= cs@);
            }
            break;
        } else if ch == '\\' {
            let (postslash, nextnext) = peek(s, &next)?;
            let ghost before = cs@;
            let ghost piece = if postslash == '"' || postslash == '\\' {
                seq![postslash]
            } else {
                seq!['\\', postslash]
            };
            if postslash == '"' || postslash == '\\' {
                push_char(&mut cs, postslash);
            } else {
                push_char(&mut cs, ch);
                push_char(&mut cs, postslash);
            }
            assert(cs@ =~= before + piece);
            proof {
                lemma_prepend_text(before, piece, quoted(s@, nextnext as int));
            }
            *pos = nextnext;
        } else {
            let ghost before = cs@;
            push_char(&mut cs, ch);
            assert(cs@ =~= before + seq![ch]);
            proof {
                lemma_prepend_text(before, seq![ch], quoted(s@, next as int));
            }
            *pos = next;
        }
    }
    Ok(Atom::S(cs))
}

/// The atom that the token `s` stands for: an integer if `i64` reads it,
/// else a float if `f64` reads it, else a string.
pub fn atom_of_string(s: String) -> (a: Atom)
    ensures
        a@ == atom_of(s@),
{
    let v = chars_of(s.as_str());
    match parse_i64(v.as_slice()) {
        Some(i) => Atom::I(i),
        None => if parse_float_text(v.as_slice()) {
            Atom::F(s)
        } else {
            Atom::S(s)
        },
    }
}

/// Reads an unquoted atom from `pos` up to the next delimiter, and past a
/// comment that follows it directly.
#[verifier::loop_isolation(false)]
fn parse_unquoted_atom(s: &[char], pos: &mut usize) -> (r: Result<Atom, Box<Error>>)
    requires
        *old(pos) <= s@.len(),
        fits(s@),
    ensures
        r matches Ok(a) && a@ == atom_of(s@.subrange(*old(pos) as int, token_end(s@, *old(pos) as int)))
            && *final(pos) == after_token(s@, token_end(s@, *old(pos) as int)),
{
    dbg("parse_unquoted_atom", pos);
    let mut cs: String = String::new();
    let ghost start = *pos;
    assert(cs@ =~= s@.subrange(start as int, start as int));
    loop
        invariant
            start == *old(pos),
            start <= *pos <= s@.len(),
            fits(s@),
            token_end(s@, start as int) == token_end(s@, *pos as int),
            cs@ == s@.subrange(start as int, *pos as int),
        decreases s@.len() - *pos,
    {
        if *pos == s.len() {
            break;
        }
        let (c, next) = peek(s, pos)?;
        if c == ';' {
            let ghost e = *pos;
            consume_until_newline(s, pos)?;
            assert(*pos == after_token(s@, e as int));
            break;
        }
        if is_whitespace(c) || c == '(' || c == ')' {
            break;
        }
        push_char(&mut cs, c);
        assert(cs@ =~= s@.subrange(start as int, next as int));
        *pos = next;
    }
    Ok(atom_of_string(cs))
}

/// Reads an atom at `pos`.
fn parse_atom(s: &[char], pos: &mut usize) -> (r: Result<Atom, Box<Error>>)
    requires
        *old(pos) <= s@.len(),
        fits(s@),
    ensures
        match atom_at(s@, *old(pos) as int) {
            Ok((a, k)) => r matches Ok(x) && x@ == a && *final(pos) == k,
            Err(ev) => r matches Err(e) && error_is(*e, s@, ev) && *final(pos) == ev.stop,
        },
{
    dbg("parse_atom", pos);
    let (ch, _) = peek(s, pos)?;
    if ch == '"' {
        parse_quoted_atom(s, pos)
    } else {
        parse_unquoted_atom(s, pos)
    }
}

/// `acc` put in front of the items of a list-reading result.
pub open spec fn prepend_items(acc: Seq<SexpV>, r: Result<(Seq<SexpV>, int), ErrV>) -> Result<
    (Seq<SexpV>, int),
    ErrV,
> {
    match r {
        Ok((xs, k)) => Ok((acc + xs, k)),
        Err(e) => Err(e),
    }
}

proof fn lemma_prepend_items(a: Seq<SexpV>, b: Seq<SexpV>, r: Result<(Seq<SexpV>, int), ErrV>)
    ensures
        prepend_items(a, prepend_items(b, r)) == prepend_items(a + b, r),
{
    if let Ok((t, k)) = r {
        assert(a + (b + t) =~= (a + b) + t);
    }
}

/// Reads a list: white space, `(`, the items up to the closing `)`, then
/// white space.
#[verifier::loop_isolation(false)]
fn parse_list(s: &[char], pos: &mut usize) -> (r: Result<Vec<Sexp>, Box<Error>>)
    requires
        *old(pos) <= s@.len(),
        fits(s@),
    ensures
        match list_at(s@, *old(pos) as int) {
            Ok((xs, k)) => r matches Ok(v) && views(v@) == xs && *final(pos) == k,
            Err(ev) => r matches Err(e) && error_is(*e, s@, ev) && *final(pos) == ev.stop,
        },
    decreases s@.len() - *old(pos), 1int,
{
    dbg("parse_list", pos);
    zspace(s, pos)?;
    proof {
        lemma_skip_ws(s@, *old(pos) as int);
    }
    expect(s, pos, '(')?;
    let ghost first = *pos;
    let mut sexps: Vec<Sexp> = Vec::new();
    assert(views(sexps@) =~= Seq::<SexpV>::empty());
    proof {
        if let Ok((xs, k)) = items(s@, first as int) {
            assert(Seq::<SexpV>::empty() + xs =~= xs);
        }
    }
    loop
        invariant
            first == skip_ws(s@, *old(pos) as int) + 1,
            first <= *pos <= s@.len(),
            fits(s@),
            items(s@, first as int) == prepend_items(views(sexps@), items(s@, *pos as int)),
        decreases s@.len() - *pos,
    {
        let ghost p = *pos;
        zspace(s, pos)?;
        proof {
            lemma_skip_ws(s@, p as int);
        }
        let (c, next) = peek(s, pos)?;
        if c == ')' {
            *pos = next;
            proof {
                assert(views(sexps@) + Seq::<SexpV>::empty() =~= views(sexps@));
            }
            break;
        }
        let ghost j = *pos;
        let x = parse_sexp(s, pos)?;
        proof {
            lemma_sexp_bounds(s@, j as int);
        }
        let ghost before = sexps@;
        sexps.push(x);
        assert(views(sexps@) =~= views(before) + seq![x@]);
        proof {
            lemma_prepend_items(views(before), seq![x@], items(s@, *pos as int));
        }
    }
    zspace(s, pos)?;
    Ok(sexps)
}

/// Reads an s-expression: white space, a list or an atom, then white space.
fn parse_sexp(s: &[char], pos: &mut usize) -> (r: Result<Sexp, Box<Error>>)
    requires
        *old(pos) <= s@.len(),
        fits(s@),
    ensures
        match sexp_at(s@, *old(pos) as int) {
            Ok((x, k)) => r matches Ok(v) && v@ == x && *final(pos) == k,
            Err(ev) => r matches Err(e) && error_is(*e, s@, ev) && *final(pos) == ev.stop,
        },
    decreases s@.len() - *old(pos), 2int,
{
    dbg("parse_sexp", pos);
    zspace(s, pos)?;
    proof {
        lemma_skip_ws(s@, *old(pos) as int);
    }
    let (c, _) = peek(s, pos)?;
    let ghost j = *pos;
    let r = if c == '(' {
        let l = parse_list(s, pos)?;
        proof {
            lemma_list_view(l);
            lemma_list_bounds(s@, j as int);
        }
        Sexp::List(l)
    } else {
        let a = parse_atom(s, pos)?;
        proof {
            lemma_atom_bounds(s@, j as int);
        }
        Sexp::Atom(a)
    };
    zspace(s, pos)?;
    Ok(r)
}

/// Reads an s-expression out of a `&str`: the whole text must be one
/// s-expression, with white space and comments around it. The only errors
/// are "unexpected eof" at the end of the text, and "unrecognized
/// post-s-expression data" at a byte index below its length (the length of
/// its UTF-8 encoding).
pub fn parse(s: &str) -> (r: Result<Sexp, Box<Error>>)
    requires
        fits(s@),
    ensures
        match parse_spec(s@) {
            Ok(x) => r matches Ok(v) && v@ == x,
            Err(ev) => r matches Err(e) && error_is(*e, s@, ev),
        },
        r matches Err(e) ==> (e.message@ == "unexpected eof"@ && e.index == encode_utf8(s@).len())
            || (e.message@ == "unrecognized post-s-expression data"@ && e.index < encode_utf8(
            s@,
        ).len()),
{
    proof {
        lemma_error_kinds(s@);
    }
    let cs = chars_of(s);
    let mut pos: usize = 0;
    let ret = parse_sexp(cs.as_slice(), &mut pos)?;
    proof {
        lemma_sexp_bounds(s@, 0);
    }
    if pos == cs.len() {
        Ok(ret)
    } else {
        char_error("unrecognized post-s-expression data", cs.as_slice(), pos)
    }
}

} // verus!
