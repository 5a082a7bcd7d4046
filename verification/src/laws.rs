//! What holds of the library as a whole: text written by the writer reads
//! back as the s-expression that was written, whenever its strings are
//! quoted or are not empty and hold no `(`, `)` or `;`, and its floats are
//! float literals that do not read as integers; quoted text reads back as
//! its string; reading reports only two errors; white space is Unicode's
//! and any of it separates items; a backslash before an ordinary character
//! stands for itself; the documented decimal forms are float literals;
//! strings with white space, a quote or a number's form are quoted; and a
//! map holds each pair's value unchanged.
use vstd::prelude::*;
use crate::text::is_ws;
use crate::text::has_ws;
use crate::text::has_char;
use crate::text::int_value;
use crate::text::is_float_text;
use crate::text::is_digit_char;
use crate::text::strip_sign;
use crate::text::spells;
use crate::text::is_special_float;
use crate::text::count_char;
use crate::text::all_digits;
use crate::text::first_exp;
use crate::text::is_exp_mark;
use crate::text::lemma_first_exp;
use crate::text::is_mantissa;
use crate::text::is_number_text;
use crate::text::is_exponent;
use crate::text::lemma_int_text_value;
use crate::sexp::AtomV;
use crate::sexp::SexpV;
use crate::grammar::is_delim;
use crate::grammar::skip_ws;
use crate::grammar::token_end;
use crate::grammar::quoted;
use crate::grammar::atom_at;
use crate::grammar::sexp_at;
use crate::grammar::items;
use crate::grammar::list_at;
use crate::grammar::parse_spec;
use crate::grammar::lemma_skip_ws;
use crate::grammar::lemma_sexp_bounds;
use crate::grammar::lemma_sexp_errors;
use crate::error::lemma_len_le_bytes;
use crate::text::lemma_encode_utf8_concat;
use crate::error::byte_offset;
use crate::text::lemma_encode_utf8_prefix;
use vstd::utf8::encode_utf8;
use crate::printer::escape;
use crate::printer::escape_char;
use crate::printer::needs_quote;
use crate::printer::print_atom;
use crate::printer::print;
use crate::printer::print_items;
use crate::printer::quote_text;
use crate::printer::lemma_escape_concat;
use crate::map::MapOutcome;
use crate::map::map_outcome;
use crate::map::same_pairs;
use crate::map::has_key;

verus! {

/// An atom that the writer writes in a form that reads back as the same
/// atom: a string that is quoted, or that is not empty and holds no `(`,
/// `)` or `;`; any integer; a float literal that `i64` does not read.
pub open spec fn printable_atom(a: AtomV) -> bool {
    match a {
        AtomV::S(s) => needs_quote(s) || (s.len() > 0 && !has_char(s, '(') && !has_char(s, ')')
            && !has_char(s, ';')),
        AtomV::I(_) => true,
        AtomV::F(t) => is_float_text(t) && int_value(t) is None,
    }
}

/// Every atom in `x` is printable.
pub open spec fn printable(x: SexpV) -> bool
    decreases x, 0int,
{
    match x {
        SexpV::Atom(a) => printable_atom(a),
        SexpV::List(xs) => printable_items(xs),
    }
}

/// Every atom in every item of `xs` is printable.
pub open spec fn printable_items(xs: Seq<SexpV>) -> bool
    decreases xs, 1int,
{
    if xs.len() == 0 {
        true
    } else {
        proof {
            assert(decreases_to!(xs => xs.subrange(1, xs.len() as int)));
        }
        printable(xs[0]) && printable_items(xs.drop_first())
    }
}

/// `cs` holds `t` at index `i`.
pub open spec fn holds_at(cs: Seq<char>, i: int, t: Seq<char>) -> bool {
    0 <= i && i + t.len() <= cs.len() && cs.subrange(i, i + t.len()) == t
}

/// A character that may follow a written s-expression: the end, white
/// space or a closing parenthesis.
pub open spec fn ends_item(cs: Seq<char>, e: int) -> bool {
    e == cs.len() || is_ws(cs[e]) || cs[e] == ')'
}

/// The first character of a written s-expression is neither white space
/// nor `;` nor `)`.
pub open spec fn good_start(c: char) -> bool {
    !is_ws(c) && c != ';' && c != ')'
}

/// The characters of a float literal: none is a delimiter or a quote.
proof fn lemma_float_chars(t: Seq<char>)
    requires
        is_float_text(t),
    ensures
        t.len() > 0,
        forall|k: int| 0 <= k < t.len() ==> !is_delim(#[trigger] t[k]) && t[k] != '"',
{
    let b = strip_sign(t);
    assert forall|k: int| 0 <= k < b.len() implies !is_delim(#[trigger] b[k]) && b[k] != '"' by {
        if is_special_float(b) {
            let c = b[k];
            if spells(b, seq!['i', 'n', 'f'], seq!['I', 'N', 'F']) {
                assert(c == seq!['i', 'n', 'f'][k] || c == seq!['I', 'N', 'F'][k]);
            } else if spells(
                b,
                seq!['i', 'n', 'f', 'i', 'n', 'i', 't', 'y'],
                seq!['I', 'N', 'F', 'I', 'N', 'I', 'T', 'Y'],
            ) {
                assert(c == seq!['i', 'n', 'f', 'i', 'n', 'i', 't', 'y'][k] || c == seq![
                    'I',
                    'N',
                    'F',
                    'I',
                    'N',
                    'I',
                    'T',
                    'Y',
                ][k]);
            } else {
                assert(c == seq!['n', 'a', 'n'][k] || c == seq!['N', 'A', 'N'][k]);
            }
            assert(('a' <= c && c <= 'z') || ('A' <= c && c <= 'Z'));
        } else {
            let e = first_exp(b);
            lemma_first_exp_bound(b);
            if k < e {
                assert(b.take(e)[k] == b[k]);
            } else {
                let x = b.skip(e);
                assert(x[k - e] == b[k]);
                if k > e {
                    let y = strip_sign(x.drop_first());
                    if y.len() < x.drop_first().len() {
                        if k > e + 1 {
                            assert(y[k - e - 2] == b[k]);
                        }
                    } else {
                        assert(y[k - e - 1] == b[k]);
                    }
                }
            }
        }
    }
    if is_special_float(b) {
        assert(b.len() > 0);
    } else {
        lemma_first_exp_bound(b);
        assert(b.take(first_exp(b)).len() > 0);
    }
    assert forall|k: int| 0 <= k < t.len() implies !is_delim(#[trigger] t[k]) && t[k] != '"' by {
        if b.len() < t.len() {
            if k > 0 {
                assert(b[k - 1] == t[k]);
            }
        } else {
            assert(b[k] == t[k]);
        }
    }
}

proof fn lemma_first_exp_bound(s: Seq<char>)
    ensures
        0 <= first_exp(s) <= s.len(),
    decreases s.len(),
{
    if s.len() > 0 {
        lemma_first_exp_bound(s.drop_first());
    }
}

/// Where an unquoted token ends, when its characters are known.
proof fn lemma_token_end_at(cs: Seq<char>, i: int, e: int)
    requires
        0 <= i <= e <= cs.len(),
        forall|k: int| i <= k < e ==> !is_delim(#[trigger] cs[k]),
        e == cs.len() || is_delim(cs[e]),
    ensures
        token_end(cs, i) == e,
    decreases e - i,
{
    if i < e {
        lemma_token_end_at(cs, i + 1, e);
    }
}

/// Skipping white space stops at once at a good start.
proof fn lemma_skip_stop(cs: Seq<char>, i: int)
    requires
        0 <= i < cs.len(),
        good_start(cs[i]) || cs[i] == ')',
    ensures
        skip_ws(cs, i) == i,
{
}

/// A quoted body written by `escape` and closed by `"` reads back as the
/// string it escapes, wherever it stands in a text.
pub proof fn lemma_quoted_escape(cs: Seq<char>, i: int, s: Seq<char>)
    requires
        holds_at(cs, i, escape(s) + seq!['"']),
    ensures
        quoted(cs, i) == Ok::<(Seq<char>, int), (int, int)>((s, i + escape(s).len() + 1)),
    decreases s.len(),
{
    let t = escape(s) + seq!['"'];
    assert(cs[i] == cs.subrange(i, i + t.len())[0]);
    assert(cs[i] == t[0]);
    if s.len() == 0 {
        assert(escape(s) =~= Seq::<char>::empty());
        assert(t[0] == '"');
        assert(s =~= Seq::<char>::empty());
    } else {
        let c = s[0];
        let rest = s.drop_first();
        let ec = escape_char(c);
        assert(escape(s) == ec + escape(rest));
        assert(t =~= ec + (escape(rest) + seq!['"']));
        assert(holds_at(cs, i + ec.len(), escape(rest) + seq!['"'])) by {
            assert(cs.subrange(i + ec.len(), i + ec.len() + escape(rest).len() + 1) =~= escape(rest)
                + seq!['"']) by {
                assert forall|k: int| 0 <= k < escape(rest).len() + 1 implies cs.subrange(
                    i + ec.len(),
                    i + ec.len() + escape(rest).len() + 1,
                )[k] == (escape(rest) + seq!['"'])[k] by {
                    assert(cs[i + ec.len() + k] == cs.subrange(i, i + t.len())[ec.len() + k]);
                }
            }
        }
        lemma_quoted_escape(cs, i + ec.len(), rest);
        if c == '\\' || c == '"' {
            assert(ec == seq!['\\', c]);
            assert(t[0] == '\\');
            assert(cs[i] == '\\');
            assert(cs[i + 1] == cs.subrange(i, i + t.len())[1]);
            assert(t[1] == c);
            assert(cs[i + 1] == c);
            assert(seq![c] + rest =~= s);
            assert(escape(s).len() == 2 + escape(rest).len());
        } else {
            assert(ec == seq![c]);
            assert(t[0] == c);
            assert(seq![c] + rest =~= s);
        }
    }
}

/// A written atom reads back as itself, when followed by the end of the
/// text, a space or a closing parenthesis.
proof fn lemma_read_atom(cs: Seq<char>, i: int, a: AtomV)
    requires
        printable_atom(a),
        holds_at(cs, i, print_atom(a)),
        ends_item(cs, i + print_atom(a).len()),
    ensures
        print_atom(a).len() > 0,
        good_start(print_atom(a)[0]),
        print_atom(a)[0] != '(',
        atom_at(cs, i) == Ok::<(AtomV, int), crate::error::ErrV>((a, i + print_atom(a).len())),
{
    let t = print_atom(a);
    let e = i + t.len();
    match a {
        AtomV::S(s) => {
            if needs_quote(s) {
                assert(t =~= seq!['"'] + (escape(s) + seq!['"']));
                assert(cs[i] == t[0]);
                assert(holds_at(cs, i + 1, escape(s) + seq!['"'])) by {
                    assert(cs.subrange(i + 1, e) =~= escape(s) + seq!['"']) by {
                        assert forall|k: int| 0 <= k < t.len() - 1 implies cs.subrange(i + 1, e)[k]
                            == (escape(s) + seq!['"'])[k] by {
                            assert(cs[i + 1 + k] == cs.subrange(i, e)[k + 1]);
                        }
                    }
                }
                lemma_quoted_escape(cs, i + 1, s);
            } else {
                assert forall|k: int| i <= k < e implies !is_delim(#[trigger] cs[k]) by {
                    assert(cs[k] == cs.subrange(i, e)[k - i]);
                    assert(s[k - i] == cs[k]);
                    if is_ws(cs[k]) {
                        assert(has_ws(s));
                    }
                    if cs[k] == '(' {
                        assert(has_char(s, '('));
                    }
                    if cs[k] == ')' {
                        assert(has_char(s, ')'));
                    }
                    if cs[k] == ';' {
                        assert(has_char(s, ';'));
                    }
                }
                assert(cs[i] == s[0]);
                if s[0] == '"' {
                    assert(has_char(s, '"'));
                }
                if is_ws(s[0]) {
                    assert(has_ws(s));
                }
                lemma_token_end_at(cs, i, e);
                assert(cs.subrange(i, e) == s);
            }
        },
        AtomV::I(v) => {
            lemma_int_text_value(v);
            assert forall|k: int| i <= k < e implies !is_delim(#[trigger] cs[k]) by {
                assert(cs[k] == cs.subrange(i, e)[k - i]);
                assert(is_digit_char(t[k - i]) || t[k - i] == '-');
            }
            assert(cs[i] == t[0]);
            assert(is_digit_char(t[0]) || t[0] == '-');
            lemma_token_end_at(cs, i, e);
            assert(cs.subrange(i, e) == t);
        },
        AtomV::F(f) => {
            lemma_float_chars(f);
            assert forall|k: int| i <= k < e implies !is_delim(#[trigger] cs[k]) by {
                assert(cs[k] == cs.subrange(i, e)[k - i]);
                assert(!is_delim(f[k - i]));
            }
            assert(cs[i] == f[0]);
            assert(!is_delim(f[0]));
            lemma_token_end_at(cs, i, e);
            assert(cs.subrange(i, e) == f);
        },
    }
}

/// The items of a list, as written, start with their first item.
proof fn lemma_print_items_first(xs: Seq<SexpV>)
    requires
        xs.len() >= 1,
    ensures
        print_items(xs) == print(xs[0]) + (if xs.len() == 1 {
            Seq::<char>::empty()
        } else {
            seq![' '] + print_items(xs.drop_first())
        }),
    decreases xs.len(),
{
    if xs.len() == 1 {
        assert(print(xs[0]) + Seq::<char>::empty() =~= print(xs[0]));
    } else if xs.len() == 2 {
        assert(xs.drop_last().len() == 1);
        assert(print_items(xs.drop_last()) == print(xs[0]));
        assert(xs.drop_first().len() == 1);
        assert(print_items(xs.drop_first()) == print(xs[1]));
        assert(print_items(xs) =~= print(xs[0]) + (seq![' '] + print_items(xs.drop_first())));
    } else {
        let d = xs.drop_last();
        lemma_print_items_first(d);
        let f = xs.drop_first();
        assert(d.drop_first() =~= f.drop_last());
        assert(f.last() == xs.last());
        assert(print_items(f) == print_items(f.drop_last()) + seq![' '] + print(f.last()));
        assert(print_items(xs) =~= print(xs[0]) + (seq![' '] + print_items(f)));
    }
}

/// A written s-expression is not empty and starts well.
proof fn lemma_print_start(x: SexpV)
    requires
        printable(x),
    ensures
        print(x).len() > 0,
        good_start(print(x)[0]),
{
    match x {
        SexpV::Atom(a) => {
            let cs = print_atom(a);
            assert(cs.subrange(0, cs.len() as int) =~= cs);
            lemma_read_start(a);
        },
        SexpV::List(xs) => {
            assert(print(x)[0] == '(');
        },
    }
}

/// A written atom is not empty and starts well.
proof fn lemma_read_start(a: AtomV)
    requires
        printable_atom(a),
    ensures
        print_atom(a).len() > 0,
        good_start(print_atom(a)[0]),
        print_atom(a)[0] != '(',
{
    let cs = print_atom(a);
    assert(cs.subrange(0, cs.len() as int) =~= cs);
    lemma_read_atom(cs, 0, a);
}

/// A written s-expression reads back as itself, when followed by the end of
/// the text, a space or a closing parenthesis; reading then stops after the
/// white space that follows it.
proof fn lemma_read_sexp(cs: Seq<char>, i: int, x: SexpV)
    requires
        printable(x),
        holds_at(cs, i, print(x)),
        ends_item(cs, i + print(x).len()),
    ensures
        sexp_at(cs, i) == Ok::<(SexpV, int), crate::error::ErrV>(
            (x, skip_ws(cs, i + print(x).len())),
        ),
    decreases x, 0int,
{
    let t = print(x);
    let e = i + t.len();
    lemma_print_start(x);
    assert(cs[i] == t[0]);
    lemma_skip_stop(cs, i);
    match x {
        SexpV::Atom(a) => {
            lemma_read_start(a);
            lemma_read_atom(cs, i, a);
        },
        SexpV::List(xs) => {
            let body = print_items(xs) + seq![')'];
            assert(t =~= seq!['('] + body);
            assert(holds_at(cs, i + 1, body)) by {
                assert(cs.subrange(i + 1, e) =~= body) by {
                    assert forall|k: int| 0 <= k < body.len() implies cs.subrange(i + 1, e)[k]
                        == body[k] by {
                        assert(cs[i + 1 + k] == cs.subrange(i, e)[k + 1]);
                    }
                }
            }
            lemma_read_items(cs, i + 1, xs);
            lemma_skip_ws(cs, e);
        },
    }
}

/// Written items followed by `)` read back as themselves, up to and
/// including the `)`.
proof fn lemma_read_items(cs: Seq<char>, i: int, xs: Seq<SexpV>)
    requires
        printable_items(xs),
        holds_at(cs, i, print_items(xs) + seq![')']),
    ensures
        items(cs, i) == Ok::<(Seq<SexpV>, int), crate::error::ErrV>(
            (xs, i + print_items(xs).len() + 1),
        ),
    decreases xs, 1int,
{
    let body = print_items(xs) + seq![')'];
    let n = i + body.len();
    assert(cs[i] == body[0]);
    if xs.len() == 0 {
        assert(print_items(xs) =~= Seq::<char>::empty());
        assert(body =~= seq![')']);
        assert(cs[i] == ')');
        assert(xs =~= Seq::<SexpV>::empty());
        lemma_skip_stop(cs, i);
    } else {
        let x0 = xs[0];
        let rest = xs.drop_first();
        lemma_print_items_first(xs);
        let p0 = print(x0);
        let e = i + p0.len();
        lemma_print_start(x0);
        assert(body[0] == p0[0]);
        lemma_skip_stop(cs, i);
        assert(holds_at(cs, i, p0)) by {
            assert(cs.subrange(i, e) =~= p0) by {
                assert forall|k: int| 0 <= k < p0.len() implies cs.subrange(i, e)[k] == p0[k] by {
                    assert(cs[i + k] == cs.subrange(i, n)[k]);
                    assert(body[k] == p0[k]);
                }
            }
        }
        assert(cs[e] == cs.subrange(i, n)[p0.len() as int]);
        if xs.len() == 1 {
            assert(body[p0.len() as int] == ')');
            lemma_read_sexp(cs, i, x0);
            lemma_skip_stop(cs, e);
            assert(items(cs, e) == Ok::<(Seq<SexpV>, int), crate::error::ErrV>((Seq::empty(), e + 1)));
            assert(seq![x0] + Seq::<SexpV>::empty() =~= xs);
        } else {
            let pr = print_items(rest);
            assert(body =~= p0 + (seq![' '] + (pr + seq![')'])));
            assert(body[p0.len() as int] == ' ');
            lemma_read_sexp(cs, i, x0);
            assert(holds_at(cs, e + 1, pr + seq![')'])) by {
                assert(cs.subrange(e + 1, n) =~= pr + seq![')']) by {
                    assert forall|k: int| 0 <= k < pr.len() + 1 implies cs.subrange(e + 1, n)[k] == (
                    pr + seq![')'])[k] by {
                        assert(cs[e + 1 + k] == cs.subrange(i, n)[p0.len() + 1 + k]);
                    }
                }
            }
            lemma_print_items_first(rest);
            assert(printable_items(rest));
            assert(printable(rest[0]));
            lemma_print_start(rest[0]);
            assert(pr[0] == print(rest[0])[0]);
            assert(cs[e + 1] == cs.subrange(e + 1, n)[0]);
            assert(cs[e + 1] == pr[0]);
            lemma_skip_stop(cs, e + 1);
            assert(skip_ws(cs, e) == e + 1);
            assert(decreases_to!(xs => xs.subrange(1, xs.len() as int)));
            lemma_read_items(cs, e + 1, rest);
            assert(seq![x0] + rest =~= xs);
        }
    }
}

/// Reading what the writer writes gives back what was written: for every
/// s-expression whose string atoms are quoted or are not empty and hold no
/// `(`, `)` or `;`, and whose float atoms are float literals that do not
/// read as integers, `parse(x.to_string())` is `x`.
pub proof fn lemma_parse_print(x: SexpV)
    requires
        printable(x),
    ensures
        parse_spec(print(x)) == Ok::<SexpV, crate::error::ErrV>(x),
{
    let cs = print(x);
    assert(cs.subrange(0, cs.len() as int) =~= cs);
    lemma_read_sexp(cs, 0, x);
}

/// Every error that reading reports lies within the text: it is found at a
/// character of the text or at its end, so its byte index is at most the
/// length of the text in bytes.
pub proof fn lemma_error_within(cs: Seq<char>)
    ensures
        parse_spec(cs) matches Err(ev) ==> 0 <= ev.pos <= cs.len() && byte_offset(cs, ev.pos)
            <= encode_utf8(cs).len(),
{
    lemma_sexp_bounds(cs, 0);
    lemma_skip_ws(cs, 0);
    if let Err(ev) = parse_spec(cs) {
        lemma_encode_utf8_prefix(cs, ev.pos, ev.pos);
    }
}

/// Reading reports only two errors: the text ending too early, at its end,
/// and text left over after the s-expression, at a character before the
/// end. In bytes, the first is at the length of the text and the second
/// below it.
pub proof fn lemma_error_kinds(cs: Seq<char>)
    ensures
        parse_spec(cs) matches Err(ev) ==> (ev.kind is UnexpectedEof && ev.pos == cs.len()
            && byte_offset(cs, ev.pos) == encode_utf8(cs).len()) || (ev.kind is TrailingData && 0
            <= ev.pos < cs.len() && byte_offset(cs, ev.pos) < encode_utf8(cs).len()),
{
    lemma_sexp_bounds(cs, 0);
    lemma_sexp_errors(cs, 0);
    lemma_skip_ws(cs, 0);
    assert(cs.take(cs.len() as int) =~= cs);
    if let Err(ev) = parse_spec(cs) {
        if ev.kind is TrailingData {
            let k = ev.pos;
            lemma_encode_utf8_concat(cs.take(k), cs.skip(k));
            assert(cs.take(k) + cs.skip(k) =~= cs);
            lemma_len_le_bytes(cs.skip(k));
        }
    }
}

/// The quoted form of any string, whatever follows it, reads back as that
/// string, ending just past the closing quote; it is never read as a
/// number.
pub proof fn lemma_quoted_reads_back(t: Seq<char>, r: Seq<char>)
    ensures
        quoted((seq!['"'] + escape(t) + seq!['"']) + r, 1) == Ok::<(Seq<char>, int), (int, int)>(
            (t, (seq!['"'] + escape(t) + seq!['"']).len() as int),
        ),
        atom_at((seq!['"'] + escape(t) + seq!['"']) + r, 0) == Ok::<
            (AtomV, int),
            crate::error::ErrV,
        >((AtomV::S(t), (seq!['"'] + escape(t) + seq!['"']).len() as int)),
{
    let q = seq!['"'] + escape(t) + seq!['"'];
    let cs = q + r;
    let body = escape(t) + seq!['"'];
    assert(q =~= seq!['"'] + body);
    assert(cs.subrange(1, 1 + body.len() as int) =~= body);
    lemma_quoted_escape(cs, 1, t);
    assert(cs[0] == '"');
}

/// The characters with the Unicode `White_Space` property, as the Unicode
/// Character Database lists them: tab, line feed, vertical tab, form feed,
/// carriage return, space, next line, no-break space, ogham space mark,
/// the spaces from en quad to hair space, line separator, paragraph
/// separator, narrow no-break space, medium mathematical space and
/// ideographic space.
pub open spec fn unicode_white_space(c: char) -> bool {
    ||| c == '\t'
    ||| c == '\n'
    ||| c == '\u{b}'
    ||| c == '\u{c}'
    ||| c == '\r'
    ||| c == ' '
    ||| c == '\u{85}'
    ||| c == '\u{a0}'
    ||| c == '\u{1680}'
    ||| c == '\u{2000}'
    ||| c == '\u{2001}'
    ||| c == '\u{2002}'
    ||| c == '\u{2003}'
    ||| c == '\u{2004}'
    ||| c == '\u{2005}'
    ||| c == '\u{2006}'
    ||| c == '\u{2007}'
    ||| c == '\u{2008}'
    ||| c == '\u{2009}'
    ||| c == '\u{200a}'
    ||| c == '\u{2028}'
    ||| c == '\u{2029}'
    ||| c == '\u{202f}'
    ||| c == '\u{205f}'
    ||| c == '\u{3000}'
}

/// The reader's white space is exactly Unicode's: `is_whitespace` answers
/// `true` for the 25 characters of the `White_Space` property and for no
/// other character.
pub proof fn law_white_space_is_unicode(c: char)
    ensures
        is_ws(c) <==> unicode_white_space(c),
{
}

/// Any white-space character separates two items of a list as a space
/// does: a list of two written s-expressions with any one white-space
/// character between them reads as the list of the two.
pub proof fn law_white_space_separates(x: SexpV, y: SexpV, c: char)
    requires
        printable(x),
        printable(y),
        unicode_white_space(c),
    ensures
        parse_spec(seq!['('] + print(x) + seq![c] + print(y) + seq![')']) == Ok::<
            SexpV,
            crate::error::ErrV,
        >(SexpV::List(seq![x, y])),
{
    let px = print(x);
    let py = print(y);
    let cs = seq!['('] + px + seq![c] + py + seq![')'];
    let n = cs.len() as int;
    let e1: int = 1 + px.len() as int;
    let e2: int = e1 + 1 + py.len() as int;
    assert(n == e2 + 1);
    lemma_print_start(x);
    lemma_print_start(y);
    assert(cs[0] == '(');
    assert(cs.subrange(1, e1) =~= px);
    assert(cs[e1] == c);
    assert(cs.subrange(e1 + 1, e2) =~= py);
    assert(cs[e2] == ')');
    assert(cs[1] == px[0]);
    assert(cs[e1 + 1] == py[0]);
    lemma_skip_stop(cs, 0);
    lemma_skip_stop(cs, 1);
    lemma_skip_stop(cs, e1 + 1);
    lemma_skip_stop(cs, e2);
    assert(skip_ws(cs, e1) == e1 + 1);
    lemma_read_sexp(cs, 1, x);
    lemma_read_sexp(cs, e1 + 1, y);
    assert(items(cs, e2) == Ok::<(Seq<SexpV>, int), crate::error::ErrV>((Seq::empty(), e2 + 1)));
    assert(seq![y] + Seq::<SexpV>::empty() =~= seq![y]);
    assert(items(cs, e1 + 1) == Ok::<(Seq<SexpV>, int), crate::error::ErrV>((seq![y], e2 + 1)));
    assert(seq![x] + seq![y] =~= seq![x, y]);
    assert(items(cs, 1) == Ok::<(Seq<SexpV>, int), crate::error::ErrV>((seq![x, y], n)));
    assert(skip_ws(cs, n) == n);
    assert(list_at(cs, 0) == Ok::<(Seq<SexpV>, int), crate::error::ErrV>((seq![x, y], n)));
}

/// Text for a quoted atom with no `"` in it, in which every backslash is
/// followed by a character other than `"` and `\`.
pub open spec fn plain_backslashes(u: Seq<char>) -> bool {
    &&& !has_char(u, '"')
    &&& forall|i: int|
        0 <= i < u.len() && #[trigger] u[i] == '\\' ==> i + 1 < u.len() && u[i + 1] != '\\' && u[i
            + 1] != '"'
}

proof fn lemma_quoted_plain(cs: Seq<char>, i: int, u: Seq<char>)
    requires
        plain_backslashes(u),
        holds_at(cs, i, u + seq!['"']),
    ensures
        quoted(cs, i) == Ok::<(Seq<char>, int), (int, int)>((u, i + u.len() + 1)),
    decreases u.len(),
{
    let t = u + seq!['"'];
    assert(cs[i] == cs.subrange(i, i + t.len())[0]);
    if u.len() == 0 {
        assert(u =~= Seq::<char>::empty());
    } else {
        let k: int = if u[0] == '\\' {
            2
        } else {
            1
        };
        let rest = u.skip(k);
        assert(u[0] != '"') by {
            if u[0] == '"' {
                assert(has_char(u, '"'));
            }
        }
        assert(plain_backslashes(rest)) by {
            if has_char(rest, '"') {
                let j = choose|j: int| 0 <= j < rest.len() && rest[j] == '"';
                assert(u[j + k] == '"');
                assert(has_char(u, '"'));
            }
            assert forall|j: int| 0 <= j < rest.len() && #[trigger] rest[j] == '\\' implies j + 1
                < rest.len() && rest[j + 1] != '\\' && rest[j + 1] != '"' by {
                assert(u[j + k] == '\\');
            }
        }
        assert(holds_at(cs, i + k, rest + seq!['"'])) by {
            assert forall|m: int| 0 <= m < rest.len() + 1 implies cs.subrange(
                i + k,
                i + k + rest.len() + 1,
            )[m] == (rest + seq!['"'])[m] by {
                assert(cs[i + k + m] == cs.subrange(i, i + t.len())[k + m]);
            }
            assert(cs.subrange(i + k, i + k + rest.len() + 1) =~= rest + seq!['"']);
        }
        lemma_quoted_plain(cs, i + k, rest);
        if u[0] == '\\' {
            assert(cs[i + 1] == cs.subrange(i, i + t.len())[1]);
            assert(seq!['\\', u[1]] + rest =~= u);
        } else {
            assert(seq![u[0]] + rest =~= u);
        }
    }
}

/// Inside quotes, a backslash before any character other than `"` and `\`
/// stands for itself: a quoted atom whose text has no `"` and no such
/// escape reads as exactly the characters between its quotes.
pub proof fn law_backslash_stands_for_itself(u: Seq<char>)
    requires
        plain_backslashes(u),
    ensures
        parse_spec(seq!['"'] + u + seq!['"']) == Ok::<SexpV, crate::error::ErrV>(
            SexpV::Atom(AtomV::S(u)),
        ),
{
    let cs = seq!['"'] + u + seq!['"'];
    let n = cs.len() as int;
    assert(cs.subrange(1, n) =~= u + seq!['"']);
    lemma_quoted_plain(cs, 1, u);
    assert(cs[0] == '"');
    lemma_skip_stop(cs, 0);
    assert(skip_ws(cs, n) == n);
}

proof fn lemma_count_concat(a: Seq<char>, b: Seq<char>, c: char)
    ensures
        count_char(a + b, c) == count_char(a, c) + count_char(b, c),
    decreases b.len(),
{
    if b.len() == 0 {
        assert(a + b =~= a);
    } else {
        lemma_count_concat(a, b.drop_last(), c);
        assert((a + b).drop_last() =~= a + b.drop_last());
        assert((a + b).last() == b.last());
    }
}

proof fn lemma_count_digits(a: Seq<char>)
    requires
        all_digits(a),
    ensures
        count_char(a, '.') == 0,
    decreases a.len(),
{
    if a.len() > 0 {
        assert(all_digits(a.drop_last())) by {
            assert forall|i: int| 0 <= i < a.drop_last().len() implies is_digit_char(
                #[trigger] a.drop_last()[i],
            ) by {
                assert(a.drop_last()[i] == a[i]);
            }
        }
        lemma_count_digits(a.drop_last());
        assert(is_digit_char(a[a.len() - 1]));
    }
}

/// Every decimal number written with a point, as digits, `.` and digits
/// (at least one digit on some side, any number on each), is a float
/// literal that `f64::from_str` accepts, and reads as a float atom.
pub proof fn law_decimal_is_float(a: Seq<char>, b: Seq<char>)
    requires
        all_digits(a),
        all_digits(b),
        a.len() + b.len() > 0,
    ensures
        is_float_text(a + seq!['.'] + b),
        int_value(a + seq!['.'] + b) is None,
        parse_spec(a + seq!['.'] + b) == Ok::<SexpV, crate::error::ErrV>(
            SexpV::Atom(AtomV::F(a + seq!['.'] + b)),
        ),
{
    let t = a + seq!['.'] + b;
    assert forall|i: int| 0 <= i < t.len() implies is_digit_char(#[trigger] t[i]) || t[i] == '.' by {
        if i < a.len() {
            assert(t[i] == a[i]);
        } else if i > a.len() {
            assert(t[i] == b[i - a.len() - 1]);
        }
    }
    assert(strip_sign(t) == t);
    assert(!is_special_float(t)) by {
        assert(is_digit_char(t[0]) || t[0] == '.');
    }
    assert forall|j: int| 0 <= j < t.len() implies !is_exp_mark(#[trigger] t[j]) by {
        assert(is_digit_char(t[j]) || t[j] == '.');
    }
    lemma_first_exp(t, t.len() as int);
    assert(t.take(t.len() as int) =~= t);
    assert(t.skip(t.len() as int) =~= Seq::<char>::empty());
    lemma_count_concat(a + seq!['.'], b, '.');
    lemma_count_concat(a, seq!['.'], '.');
    lemma_count_digits(a);
    lemma_count_digits(b);
    assert(seq!['.'].drop_last() =~= Seq::<char>::empty());
    assert(count_char(Seq::<char>::empty(), '.') == 0);
    assert(seq!['.'].last() == '.');
    assert(count_char(seq!['.'], '.') == 1);
    assert(is_mantissa(t));
    assert(is_number_text(t));
    assert(!all_digits(t)) by {
        assert(t[a.len() as int] == '.');
    }
    assert(int_value(t) is None);
    lemma_parse_print(SexpV::Atom(AtomV::F(t)));
}

/// A string is written in double quotes, escaped, whenever it holds white
/// space or a `"` or reads as a number, whatever else it holds; that
/// text reads back as the string. Otherwise it is written as it is.
pub proof fn law_quote(s: Seq<char>)
    ensures
        has_ws(s) || has_char(s, '"') || int_value(s) is Some || is_float_text(s) ==> quote_text(s) == seq!['"'] + escape(s)
            + seq!['"'] && parse_spec(quote_text(s)) == Ok::<SexpV, crate::error::ErrV>(
            SexpV::Atom(AtomV::S(s)),
        ),
        !(has_ws(s) || has_char(s, '"') || int_value(s) is Some || is_float_text(s)) ==> quote_text(s) == s,
{
    if has_ws(s) || has_char(s, '"') || int_value(s) is Some || is_float_text(s) {
        let q = seq!['"'] + escape(s) + seq!['"'];
        lemma_quoted_reads_back(s, Seq::empty());
        assert(q + Seq::<char>::empty() =~= q);
        assert(q[0] == '"');
        lemma_skip_stop(q, 0);
        assert(skip_ws(q, q.len() as int) == q.len());
    }
}

/// Each item of a list read as a map is a pair `(k v)` with `k` a string
/// atom, and gives the entry of `k` and `v` itself, in the item's place:
/// the value is the pair's second element, unchanged.
pub proof fn law_map_entries(xs: Seq<SexpV>)
    ensures
        map_outcome(xs) matches MapOutcome::Entries(es) ==> es.len() == xs.len() && forall|i: int|
            0 <= i < xs.len() ==> (#[trigger] xs[i]) == SexpV::List(
                seq![SexpV::Atom(AtomV::S(es[i].0)), es[i].1],
            ),
    decreases xs.len(),
{
    if xs.len() > 0 {
        law_map_entries(xs.drop_last());
        if let MapOutcome::Entries(es) = map_outcome(xs) {
            let es0 = map_outcome(xs.drop_last())->Entries_0;
            assert forall|i: int| 0 <= i < xs.len() implies (#[trigger] xs[i]) == SexpV::List(
                seq![SexpV::Atom(AtomV::S(es[i].0)), es[i].1],
            ) by {
                if i < xs.len() - 1 {
                    assert(xs[i] == xs.drop_last()[i]);
                    assert(es[i] == es0[i]);
                } else {
                    let pair = xs.last()->List_0;
                    assert(pair =~= seq![pair[0], pair[1]]);
                }
            }
        }
    }
}

/// A map read from a list holds, under the key of each item, that item's
/// second element, unchanged.
pub proof fn law_map_holds_values(xs: Seq<SexpV>, m: Seq<(Seq<char>, SexpV)>, i: int, k: Seq<char>, v: SexpV)
    requires
        map_outcome(xs) is Entries,
        same_pairs(m, map_outcome(xs)->Entries_0),
        0 <= i < xs.len(),
        xs[i] == SexpV::List(seq![SexpV::Atom(AtomV::S(k)), v]),
    ensures
        m.contains((k, v)),
{
    let es = map_outcome(xs)->Entries_0;
    law_map_entries(xs);
    let p = es[i];
    assert(seq![SexpV::Atom(AtomV::S(p.0)), p.1][0] == SexpV::Atom(AtomV::S(p.0)));
    assert(seq![SexpV::Atom(AtomV::S(k)), v][0] == SexpV::Atom(AtomV::S(k)));
    assert(seq![SexpV::Atom(AtomV::S(p.0)), p.1][1] == p.1);
    assert(seq![SexpV::Atom(AtomV::S(k)), v][1] == v);
    assert(p == (k, v));
    assert(es.contains((k, v)));
}

/// A sign: nothing, `+` or `-`.
pub open spec fn is_sign(s: Seq<char>) -> bool {
    s == Seq::<char>::empty() || s == seq!['+'] || s == seq!['-']
}

proof fn lemma_mantissa_form(a: Seq<char>, pt: Seq<char>, b: Seq<char>)
    requires
        all_digits(a),
        pt == Seq::<char>::empty() || pt == seq!['.'],
        all_digits(b),
        a.len() + b.len() > 0,
    ensures
        is_mantissa(a + pt + b),
        forall|i: int|
            0 <= i < (a + pt + b).len() ==> is_digit_char(#[trigger] (a + pt + b)[i]) || (a + pt
                + b)[i] == '.',
        is_digit_char((a + pt + b)[0]) || (a + pt + b)[0] == '.',
{
    let m = a + pt + b;
    assert forall|i: int| 0 <= i < m.len() implies is_digit_char(#[trigger] m[i]) || m[i] == '.' by {
        if i < a.len() {
            assert(m[i] == a[i]);
        } else if i < a.len() + pt.len() {
            assert(m[i] == pt[i - a.len()]);
        } else {
            assert(m[i] == b[i - a.len() - pt.len()]);
        }
    }
    lemma_count_concat(a + pt, b, '.');
    lemma_count_concat(a, pt, '.');
    lemma_count_digits(a);
    lemma_count_digits(b);
    assert(count_char(Seq::<char>::empty(), '.') == 0);
    if pt.len() > 0 {
        assert(seq!['.'].drop_last() =~= Seq::<char>::empty());
        assert(seq!['.'].last() == '.');
    }
}

proof fn lemma_exponent_form(mk: char, sg: Seq<char>, d: Seq<char>)
    requires
        mk == 'e' || mk == 'E',
        is_sign(sg),
        all_digits(d),
        d.len() > 0,
    ensures
        is_exponent(seq![mk] + sg + d),
        (seq![mk] + sg + d)[0] == mk,
{
    let x = seq![mk] + sg + d;
    assert(x.drop_first() =~= sg + d);
    assert(is_digit_char(d[0]));
    if sg.len() > 0 {
        assert((sg + d)[0] == sg[0]);
        assert((sg + d).drop_first() =~= d);
    } else {
        assert(sg + d =~= d);
    }
}

proof fn lemma_number_form(m: Seq<char>, x: Seq<char>)
    requires
        is_mantissa(m),
        m.len() > 0,
        forall|i: int| 0 <= i < m.len() ==> is_digit_char(#[trigger] m[i]) || m[i] == '.',
        x.len() == 0 || (is_exponent(x) && is_exp_mark(x[0])),
    ensures
        is_number_text(m + x),
{
    let t = m + x;
    assert forall|j: int| 0 <= j < m.len() implies !is_exp_mark(#[trigger] t[j]) by {
        assert(t[j] == m[j]);
        assert(is_digit_char(m[j]) || m[j] == '.');
    }
    if x.len() > 0 {
        assert(t[m.len() as int] == x[0]);
    }
    lemma_first_exp(t, m.len() as int);
    assert(t.take(m.len() as int) =~= m);
    assert(t.skip(m.len() as int) =~= x);
}

proof fn lemma_not_special(t: Seq<char>)
    requires
        t.len() > 0,
        is_digit_char(t[0]) || t[0] == '.',
    ensures
        !is_special_float(t),
{
}

proof fn lemma_unsigned_float(s0: Seq<char>, t: Seq<char>)
    requires
        is_sign(s0),
        t.len() > 0,
        is_digit_char(t[0]) || t[0] == '.',
        is_number_text(t),
    ensures
        is_float_text(s0 + t),
{
    lemma_not_special(t);
    assert(strip_sign(s0 + t) =~= t) by {
        if s0.len() > 0 {
            assert((s0 + t)[0] == s0[0]);
            assert((s0 + t).drop_first() =~= t);
        } else {
            assert(s0 + t =~= t);
        }
    }
}

/// Every decimal number in the forms that `f64::from_str` documents is a
/// float literal: an optional sign, digits with an optional point (at least
/// one digit), then optionally `e` or `E`, an optional sign and at least
/// one digit.
pub proof fn law_float_forms(
    s0: Seq<char>,
    a: Seq<char>,
    pt: Seq<char>,
    b: Seq<char>,
    x: Seq<char>,
)
    requires
        is_sign(s0),
        all_digits(a),
        pt == Seq::<char>::empty() || pt == seq!['.'],
        all_digits(b),
        a.len() + b.len() > 0,
        x == Seq::<char>::empty() || exists|mk: char, sg: Seq<char>, d: Seq<char>|
            (mk == 'e' || mk == 'E') && is_sign(sg) && all_digits(d) && d.len() > 0 && x == seq![mk]
                + sg + d,
    ensures
        is_float_text(s0 + a + pt + b + x),
{
    let m = a + pt + b;
    lemma_mantissa_form(a, pt, b);
    if x.len() > 0 {
        let (mk, sg, d) = choose|mk: char, sg: Seq<char>, d: Seq<char>|
            (mk == 'e' || mk == 'E') && is_sign(sg) && all_digits(d) && d.len() > 0 && x == seq![mk]
                + sg + d;
        lemma_exponent_form(mk, sg, d);
    }
    lemma_number_form(m, x);
    assert((m + x)[0] == m[0]);
    lemma_unsigned_float(s0, m + x);
    assert(s0 + a + pt + b + x =~= s0 + (m + x));
}

/// Every list of pairs `(k v)` whose keys are string atoms, no key twice,
/// is accepted as a map.
pub proof fn law_map_accepts_pairs(xs: Seq<SexpV>, ks: Seq<Seq<char>>, vs: Seq<SexpV>)
    requires
        ks.len() == xs.len(),
        vs.len() == xs.len(),
        forall|i: int|
            0 <= i < xs.len() ==> (#[trigger] xs[i]) == SexpV::List(
                seq![SexpV::Atom(AtomV::S(ks[i])), vs[i]],
            ),
        forall|i: int, j: int| 0 <= i < j < ks.len() ==> (#[trigger] ks[i]) != (#[trigger] ks[j]),
    ensures
        map_outcome(xs) is Entries,
    decreases xs.len(),
{
    if xs.len() > 0 {
        let n = xs.len() - 1;
        let xs0 = xs.drop_last();
        assert forall|i: int| 0 <= i < xs0.len() implies (#[trigger] xs0[i]) == SexpV::List(
            seq![SexpV::Atom(AtomV::S(ks.drop_last()[i])), vs.drop_last()[i]],
        ) by {
            assert(xs0[i] == xs[i]);
        }
        assert forall|i: int, j: int| 0 <= i < j < ks.drop_last().len() implies (
        #[trigger] ks.drop_last()[i]) != (#[trigger] ks.drop_last()[j]) by {
            assert(ks.drop_last()[i] == ks[i] && ks.drop_last()[j] == ks[j]);
        }
        law_map_accepts_pairs(xs0, ks.drop_last(), vs.drop_last());
        law_map_entries(xs0);
        let es = map_outcome(xs0)->Entries_0;
        assert(xs.last() == xs[n]);
        let pair = seq![SexpV::Atom(AtomV::S(ks[n])), vs[n]];
        assert(pair.len() == 2 && pair[0] == SexpV::Atom(AtomV::S(ks[n])));
        assert(!has_key(es, ks[n])) by {
            if has_key(es, ks[n]) {
                let j = choose|j: int| 0 <= j < es.len() && (#[trigger] es[j]).0 == ks[n];
                assert(xs0[j] == xs[j]);
                let q = seq![SexpV::Atom(AtomV::S(es[j].0)), es[j].1];
                let r = seq![SexpV::Atom(AtomV::S(ks[j])), vs[j]];
                assert(q[0] == r[0]);
                assert(es[j].0 == ks[j]);
            }
        }
    }
}

proof fn lemma_count_zero(s: Seq<char>, c: char)
    requires
        forall|i: int| 0 <= i < s.len() ==> s[i] != c,
    ensures
        count_char(s, c) == 0,
    decreases s.len(),
{
    if s.len() > 0 {
        lemma_count_zero(s.drop_last(), c);
        assert(s.last() == s[s.len() - 1]);
    }
}

/// A character that may appear in a float literal: a digit, a point, a
/// sign, an exponent marker, or a letter of `infinity` or `nan` in either
/// case.
pub open spec fn float_char(c: char) -> bool {
    ||| '0' <= c && c <= '9'
    ||| c == '.' || c == '+' || c == '-' || c == 'e' || c == 'E'
    ||| c == 'i' || c == 'n' || c == 'f' || c == 't' || c == 'y' || c == 'a'
    ||| c == 'I' || c == 'N' || c == 'F' || c == 'T' || c == 'Y' || c == 'A'
}

/// A float literal is not empty, holds at most one point, and holds only
/// digits, points, signs, exponent markers and the letters of `infinity`
/// and `nan`.
pub proof fn law_float_text_shape(t: Seq<char>)
    requires
        is_float_text(t),
    ensures
        t.len() > 0,
        count_char(t, '.') <= 1,
        forall|k: int| 0 <= k < t.len() ==> float_char(#[trigger] t[k]),
{
    lemma_float_chars(t);
    let b = strip_sign(t);
    let s0 = t.take(t.len() - b.len());
    assert(s0 + b =~= t);
    assert forall|k: int| 0 <= k < s0.len() implies s0[k] != '.' by {
        assert(s0[k] == t[0]);
    }
    lemma_count_zero(s0, '.');
    lemma_count_concat(s0, b, '.');
    if is_special_float(b) {
        assert forall|k: int| 0 <= k < b.len() implies float_char(#[trigger] b[k]) && b[k] != '.' by {
            let c = b[k];
            if spells(b, seq!['i', 'n', 'f'], seq!['I', 'N', 'F']) {
                assert(c == seq!['i', 'n', 'f'][k] || c == seq!['I', 'N', 'F'][k]);
            } else if spells(
                b,
                seq!['i', 'n', 'f', 'i', 'n', 'i', 't', 'y'],
                seq!['I', 'N', 'F', 'I', 'N', 'I', 'T', 'Y'],
            ) {
                assert(c == seq!['i', 'n', 'f', 'i', 'n', 'i', 't', 'y'][k] || c == seq![
                    'I',
                    'N',
                    'F',
                    'I',
                    'N',
                    'I',
                    'T',
                    'Y',
                ][k]);
            } else {
                assert(c == seq!['n', 'a', 'n'][k] || c == seq!['N', 'A', 'N'][k]);
            }
        }
        lemma_count_zero(b, '.');
    } else {
        let e = first_exp(b);
        lemma_first_exp_bound(b);
        let m = b.take(e);
        let x = b.skip(e);
        assert(m + x =~= b);
        lemma_count_concat(m, x, '.');
        assert forall|k: int| 0 <= k < x.len() implies x[k] != '.' && float_char(#[trigger] x[k]) by {
            if k > 0 {
                let y = strip_sign(x.drop_first());
                if y.len() < x.drop_first().len() {
                    if k > 1 {
                        assert(y[k - 2] == x[k]);
                    } else {
                        assert(x[1] == x.drop_first()[0]);
                    }
                } else {
                    assert(y[k - 1] == x[k]);
                }
            }
        }
        lemma_count_zero(x, '.');
        assert forall|k: int| 0 <= k < b.len() implies float_char(#[trigger] b[k]) by {
            if k < e {
                assert(m[k] == b[k]);
            } else {
                assert(x[k - e] == b[k]);
            }
        }
    }
    assert forall|k: int| 0 <= k < t.len() implies float_char(#[trigger] t[k]) by {
        if k < s0.len() {
            assert(t[k] == s0[k]);
            assert(s0[k] == t[0]);
        } else {
            assert(t[k] == b[k - s0.len()]);
        }
    }
}

/// Inside quotes, the writer puts a backslash before each `"` and each `\`
/// and writes every other character as it is.
pub proof fn law_escape(a: Seq<char>, c: char, b: Seq<char>)
    ensures
        escape(Seq::empty()) == Seq::<char>::empty(),
        c == '"' || c == '\\' ==> escape(a + seq![c] + b) == escape(a) + seq!['\\', c] + escape(b),
        c != '"' && c != '\\' ==> escape(a + seq![c] + b) == escape(a) + seq![c] + escape(b),
{
    assert(escape(Seq::<char>::empty()) =~= Seq::<char>::empty());
    lemma_escape_concat(a + seq![c], b);
    lemma_escape_concat(a, seq![c]);
    assert(seq![c].drop_first() =~= Seq::<char>::empty());
    assert(seq![c][0] == c);
    assert(escape(seq![c]) =~= escape_char(c) + Seq::<char>::empty());
}

} // verus!
