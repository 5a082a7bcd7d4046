//! The writer: turns an s-expression into text, quoting the strings that
//! would otherwise read back as something else.
use vstd::prelude::*;
use crate::text::is_ws;
use crate::text::has_ws;
use crate::text::has_char;
use crate::text::int_value;
use crate::text::is_float_text;
use crate::text::is_whitespace;
use crate::text::parse_i64;
use crate::text::parse_float_text;
use crate::text::push_char;
use crate::text::chars_of;
use crate::text::int_text;
use crate::text::u64_digits;
use crate::sexp::Atom;
use crate::sexp::AtomV;
use crate::sexp::Sexp;
use crate::sexp::SexpV;
use crate::sexp::views;
use crate::sexp::lemma_list_view;

verus! {

/// `s` reads as a number: `i64` or `f64` accepts it.
pub open spec fn is_num_text(s: Seq<char>) -> bool {
    int_value(s) is Some || is_float_text(s)
}

/// The escape of one character inside quotes: `\` and `"` get a backslash.
pub open spec fn escape_char(c: char) -> Seq<char> {
    if c == '\\' || c == '"' {
        seq!['\\', c]
    } else {
        seq![c]
    }
}

/// `s` with every `\` and `"` escaped by a backslash.
pub open spec fn escape(s: Seq<char>) -> Seq<char>
    decreases s.len(),
{
    if s.len() == 0 {
        Seq::empty()
    } else {
        escape_char(s[0]) + escape(s.drop_first())
    }
}

/// A string must be quoted when it holds a `"` or white space, or would
/// read as a number.
pub open spec fn needs_quote(s: Seq<char>) -> bool {
    has_char(s, '"') || has_ws(s) || is_num_text(s)
}

/// How a string atom is written: as it is, or in quotes with `\` and `"`
/// escaped when it must be quoted.
pub open spec fn quote_text(s: Seq<char>) -> Seq<char> {
    if needs_quote(s) {
        seq!['"'] + escape(s) + seq!['"']
    } else {
        s
    }
}

/// How an atom is written.
pub open spec fn print_atom(a: AtomV) -> Seq<char> {
    match a {
        AtomV::S(s) => quote_text(s),
        AtomV::I(i) => int_text(i as int),
        AtomV::F(t) => t,
    }
}

/// How an s-expression is written: an atom as above, a list as `(`, its
/// items separated by single spaces, and `)`.
pub open spec fn print(x: SexpV) -> Seq<char>
    decreases x, 0int,
{
    match x {
        SexpV::Atom(a) => print_atom(a),
        SexpV::List(xs) => seq!['('] + print_items(xs) + seq![')'],
    }
}

/// The items of a list, separated by single spaces.
pub open spec fn print_items(xs: Seq<SexpV>) -> Seq<char>
    decreases xs, 1int,
{
    if xs.len() == 0 {
        Seq::empty()
    } else if xs.len() == 1 {
        print(xs[0])
    } else {
        proof {
            assert(decreases_to!(xs => xs.subrange(0, xs.len() - 1)));
        }
        print_items(xs.drop_last()) + seq![' '] + print(xs.last())
    }
}

/// Escaping distributes over concatenation.
pub proof fn lemma_escape_concat(a: Seq<char>, b: Seq<char>)
    ensures
        escape(a + b) == escape(a) + escape(b),
    decreases a.len(),
{
    if a.len() == 0 {
        assert(a + b =~= b);
        assert(escape(a) + escape(b) =~= escape(b));
    } else {
        lemma_escape_concat(a.drop_first(), b);
        assert((a + b).drop_first() =~= a.drop_first() + b);
        assert(escape_char(a[0]) + (escape(a.drop_first()) + escape(b)) =~= (escape_char(a[0])
            + escape(a.drop_first())) + escape(b));
    }
}

/// Whether `s` holds a white-space character.
pub fn string_contains_whitespace(s: &str) -> (b: bool)
    ensures
        b == has_ws(s@),
{
    let cs = chars_of(s);
    let mut i: usize = 0;
    while i < cs.len()
        invariant
            cs@ == s@,
            i <= cs@.len(),
            forall|j: int| 0 <= j < i ==> !is_ws(#[trigger] cs@[j]),
        decreases cs.len() - i,
    {
        if is_whitespace(cs[i]) {
            return true;
        }
        i = i + 1;
    }
    false
}

/// Whether `s` reads as a number: `i64` or `f64` accepts it.
pub fn is_num_string(s: &str) -> (b: bool)
    ensures
        b == is_num_text(s@),
{
    let cs = chars_of(s);
    let x = parse_i64(cs.as_slice());
    let y = parse_float_text(cs.as_slice());
    x.is_some() || y
}

/// Whether `s` holds the character `c`.
fn contains_char(s: &[char], c: char) -> (b: bool)
    ensures
        b == has_char(s@, c),
{
    let mut i: usize = 0;
    while i < s.len()
        invariant
            i <= s@.len(),
            forall|j: int| 0 <= j < i ==> s@[j] != c,
        decreases s.len() - i,
    {
        if s[i] == c {
            return true;
        }
        i = i + 1;
    }
    false
}

/// How the string `s` is written in an s-expression: as it is, unless it
/// holds a `"` or white space or reads as a number; then in double quotes,
/// with each `\` and `"` escaped by a backslash.
pub fn quote(s: &str) -> (r: String)
    ensures
        r@ == quote_text(s@),
{
    let cs = chars_of(s);
    if !contains_char(cs.as_slice(), '"') && !string_contains_whitespace(s) && !is_num_string(s) {
        return s.to_owned();
    }
    let mut r = String::new();
    push_char(&mut r, '"');
    let mut i: usize = 0;
    assert(s@.take(0) =~= Seq::<char>::empty());
    while i < cs.len()
        invariant
            cs@ == s@,
            i <= cs@.len(),
            r@ == seq!['"'] + escape(s@.take(i as int)),
        decreases cs.len() - i,
    {
        let c = cs[i];
        let ghost before = r@;
        if c == '\\' || c == '"' {
            push_char(&mut r, '\\');
        }
        push_char(&mut r, c);
        proof {
            lemma_escape_concat(s@.take(i as int), seq![c]);
            assert(s@.take(i as int) + seq![c] =~= s@.take(i + 1));
            assert(seq![c].drop_first() =~= Seq::<char>::empty());
            assert(escape(Seq::<char>::empty()) =~= Seq::<char>::empty());
            assert(seq![c][0] == c);
            assert(escape(seq![c]) =~= escape_char(c));
            assert(r@ =~= seq!['"'] + escape(s@.take(i + 1)));
        }
        i = i + 1;
    }
    push_char(&mut r, '"');
    assert(s@.take(cs@.len() as int) =~= s@);
    r
}

/// Appends the characters of `v` to `out`.
fn append_chars(out: &mut String, v: &[char])
    ensures
        final(out)@ == old(out)@ + v@,
{
    let mut i: usize = 0;
    while i < v.len()
        invariant
            i <= v@.len(),
            out@ == old(out)@ + v@.take(i as int),
        decreases v.len() - i,
    {
        push_char(out, v[i]);
        i = i + 1;
        assert(out@ =~= old(out)@ + v@.take(i as int));
    }
    assert(v@.take(v@.len() as int) =~= v@);
}

/// The decimal text of `i`, as `Display` writes it.
pub fn i64_text(i: i64) -> (r: String)
    ensures
        r@ == int_text(i as int),
{
    let mut r = String::new();
    if i < 0 {
        push_char(&mut r, '-');
        let m: u64 = if i == i64::MIN {
            0x8000_0000_0000_0000
        } else {
            (-i) as u64
        };
        let ds = u64_digits(m);
        append_chars(&mut r, ds.as_slice());
    } else {
        let ds = u64_digits(i as u64);
        append_chars(&mut r, ds.as_slice());
    }
    r
}

impl Atom {
    /// The atom as text: a string as `quote` writes it, an integer in
    /// decimal, a float as its literal.
    pub fn to_string(&self) -> (r: String)
        ensures
            r@ == print_atom(self@),
    {
        match self {
            Atom::S(s) => quote(s.as_str()),
            Atom::I(i) => i64_text(*i),
            Atom::F(t) => t.clone(),
        }
    }
}

impl Sexp {
    /// Appends the text of this s-expression to `out`.
    #[verifier::loop_isolation(false)]
    pub fn write_to(&self, out: &mut String)
        ensures
            final(out)@ == old(out)@ + print(self@),
        decreases self,
    {
        match self {
            Sexp::Atom(a) => {
                let t = a.to_string();
                out.append(t.as_str());
            },
            Sexp::List(v) => {
                proof {
                    lemma_list_view(*v);
                }
                let ghost xs = views(v@);
                push_char(out, '(');
                let ghost base = out@;
                let mut i: usize = 0;
                assert(xs.take(0) =~= Seq::<SexpV>::empty());
                while i < v.len()
                    invariant
                        i <= v@.len(),
                        xs == views(v@),
                        out@ == base + print_items(xs.take(i as int)),
                    decreases v.len() - i,
                {
                    assert(decreases_to!(*self => self->List_0));
                    assert(decreases_to!(v => v@));
                    assert(decreases_to!(v@ => v@[i as int]));
                    let ghost before = out@;
                    if i > 0 {
                        push_char(out, ' ');
                    }
                    v[i].write_to(out);
                    proof {
                        let p = xs.take(i + 1);
                        assert(p.drop_last() =~= xs.take(i as int));
                        assert(p.last() == v@[i as int]@);
                        if i == 0 {
                            assert(print_items(p) == print(p[0]));
                            assert(out@ =~= base + print_items(p));
                        } else {
                            assert(out@ =~= base + print_items(p));
                        }
                    }
                    i = i + 1;
                }
                assert(xs.take(v@.len() as int) =~= xs);
                push_char(out, ')');
                assert(out@ =~= old(out)@ + print(self@));
            },
        }
    }

    /// The s-expression as text: atoms as [`Atom::to_string`] writes them,
    /// a list as `(`, its items separated by single spaces, and `)`.
    pub fn to_string(&self) -> (r: String)
        ensures
            r@ == print(self@),
    {
        let mut r = String::new();
        self.write_to(&mut r);
        assert(r@ =~= print(self@));
        r
    }
}

} // verus!
