//! The s-expression data types, their mathematical models, and the
//! constructors and accessors on them.
use vstd::prelude::*;

verus! {

/// A single data element in an s-expression: a string, an integer, or a
/// float.
///
/// All strings must be valid utf-8. A float is held as the literal that
/// denotes it (text that `f64::from_str` accepts), so that the library can
/// read, compare and print it without floating-point arithmetic.
#[derive(PartialEq, PartialOrd, Debug)]
pub enum Atom {
    S(String),
    I(i64),
    F(String),
}

/// The model of an [`Atom`]: strings and float literals as character
/// sequences.
pub enum AtomV {
    S(Seq<char>),
    I(i64),
    F(Seq<char>),
}

/// An s-expression is either an atom or a list of s-expressions. This is
/// similar to the data format used by lisp.
#[derive(PartialEq, PartialOrd, Debug)]
pub enum Sexp {
    Atom(Atom),
    List(Vec<Sexp>),
}

/// The model of a [`Sexp`].
pub enum SexpV {
    Atom(AtomV),
    List(Seq<SexpV>),
}

impl Atom {
    /// The model of this atom.
    pub open spec fn view(&self) -> AtomV {
        match self {
            Atom::S(s) => AtomV::S(s@),
            Atom::I(i) => AtomV::I(*i),
            Atom::F(t) => AtomV::F(t@),
        }
    }

    /// Returns true if this atom is a string.
    pub fn is_string(&self) -> (b: bool)
        ensures
            b == (self@ is S),
    {
        match self {
            Atom::S(_) => true,
            _ => false,
        }
    }

    /// Returns true if this atom is an integer.
    pub fn is_int(&self) -> (b: bool)
        ensures
            b == (self@ is I),
    {
        match self {
            Atom::I(_) => true,
            _ => false,
        }
    }

    /// Returns true if this atom is a float.
    pub fn is_float(&self) -> (b: bool)
        ensures
            b == (self@ is F),
    {
        match self {
            Atom::F(_) => true,
            _ => false,
        }
    }

    /// Return the string contained in this atom; the atom must be a string.
    pub fn string(&self) -> (r: &str)
        requires
            self@ is S,
        ensures
            self@ == AtomV::S(r@),
    {
        match self {
            Atom::S(s) => s.as_str(),
            _ => vstd::pervasive::unreached(),
        }
    }

    /// Try to return the string contained in this atom, or None if it is not a
    /// string.
    pub fn try_string(&self) -> (r: Option<&str>)
        ensures
            match self@ {
                AtomV::S(s) => r is Some && r->0@ == s,
                _ => r is None,
            },
    {
        match self {
            Atom::S(s) => Some(s.as_str()),
            _ => None,
        }
    }

    /// Consume this atom and return its string, or None if it is not a string.
    pub fn into_string(self) -> (r: Option<String>)
        ensures
            match self@ {
                AtomV::S(s) => r is Some && r->0@ == s,
                _ => r is None,
            },
    {
        match self {
            Atom::S(s) => Some(s),
            _ => None,
        }
    }

    /// Return the integer contained in this atom; the atom must be an integer.
    pub fn integer(&self) -> (r: i64)
        requires
            self@ is I,
        ensures
            self@ == AtomV::I(r),
    {
        match self {
            Atom::I(i) => *i,
            _ => vstd::pervasive::unreached(),
        }
    }

    /// Try to return the integer contained in this atom, or None if it is not an
    /// integer.
    pub fn try_int(&self) -> (r: Option<i64>)
        ensures
            match self@ {
                AtomV::I(i) => r == Some(i),
                _ => r is None,
            },
    {
        match self {
            Atom::I(i) => Some(*i),
            _ => None,
        }
    }

    /// Consume this atom and return its integer, or None if it is not an
    /// integer.
    pub fn into_int(self) -> (r: Option<i64>)
        ensures
            match self@ {
                AtomV::I(i) => r == Some(i),
                _ => r is None,
            },
    {
        match self {
            Atom::I(i) => Some(i),
            _ => None,
        }
    }

    /// A copy of this atom with the same model.
    pub fn deep_copy(&self) -> (r: Atom)
        ensures
            r@ == self@,
    {
        match self {
            Atom::S(s) => Atom::S(s.clone()),
            Atom::I(i) => Atom::I(*i),
            Atom::F(t) => Atom::F(t.clone()),
        }
    }
}

/// The models of a sequence of s-expressions.
pub open spec fn views(xs: Seq<Sexp>) -> Seq<SexpV> {
    Seq::new(xs.len(), |i: int| xs[i]@)
}

/// The model of a list is the list of the models of its items.
pub proof fn lemma_list_view(v: Vec<Sexp>)
    ensures
        Sexp::List(v)@ == SexpV::List(views(v@)),
{
    let s = Sexp::List(v);
    assert(s@->List_0 =~= views(v@));
}

impl Sexp {
    /// The model of this s-expression.
    pub open spec fn view(&self) -> SexpV
        decreases self,
    {
        match self {
            Sexp::Atom(a) => SexpV::Atom(a@),
            Sexp::List(v) => SexpV::List(
                Seq::new(
                    v@.len(),
                    |i: int|
                        if 0 <= i < v@.len() {
                            v@[i].view()
                        } else {
                            SexpV::List(Seq::empty())
                        },
                ),
            ),
        }
    }

    /// Returns true if this s-expression is an atom.
    pub fn is_atom(&self) -> (b: bool)
        ensures
            b == (self@ is Atom),
    {
        match self {
            Sexp::Atom(_) => true,
            _ => false,
        }
    }

    /// Returns true if this s-expression is a list.
    pub fn is_list(&self) -> (b: bool)
        ensures
            b == (self@ is List),
    {
        match self {
            Sexp::List(_) => true,
            _ => false,
        }
    }

    /// Return the atom contained in this s-expression; it must be an atom.
    pub fn atom(&self) -> (r: &Atom)
        requires
            self@ is Atom,
        ensures
            self@ == SexpV::Atom(r@),
    {
        match self {
            Sexp::Atom(a) => a,
            Sexp::List(_) => vstd::pervasive::unreached(),
        }
    }

    /// Try to return the atom contained in this s-expression, or None if it is a
    /// list.
    pub fn try_atom(&self) -> (r: Option<&Atom>)
        ensures
            match self@ {
                SexpV::Atom(a) => r is Some && r->0@ == a,
                _ => r is None,
            },
    {
        match self {
            Sexp::Atom(a) => Some(a),
            _ => None,
        }
    }

    /// Consume this s-expression and return its atom, or None if it is a list.
    pub fn into_atom(self) -> (r: Option<Atom>)
        ensures
            match self@ {
                SexpV::Atom(a) => r is Some && r->0@ == a,
                _ => r is None,
            },
    {
        match self {
            Sexp::Atom(a) => Some(a),
            _ => None,
        }
    }

    /// Return the list contained in this s-expression; it must be a list.
    pub fn list(&self) -> (r: &Vec<Sexp>)
        requires
            self@ is List,
        ensures
            self@ == SexpV::List(views(r@)),
    {
        match self {
            Sexp::List(l) => {
                proof {
                    lemma_list_view(*l);
                }
                l
            },
            Sexp::Atom(_) => vstd::pervasive::unreached(),
        }
    }

    /// Try to return the list contained in this s-expression, or None if it is an
    /// atom.
    pub fn try_list(&self) -> (r: Option<&Vec<Sexp>>)
        ensures
            match self@ {
                SexpV::List(xs) => r is Some && views(r->0@) == xs,
                _ => r is None,
            },
    {
        match self {
            Sexp::List(l) => {
                proof {
                    lemma_list_view(*l);
                }
                Some(l)
            },
            _ => None,
        }
    }

    /// Consume this s-expression and return its list, or None if it is an atom.
    pub fn into_list(self) -> (r: Option<Vec<Sexp>>)
        ensures
            match self@ {
                SexpV::List(xs) => r is Some && views(r->0@) == xs,
                _ => r is None,
            },
    {
        match self {
            Sexp::List(l) => {
                proof {
                    lemma_list_view(l);
                }
                Some(l)
            },
            _ => None,
        }
    }

    /// A copy of this s-expression with the same model.
    #[verifier::loop_isolation(false)]
    pub fn deep_copy(&self) -> (r: Sexp)
        ensures
            r@ == self@,
        decreases self,
    {
        match self {
            Sexp::Atom(a) => Sexp::Atom(a.deep_copy()),
            Sexp::List(v) => {
                let mut out: Vec<Sexp> = Vec::new();
                let mut i: usize = 0;
                while i < v.len()
                    invariant
                        i <= v@.len(),
                        out@.len() == i,
                        views(out@) == views(v@).take(i as int),
                    decreases v.len() - i,
                {
                    assert(decreases_to!(*self => self->List_0));
                    assert(decreases_to!(v => v@));
                    assert(decreases_to!(v@ => v@[i as int]));
                    let c = v[i].deep_copy();
                    let ghost before = out@;
                    out.push(c);
                    assert(before.len() == i);
                    assert(out@ == before.push(c));
                    assert forall|j: int| 0 <= j <= i implies views(out@)[j] == views(v@)[j] by {
                        if j < i {
                            assert(out@[j] == before[j]);
                            assert(views(before)[j] == views(v@).take(i as int)[j]);
                        }
                    }
                    i = i + 1;
                    assert(views(out@) =~= views(v@).take(i as int));
                }
                assert(views(v@).take(v@.len() as int) =~= views(v@));
                proof {
                    lemma_list_view(*v);
                }
                let r = Sexp::List(out);
                proof {
                    lemma_list_view(out);
                }
                r
            },
        }
    }
}

impl Clone for Atom {
    /// A copy with the same model.
    fn clone(&self) -> (r: Atom)
        ensures
            r@ == self@,
    {
        self.deep_copy()
    }
}

impl Clone for Sexp {
    /// A copy with the same model.
    fn clone(&self) -> (r: Sexp)
        ensures
            r@ == self@,
    {
        self.deep_copy()
    }
}

/// Constructs an atomic s-expression from a string.
pub fn atom_s(s: &str) -> (r: Sexp)
    ensures
        r@ == SexpV::Atom(AtomV::S(s@)),
{
    Sexp::Atom(Atom::S(s.to_owned()))
}

/// Constructs an atomic s-expression from an int.
pub fn atom_i(i: i64) -> (r: Sexp)
    ensures
        r@ == SexpV::Atom(AtomV::I(i)),
{
    Sexp::Atom(Atom::I(i))
}

/// Constructs a list s-expression given a slice of s-expressions.
pub fn list(xs: &[Sexp]) -> (r: Sexp)
    ensures
        r@ == SexpV::List(views(xs@)),
{
    let mut out: Vec<Sexp> = Vec::new();
    let mut i: usize = 0;
    while i < xs.len()
        invariant
            i <= xs@.len(),
            out@.len() == i,
            views(out@) == views(xs@).take(i as int),
        decreases xs.len() - i,
    {
        let c = xs[i].deep_copy();
        let ghost before = out@;
        out.push(c);
        assert(before.len() == i);
        assert(out@ == before.push(c));
        assert forall|j: int| 0 <= j <= i implies views(out@)[j] == views(xs@)[j] by {
            if j < i {
                assert(out@[j] == before[j]);
                assert(views(before)[j] == views(xs@).take(i as int)[j]);
            }
        }
        i = i + 1;
        assert(views(out@) =~= views(xs@).take(i as int));
    }
    assert(views(xs@).take(xs@.len() as int) =~= views(xs@));
    let r = Sexp::List(out);
    proof {
        lemma_list_view(out);
    }
    r
}

} // verus!
