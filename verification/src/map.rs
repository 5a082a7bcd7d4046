//! Reading a list of `(key value)` pairs as a map from string keys to
//! s-expressions.
use vstd::prelude::*;
use crate::sexp::Atom;
use crate::sexp::AtomV;
use crate::sexp::Sexp;
use crate::sexp::SexpV;
use crate::sexp::views;
use crate::sexp::lemma_list_view;
use crate::text::chars_of;

verus! {

/// The key-value pairs of a map, in the order of their keys, with no key
/// twice.
pub struct SexpMap {
    entries: Vec<(String, Sexp)>,
}

/// The model of one entry.
pub open spec fn entry_view(e: (String, Sexp)) -> (Seq<char>, SexpV) {
    (e.0@, e.1@)
}

/// The models of the entries.
pub open spec fn entries_view(es: Seq<(String, Sexp)>) -> Seq<(Seq<char>, SexpV)> {
    Seq::new(es.len(), |i: int| entry_view(es[i]))
}

/// `k` is the key of one of the entries `es`.
pub open spec fn has_key(es: Seq<(Seq<char>, SexpV)>, k: Seq<char>) -> bool {
    exists|j: int| 0 <= j < es.len() && (#[trigger] es[j]).0 == k
}

/// No key occurs twice among the entries `es`.
pub open spec fn distinct_keys(es: Seq<(Seq<char>, SexpV)>) -> bool {
    forall|i: int, j: int| 0 <= i < j < es.len() ==> (#[trigger] es[i]).0 != (#[trigger] es[j]).0
}

/// `a` comes before `b` in the order of `String`: character by character
/// by code point, a proper prefix first. (UTF-8 keeps the order of code
/// points, so this is also the order of the strings' bytes.)
pub open spec fn key_lt(a: Seq<char>, b: Seq<char>) -> bool
    decreases a.len(),
{
    if a.len() == 0 {
        b.len() > 0
    } else if b.len() == 0 {
        false
    } else if a[0] != b[0] {
        a[0] < b[0]
    } else {
        key_lt(a.drop_first(), b.drop_first())
    }
}

/// The keys of the entries `es` are in increasing order.
pub open spec fn keys_increasing(es: Seq<(Seq<char>, SexpV)>) -> bool {
    forall|i: int, j: int| 0 <= i < j < es.len() ==> key_lt((#[trigger] es[i]).0, (#[trigger] es[j]).0)
}

/// No key comes before itself.
pub proof fn lemma_key_lt_irreflexive(a: Seq<char>)
    ensures
        !key_lt(a, a),
    decreases a.len(),
{
    if a.len() > 0 {
        lemma_key_lt_irreflexive(a.drop_first());
    }
}

/// Of two different keys, one comes before the other.
pub proof fn lemma_key_lt_total(a: Seq<char>, b: Seq<char>)
    requires
        a != b,
    ensures
        key_lt(a, b) || key_lt(b, a),
    decreases a.len(),
{
    if a.len() > 0 && b.len() > 0 && a[0] == b[0] {
        if a.drop_first() == b.drop_first() {
            assert(a =~= seq![a[0]] + a.drop_first());
            assert(b =~= seq![b[0]] + b.drop_first());
        }
        lemma_key_lt_total(a.drop_first(), b.drop_first());
    } else if a.len() == 0 && b.len() == 0 {
        assert(a =~= b);
    }
}

/// The order of keys is transitive.
pub proof fn lemma_key_lt_transitive(a: Seq<char>, b: Seq<char>, c: Seq<char>)
    requires
        key_lt(a, b),
        key_lt(b, c),
    ensures
        key_lt(a, c),
    decreases a.len(),
{
    if a.len() > 0 && a[0] == b[0] && b[0] == c[0] {
        lemma_key_lt_transitive(a.drop_first(), b.drop_first(), c.drop_first());
    }
}

/// Keys in increasing order are distinct.
pub proof fn lemma_increasing_distinct(es: Seq<(Seq<char>, SexpV)>)
    requires
        keys_increasing(es),
    ensures
        distinct_keys(es),
{
    assert forall|i: int, j: int| 0 <= i < j < es.len() implies (#[trigger] es[i]).0
        != (#[trigger] es[j]).0 by {
        if es[i].0 == es[j].0 {
            lemma_key_lt_irreflexive(es[i].0);
        }
    }
}

/// Whether `a` comes before `b` in the order of `String`.
pub fn key_less(a: &String, b: &String) -> (r: bool)
    ensures
        r == key_lt(a@, b@),
{
    let x = chars_of(a.as_str());
    let y = chars_of(b.as_str());
    let mut i: usize = 0;
    assert(x@.skip(0) =~= x@);
    assert(y@.skip(0) =~= y@);
    while i < x.len() && i < y.len() && x[i] == y[i]
        invariant
            x@ == a@,
            y@ == b@,
            i <= x@.len(),
            i <= y@.len(),
            key_lt(a@, b@) == key_lt(x@.skip(i as int), y@.skip(i as int)),
        decreases x.len() - i,
    {
        assert(x@.skip(i as int).drop_first() =~= x@.skip(i + 1));
        assert(y@.skip(i as int).drop_first() =~= y@.skip(i + 1));
        i = i + 1;
    }
    if i == x.len() {
        i < y.len()
    } else if i == y.len() {
        false
    } else {
        assert(x@.skip(i as int)[0] == x@[i as int]);
        assert(y@.skip(i as int)[0] == y@[i as int]);
        x[i] < y[i]
    }
}

/// The same key-value pairs occur in `a` as in `b`.
pub open spec fn same_pairs(a: Seq<(Seq<char>, SexpV)>, b: Seq<(Seq<char>, SexpV)>) -> bool {
    forall|p: (Seq<char>, SexpV)| a.contains(p) <==> b.contains(p)
}

/// Putting a new key where it belongs keeps the keys in increasing order.
proof fn lemma_insert_increasing(es: Seq<(Seq<char>, SexpV)>, p: int, e: (Seq<char>, SexpV))
    requires
        keys_increasing(es),
        0 <= p <= es.len(),
        !has_key(es, e.0),
        forall|m: int| 0 <= m < p ==> !key_lt(e.0, (#[trigger] es[m]).0),
        p < es.len() ==> key_lt(e.0, es[p].0),
    ensures
        keys_increasing(es.insert(p, e)),
{
    let f = es.insert(p, e);
    assert forall|i: int, j: int| 0 <= i < j < f.len() implies key_lt(
        (#[trigger] f[i]).0,
        (#[trigger] f[j]).0,
    ) by {
        if j < p {
            assert(f[i] == es[i] && f[j] == es[j]);
        } else if j == p {
            assert(f[i] == es[i]);
            assert(f[j] == e);
            if es[i].0 == e.0 {
                assert(has_key(es, e.0));
            }
            lemma_key_lt_total(es[i].0, e.0);
        } else if i < p {
            assert(f[i] == es[i] && f[j] == es[j - 1]);
        } else if i == p {
            assert(f[i] == e && f[j] == es[j - 1]);
            if j - 1 > p {
                lemma_key_lt_transitive(e.0, es[p].0, es[j - 1].0);
            }
        } else {
            assert(f[i] == es[i - 1] && f[j] == es[j - 1]);
        }
    }
}

/// What reading the items `xs` as a map gives.
pub enum MapOutcome {
    /// An item is not a list of two, or repeats a key: the reading stops
    /// the program.
    Refused,
    /// An item's key is not a string atom: there is no map.
    NotStringKey,
    /// The entries, one for each item, in order.
    Entries(Seq<(Seq<char>, SexpV)>),
}

/// Reading the items `xs` as a map, item by item from the first: each must
/// be a list of two whose first element is a string atom not seen before.
pub open spec fn map_outcome(xs: Seq<SexpV>) -> MapOutcome
    decreases xs.len(),
{
    if xs.len() == 0 {
        MapOutcome::Entries(Seq::empty())
    } else {
        match map_outcome(xs.drop_last()) {
            MapOutcome::Entries(es) => match xs.last() {
                SexpV::List(pair) => if pair.len() != 2 {
                    MapOutcome::Refused
                } else {
                    match pair[0] {
                        SexpV::Atom(AtomV::S(k)) => if has_key(es, k) {
                            MapOutcome::Refused
                        } else {
                            MapOutcome::Entries(es.push((k, pair[1])))
                        },
                        _ => MapOutcome::NotStringKey,
                    }
                },
                _ => MapOutcome::Refused,
            },
            other => other,
        }
    }
}

/// Once reading stops without entries, it stays stopped.
proof fn lemma_outcome_prefix(xs: Seq<SexpV>, i: int)
    requires
        0 <= i <= xs.len(),
        !(map_outcome(xs.take(i)) is Entries),
    ensures
        map_outcome(xs) == map_outcome(xs.take(i)),
    decreases xs.len() - i,
{
    if i < xs.len() {
        assert(xs.drop_last().take(i) =~= xs.take(i));
        lemma_outcome_prefix(xs.drop_last(), i);
    } else {
        assert(xs.take(i) =~= xs);
    }
}

/// Two lists of entries in increasing key order that hold the same pairs
/// are the same list: the map's entries are fixed by its pairs.
pub proof fn lemma_ordered_entries_unique(a: Seq<(Seq<char>, SexpV)>, b: Seq<(Seq<char>, SexpV)>)
    requires
        keys_increasing(a),
        keys_increasing(b),
        same_pairs(a, b),
    ensures
        a == b,
    decreases a.len(),
{
    if a.len() == 0 {
        if b.len() > 0 {
            assert(b.contains(b[0]));
        }
        assert(a =~= b);
    } else {
        assert(a.contains(a[0]));
        if b.len() == 0 {
            assert(false);
        }
        assert(b.contains(b[0]));
        let w = choose|m: int| 0 <= m < b.len() && b[m] == a[0];
        let v = choose|m: int| 0 <= m < a.len() && a[m] == b[0];
        if w > 0 {
            assert(key_lt(b[0].0, b[w].0));
            if v > 0 {
                assert(key_lt(a[0].0, a[v].0));
                lemma_key_lt_transitive(a[0].0, b[0].0, a[0].0);
                lemma_key_lt_irreflexive(a[0].0);
            } else {
                lemma_key_lt_irreflexive(b[0].0);
            }
        }
        assert(a[0] == b[0]);
        let a1 = a.drop_first();
        let b1 = b.drop_first();
        assert forall|q: (Seq<char>, SexpV)| a1.contains(q) <==> b1.contains(q) by {
            if a1.contains(q) {
                let i = choose|m: int| 0 <= m < a1.len() && a1[m] == q;
                assert(a[i + 1] == q);
                assert(a.contains(q));
                let k = choose|m: int| 0 <= m < b.len() && b[m] == q;
                if k == 0 {
                    assert(key_lt(a[0].0, a[i + 1].0));
                    lemma_key_lt_irreflexive(a[0].0);
                }
                assert(b1[k - 1] == q);
            }
            if b1.contains(q) {
                let i = choose|m: int| 0 <= m < b1.len() && b1[m] == q;
                assert(b[i + 1] == q);
                assert(b.contains(q));
                let k = choose|m: int| 0 <= m < a.len() && a[m] == q;
                if k == 0 {
                    assert(key_lt(b[0].0, b[i + 1].0));
                    lemma_key_lt_irreflexive(b[0].0);
                }
                assert(a1[k - 1] == q);
            }
        }
        assert forall|i: int, j: int| 0 <= i < j < a1.len() implies key_lt(
            (#[trigger] a1[i]).0,
            (#[trigger] a1[j]).0,
        ) by {
            assert(a1[i] == a[i + 1] && a1[j] == a[j + 1]);
        }
        assert forall|i: int, j: int| 0 <= i < j < b1.len() implies key_lt(
            (#[trigger] b1[i]).0,
            (#[trigger] b1[j]).0,
        ) by {
            assert(b1[i] == b[i + 1] && b1[j] == b[j + 1]);
        }
        lemma_ordered_entries_unique(a1, b1);
        assert(a =~= seq![a[0]] + a1);
        assert(b =~= seq![b[0]] + b1);
    }
}

impl SexpMap {
    #[verifier::type_invariant]
    spec fn keys_in_order(self) -> bool {
        keys_increasing(entries_view(self.entries@))
    }

    /// The entries, in the order of their keys.
    pub closed spec fn view(&self) -> Seq<(Seq<char>, SexpV)> {
        entries_view(self.entries@)
    }

    /// How many entries there are.
    pub fn len(&self) -> (n: usize)
        ensures
            n == self@.len(),
    {
        self.entries.len()
    }

    /// The value stored under `key`, if any.
    pub fn get(&self, key: &str) -> (r: Option<&Sexp>)
        ensures
            match r {
                Some(v) => exists|j: int|
                    0 <= j < self@.len() && (#[trigger] self@[j]).0 == key@ && self@[j].1 == v@,
                None => !has_key(self@, key@),
            },
    {
        proof {
            use_type_invariant(self);
        }
        let wanted = key.to_owned();
        let mut i: usize = 0;
        while i < self.entries.len()
            invariant
                wanted@ == key@,
                i <= self.entries@.len(),
                forall|j: int| 0 <= j < i ==> (#[trigger] self.entries@[j]).0@ != key@,
            decreases self.entries.len() - i,
        {
            if self.entries[i].0 == wanted {
                assert(self@[i as int] == entry_view(self.entries@[i as int]));
                return Some(&self.entries[i].1);
            }
            i = i + 1;
        }
        assert forall|j: int| 0 <= j < self@.len() implies (#[trigger] self@[j]).0 != key@ by {
            assert(self@[j] == entry_view(self.entries@[j]));
        }
        None
    }

    /// Whether some entry has the key `key`.
    pub fn contains_key(&self, key: &str) -> (b: bool)
        ensures
            b == has_key(self@, key@),
    {
        match self.get(key) {
            Some(_) => true,
            None => false,
        }
    }

    /// The entries, in the order of their keys.
    pub fn into_entries(self) -> (r: Vec<(String, Sexp)>)
        ensures
            entries_view(r@) == self@,
            keys_increasing(self@),
    {
        proof {
            use_type_invariant(&self);
        }
        self.entries
    }
}

impl Sexp {
    /// Whether reading this s-expression as a map is refused: it is a list
    /// one of whose items is not a list of two, or repeats an earlier key,
    /// before any item's key is found not to be a string atom.
    #[verifier::loop_isolation(false)]
    pub fn is_map_refused(&self) -> (b: bool)
        ensures
            b == (self@ matches SexpV::List(xs) && map_outcome(xs) is Refused),
    {
        match self {
            Sexp::List(l) => {
                proof {
                    lemma_list_view(*l);
                }
                let ghost xs = views(l@);
                let mut keys: Vec<String> = Vec::new();
                let mut i: usize = 0;
                assert(xs.take(0) =~= Seq::<SexpV>::empty());
                while i < l.len()
                    invariant
                        i <= l@.len(),
                        xs == views(l@),
                        map_outcome(xs.take(i as int)) matches MapOutcome::Entries(es) && es.len()
                            == keys@.len() && forall|m: int|
                            0 <= m < keys@.len() ==> (#[trigger] keys@[m])@ == es[m].0,
                    decreases l.len() - i,
                {
                    let ghost es = map_outcome(xs.take(i as int))->Entries_0;
                    let ghost next = xs.take(i + 1);
                    assert(next.drop_last() =~= xs.take(i as int));
                    assert(next.last() == xs[i as int]);
                    match &l[i] {
                        Sexp::List(pair) => {
                            proof {
                                lemma_list_view(*pair);
                            }
                            if pair.len() != 2 {
                                proof {
                                    lemma_outcome_prefix(xs, i + 1);
                                }
                                return true;
                            }
                            match &pair[0] {
                                Sexp::Atom(Atom::S(k)) => {
                                    let mut j: usize = 0;
                                    while j < keys.len()
                                        invariant
                                            j <= keys@.len(),
                                            forall|m: int| 0 <= m < j ==> (#[trigger] es[m]).0 != k@,
                                        decreases keys.len() - j,
                                    {
                                        if keys[j] == *k {
                                            proof {
                                                assert(keys@[j as int]@ == es[j as int].0);
                                                assert(has_key(es, k@));
                                                lemma_outcome_prefix(xs, i + 1);
                                            }
                                            return true;
                                        }
                                        assert(keys@[j as int]@ == es[j as int].0);
                                        j = j + 1;
                                    }
                                    assert(!has_key(es, k@));
                                    let ghost before = keys@;
                                    keys.push(k.clone());
                                    assert(forall|m: int|
                                        0 <= m < before.len() ==> keys@[m] == before[m]);
                                },
                                _ => {
                                    proof {
                                        lemma_outcome_prefix(xs, i + 1);
                                    }
                                    return false;
                                },
                            }
                        },
                        Sexp::Atom(_) => {
                            proof {
                                lemma_outcome_prefix(xs, i + 1);
                            }
                            return true;
                        },
                    }
                    i = i + 1;
                }
                assert(xs.take(l@.len() as int) =~= xs);
                false
            },
            Sexp::Atom(_) => false,
        }
    }

    /// Turn s-expression list into a map from key value pairs.
    ///
    /// Each item of the list must be a list of two whose first element,
    /// the key, is a string atom not used by an earlier item; `None` if
    /// this s-expression is an atom, or if, before any item breaks the
    /// other rules, an item's key is not a string atom. The map holds the
    /// items' pairs, ordered by key, each key once.
    #[verifier::loop_isolation(false)]
    pub fn into_map(self) -> (r: Option<SexpMap>)
        requires
            !(self@ matches SexpV::List(xs) && map_outcome(xs) is Refused),
        ensures
            match self@ {
                SexpV::Atom(_) => r is None,
                SexpV::List(xs) => match map_outcome(xs) {
                    MapOutcome::Entries(es) => r matches Some(m) && same_pairs(m@, es)
                        && keys_increasing(m@) && distinct_keys(m@),
                    _ => r is None,
                },
            },
    {
        match self {
            Sexp::List(l) => {
                proof {
                    lemma_list_view(l);
                }
                let ghost xs = views(l@);
                let mut l = l;
                let mut entries: Vec<(String, Sexp)> = Vec::new();
                let ghost mut idx: int = 0;
                assert(xs.take(0) =~= Seq::<SexpV>::empty());
                assert(entries_view(entries@) =~= Seq::<(Seq<char>, SexpV)>::empty());
                assert(xs.skip(0) =~= xs);
                assert(same_pairs(entries_view(entries@), Seq::<(Seq<char>, SexpV)>::empty()));
                while l.len() > 0
                    invariant
                        0 <= idx <= xs.len(),
                        views(l@) == xs.skip(idx),
                        map_outcome(xs.take(idx)) matches MapOutcome::Entries(es) && same_pairs(
                            entries_view(entries@),
                            es,
                        ),
                        keys_increasing(entries_view(entries@)),
                        !(map_outcome(xs) is Refused),
                    decreases l.len(),
                {
                    let ghost view = entries_view(entries@);
                    let ghost es = map_outcome(xs.take(idx))->Entries_0;
                    let ghost old_l = l@;
                    assert(views(old_l).len() == old_l.len());
                    assert(idx < xs.len());
                    assert(views(old_l)[0] == old_l[0]@);
                    assert(xs.skip(idx)[0] == xs[idx]);
                    let sub_l = l.remove(0);
                    assert(l@ == old_l.remove(0));
                    assert(sub_l@ == xs[idx]);
                    assert forall|m: int| 0 <= m < views(l@).len() implies views(l@)[m] == xs.skip(
                        idx + 1,
                    )[m] by {
                        assert(l@[m] == old_l[m + 1]);
                        assert(views(old_l)[m + 1] == xs.skip(idx)[m + 1]);
                    }
                    assert(views(l@) =~= xs.skip(idx + 1));
                    let ghost next = xs.take(idx + 1);
                    assert(next.drop_last() =~= xs.take(idx));
                    assert(next.last() == xs[idx]);
                    match sub_l {
                        Sexp::List(pair) => {
                            proof {
                                lemma_list_view(pair);
                            }
                            let mut pair = pair;
                            if pair.len() != 2 {
                                proof {
                                    lemma_outcome_prefix(xs, idx + 1);
                                }
                                return vstd::pervasive::unreached();
                            }
                            let ghost pv = views(pair@);
                            let value = pair.remove(1);
                            let key = pair.remove(0);
                            assert(key@ == pv[0]);
                            assert(value@ == pv[1]);
                            match key {
                                Sexp::Atom(Atom::S(k)) => {
                                    let mut j: usize = 0;
                                    while j < entries.len()
                                        invariant
                                            j <= entries@.len(),
                                            view == entries_view(entries@),
                                            forall|m: int| 0 <= m < j ==> (#[trigger] view[m]).0 != k@,
                                        decreases entries.len() - j,
                                    {
                                        if entries[j].0 == k {
                                            proof {
                                                assert(view[j as int].0 == k@);
                                                assert(view.contains(view[j as int]));
                                                let w = choose|m: int| 0 <= m < es.len() && es[m] == view[j as int];
                                                assert(es[w].0 == k@);
                                                assert(has_key(es, k@));
                                                lemma_outcome_prefix(xs, idx + 1);
                                            }
                                            return vstd::pervasive::unreached();
                                        }
                                        assert(view[j as int] == entry_view(entries@[j as int]));
                                        j = j + 1;
                                    }
                                    assert(!has_key(view, k@));
                                    assert(!has_key(es, k@)) by {
                                        if has_key(es, k@) {
                                            let w = choose|m: int| 0 <= m < es.len() && (#[trigger] es[m]).0 == k@;
                                            assert(es.contains(es[w]));
                                            assert(view.contains(es[w]));
                                            let v = choose|m: int| 0 <= m < view.len() && view[m] == es[w];
                                            assert(view[v].0 == k@);
                                        }
                                    }
                                    let mut p: usize = 0;
                                    while p < entries.len() && !key_less(&k, &entries[p].0)
                                        invariant
                                            p <= entries@.len(),
                                            view == entries_view(entries@),
                                            forall|m: int| 0 <= m < p ==> !key_lt(k@, (#[trigger] view[m]).0),
                                        decreases entries.len() - p,
                                    {
                                        assert(view[p as int] == entry_view(entries@[p as int]));
                                        p = p + 1;
                                    }
                                    proof {
                                        if p < entries@.len() {
                                            assert(view[p as int] == entry_view(entries@[p as int]));
                                        }
                                    }
                                    let ghost e = (k@, pv[1]);
                                    entries.insert(p, (k, value));
                                    assert(entries_view(entries@) =~= view.insert(p as int, e));
                                    proof {
                                        lemma_insert_increasing(view, p as int, e);
                                        let nv = view.insert(p as int, e);
                                        let ne = es.push(e);
                                        assert forall|q: (Seq<char>, SexpV)| nv.contains(q) <==> ne.contains(q) by {
                                            if nv.contains(q) {
                                                let m = choose|m: int| 0 <= m < nv.len() && nv[m] == q;
                                                if m < p {
                                                    assert(view[m] == q);
                                                    assert(view.contains(q));
                                                    let w = choose|w: int| 0 <= w < es.len() && es[w] == q;
                                                    assert(ne[w] == q);
                                                } else if m == p {
                                                    assert(ne[es.len() as int] == q);
                                                } else {
                                                    assert(view[m - 1] == q);
                                                    assert(view.contains(q));
                                                    let w = choose|w: int| 0 <= w < es.len() && es[w] == q;
                                                    assert(ne[w] == q);
                                                }
                                            }
                                            if ne.contains(q) {
                                                let m = choose|m: int| 0 <= m < ne.len() && ne[m] == q;
                                                if m < es.len() {
                                                    assert(es[m] == q);
                                                    assert(es.contains(q));
                                                    let w = choose|w: int| 0 <= w < view.len() && view[w] == q;
                                                    if w < p {
                                                        assert(nv[w] == q);
                                                    } else {
                                                        assert(nv[w + 1] == q);
                                                    }
                                                } else {
                                                    assert(nv[p as int] == q);
                                                }
                                            }
                                        }
                                    }
                                },
                                _ => {
                                    proof {
                                        lemma_outcome_prefix(xs, idx + 1);
                                    }
                                    return None;
                                },
                            }
                        },
                        Sexp::Atom(_) => {
                            proof {
                                lemma_outcome_prefix(xs, idx + 1);
                            }
                            return vstd::pervasive::unreached();
                        },
                    }
                    proof {
                        idx = idx + 1;
                    }
                }
                assert(xs.take(idx) =~= xs);
                proof {
                    lemma_increasing_distinct(entries_view(entries@));
                }
                Some(SexpMap { entries })
            },
            Sexp::Atom(_) => None,
        }
    }
}

} // verus!
