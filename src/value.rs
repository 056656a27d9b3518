use vstd::prelude::*;

use crate::keys::key_lt;

verus! {

broadcast use {
    vstd::std_specs::vec::axiom_vec_index_decreases,
    vstd::std_specs::vec::axiom_vec_decreases_to_view,
    vstd::seq::axiom_seq_index_decreases,
    vstd::seq::axiom_seq_subrange_decreases,
};

/// Any value: null, a boolean, a number, a string, a list or a map.
///
/// A number is held as the bit pattern of an IEEE-754 binary64 double.
/// A map is held as its entries in ascending key order, each key once:
/// `Value::map` builds it so, and `wf` states it of a whole tree.
#[derive(Debug)]
pub enum Value {
    /// The absence of a value.
    Null,
    /// `true` or `false`.
    Boolean(bool),
    /// A number, as the bits of a 64-bit double.
    Number(u64),
    /// A string of characters.
    String(String),
    /// A sequence of values.
    List(Vec<Value>),
    /// A mapping from strings to values, in ascending key order.
    Mapping(Vec<(String, Value)>),
}

/// The mathematical content of a `Value`.
pub enum ValueView {
    Null,
    Boolean(bool),
    Number(u64),
    Text(Seq<char>),
    List(Seq<ValueView>),
    Mapping(Seq<(Seq<char>, ValueView)>),
}

/// The variant of a value.
#[derive(PartialEq, Eq, Structural, Clone, Copy, Debug)]
pub enum ValueTy {
    Null,
    Boolean,
    Number,
    String,
    List,
    Mapping,
}

/// Keys in strictly ascending order, so each key occurs once.
pub open spec fn keys_sorted(es: Seq<(Seq<char>, ValueView)>) -> bool {
    forall|i: int, j: int| 0 <= i < j < es.len() ==> key_lt(#[trigger] es[i].0, #[trigger] es[j].0)
}

impl ValueView {
    /// Every map in the tree has its keys in ascending order.
    pub open spec fn wf(self) -> bool
        decreases self,
    {
        match self {
            ValueView::List(xs) => forall|i: int| 0 <= i < xs.len() ==> (#[trigger] xs[i]).wf(),
            ValueView::Mapping(es) => keys_sorted(es) && forall|i: int|
                0 <= i < es.len() ==> (#[trigger] es[i]).1.wf(),
            _ => true,
        }
    }

    /// The variant of this value.
    pub open spec fn ty(self) -> ValueTy {
        match self {
            ValueView::Null => ValueTy::Null,
            ValueView::Boolean(_) => ValueTy::Boolean,
            ValueView::Number(_) => ValueTy::Number,
            ValueView::Text(_) => ValueTy::String,
            ValueView::List(_) => ValueTy::List,
            ValueView::Mapping(_) => ValueTy::Mapping,
        }
    }
}

/// The content of a value.
pub open spec fn view_of(v: Value) -> ValueView
    decreases v,
{
    match v {
        Value::Null => ValueView::Null,
        Value::Boolean(b) => ValueView::Boolean(b),
        Value::Number(n) => ValueView::Number(n),
        Value::String(s) => ValueView::Text(s@),
        Value::List(xs) => ValueView::List(list_view(xs@)),
        Value::Mapping(es) => ValueView::Mapping(entries_view(es@)),
    }
}

/// The contents of a sequence of values, element by element.
pub open spec fn list_view(xs: Seq<Value>) -> Seq<ValueView>
    decreases xs,
{
    if xs.len() == 0 {
        Seq::empty()
    } else {
        list_view(xs.subrange(0, xs.len() - 1)).push(view_of(xs[xs.len() - 1]))
    }
}

/// The contents of a sequence of entries, entry by entry.
pub open spec fn entries_view(es: Seq<(String, Value)>) -> Seq<(Seq<char>, ValueView)>
    decreases es,
{
    if es.len() == 0 {
        Seq::empty()
    } else {
        entries_view(es.subrange(0, es.len() - 1)).push(
            (es[es.len() - 1].0@, view_of(es[es.len() - 1].1)),
        )
    }
}

impl View for Value {
    type V = ValueView;

    open spec fn view(&self) -> ValueView {
        view_of(*self)
    }
}

/// The mapping that a sequence of key/value pairs denotes when a later pair
/// overrides an earlier one with the same key.
pub open spec fn to_map(es: Seq<(Seq<char>, ValueView)>) -> Map<Seq<char>, ValueView>
    decreases es.len(),
{
    if es.len() == 0 {
        Map::empty()
    } else {
        to_map(es.drop_last()).insert(es.last().0, es.last().1)
    }
}

pub proof fn lemma_list_view(xs: Seq<Value>)
    ensures
        list_view(xs).len() == xs.len(),
        forall|i: int| 0 <= i < xs.len() ==> #[trigger] list_view(xs)[i] == xs[i]@,
    decreases xs.len(),
{
    if xs.len() > 0 {
        let d = xs.subrange(0, xs.len() - 1);
        lemma_list_view(d);
        assert forall|i: int| 0 <= i < xs.len() implies #[trigger] list_view(xs)[i] == xs[i]@ by {
            if i < xs.len() - 1 {
                assert(d[i] == xs[i]);
            }
        }
    }
}

pub proof fn lemma_entries_view(es: Seq<(String, Value)>)
    ensures
        entries_view(es).len() == es.len(),
        forall|i: int|
            0 <= i < es.len() ==> #[trigger] entries_view(es)[i] == (es[i].0@, es[i].1@),
    decreases es.len(),
{
    if es.len() > 0 {
        let d = es.subrange(0, es.len() - 1);
        lemma_entries_view(d);
        assert forall|i: int| 0 <= i < es.len() implies #[trigger] entries_view(es)[i] == (
            es[i].0@,
            es[i].1@,
        ) by {
            if i < es.len() - 1 {
                assert(d[i] == es[i]);
            }
        }
    }
}

proof fn lemma_to_map_update(es: Seq<(Seq<char>, ValueView)>, i: int, v: ValueView)
    requires
        keys_sorted(es),
        0 <= i < es.len(),
    ensures
        to_map(es.update(i, (es[i].0, v))) == to_map(es).insert(es[i].0, v),
    decreases es.len(),
{
    let k = es[i].0;
    let u = es.update(i, (k, v));
    if i == es.len() - 1 {
        assert(u.drop_last() =~= es.drop_last());
        assert(to_map(u) =~= to_map(es).insert(k, v));
    } else {
        let d = es.drop_last();
        assert(keys_sorted(d));
        lemma_to_map_update(d, i, v);
        assert(u.drop_last() =~= d.update(i, (k, v)));
        crate::keys::lemma_key_lt_irreflexive(k);
        assert(key_lt(es[i].0, es[es.len() - 1].0));
        assert(to_map(u) =~= to_map(es).insert(k, v));
    }
}

proof fn lemma_to_map_insert(es: Seq<(Seq<char>, ValueView)>, i: int, k: Seq<char>, v: ValueView)
    requires
        0 <= i <= es.len(),
        forall|j: int| 0 <= j < es.len() ==> es[j].0 != k,
    ensures
        to_map(es.insert(i, (k, v))) == to_map(es).insert(k, v),
    decreases es.len(),
{
    let u = es.insert(i, (k, v));
    if i == es.len() {
        assert(u.drop_last() =~= es);
    } else {
        let d = es.drop_last();
        lemma_to_map_insert(d, i, k, v);
        assert(u.drop_last() =~= d.insert(i, (k, v)));
        assert(to_map(u) =~= to_map(es).insert(k, v));
    }
}

impl Value {
    /// Every map in the tree has its keys in ascending order.
    pub open spec fn wf(&self) -> bool {
        self@.wf()
    }

    /// The variant of this value.
    pub fn ty(&self) -> (r: ValueTy)
        ensures
            r == self@.ty(),
    {
        match self {
            Value::Null => ValueTy::Null,
            Value::Boolean(_) => ValueTy::Boolean,
            Value::Number(_) => ValueTy::Number,
            Value::String(_) => ValueTy::String,
            Value::List(_) => ValueTy::List,
            Value::Mapping(_) => ValueTy::Mapping,
        }
    }

    /// Returns `true` if this `Value` represents a null value.
    pub fn is_null(&self) -> (r: bool)
        ensures
            r == self@ is Null,
    {
        matches!(self, Value::Null)
    }

    /// Returns `true` if this `Value` represents a boolean.
    pub fn is_boolean(&self) -> (r: bool)
        ensures
            r == self@ is Boolean,
    {
        matches!(self, Value::Boolean(_))
    }

    /// Returns `true` if this `Value` represents a number.
    pub fn is_number(&self) -> (r: bool)
        ensures
            r == self@ is Number,
    {
        matches!(self, Value::Number(_))
    }

    /// Returns `true` if this `Value` represents a string.
    pub fn is_string(&self) -> (r: bool)
        ensures
            r == self@ is Text,
    {
        matches!(self, Value::String(_))
    }

    /// Returns `true` if this `Value` represents a list.
    pub fn is_list(&self) -> (r: bool)
        ensures
            r == self@ is List,
    {
        matches!(self, Value::List(_))
    }

    /// Returns `true` if this `Value` represents a map.
    pub fn is_map(&self) -> (r: bool)
        ensures
            r == self@ is Mapping,
    {
        matches!(self, Value::Mapping(_))
    }

    /// Returns `Some` if this `Value` represents a null value, otherwise returns `None`.
    pub fn as_null(&self) -> (r: Option<()>)
        ensures
            r is Some == self@ is Null,
    {
        match self {
            Value::Null => Some(()),
            _ => None,
        }
    }

    /// Returns the underlying boolean, if that's what this `Value` represents.
    pub fn as_boolean(&self) -> (r: Option<bool>)
        ensures
            r == (match self@ {
                ValueView::Boolean(b) => Some(b),
                _ => None,
            }),
    {
        match self {
            Value::Boolean(v) => Some(*v),
            _ => None,
        }
    }

    /// Returns the bits of the underlying number, if that's what this `Value` represents.
    pub fn as_number(&self) -> (r: Option<u64>)
        ensures
            r == (match self@ {
                ValueView::Number(n) => Some(n),
                _ => None,
            }),
    {
        match self {
            Value::Number(v) => Some(*v),
            _ => None,
        }
    }

    /// Returns a reference to the underlying string, if that's what this `Value` represents.
    pub fn as_str(&self) -> (r: Option<&str>)
        ensures
            r is Some == self@ is Text,
            r is Some ==> r->0@ == self@->Text_0,
    {
        match self {
            Value::String(v) => Some(v.as_str()),
            _ => None,
        }
    }

    /// Returns a reference to the underlying list, if that's what this `Value` represents.
    pub fn as_slice(&self) -> (r: Option<&[Value]>)
        ensures
            r is Some == self@ is List,
            r is Some ==> list_view(r->0@) == self@->List_0,
    {
        match self {
            Value::List(v) => {
                Some(v.as_slice())
            },
            _ => None,
        }
    }

    /// Returns a reference to the underlying entries in ascending key order, if
    /// this `Value` represents a map.
    pub fn as_map(&self) -> (r: Option<&Vec<(String, Value)>>)
        ensures
            r is Some == self@ is Mapping,
            r is Some ==> entries_view(r->0@) == self@->Mapping_0,
    {
        match self {
            Value::Mapping(v) => {
                Some(v)
            },
            _ => None,
        }
    }

    /// Consumes the `Value`, returning the contained string if it represented one.
    pub fn into_string(self) -> (r: Option<String>)
        ensures
            r is Some == self@ is Text,
            r is Some ==> r->0@ == self@->Text_0,
    {
        match self {
            Value::String(v) => Some(v),
            _ => None,
        }
    }

    /// Consumes the `Value`, returning the contained list if it represented one.
    pub fn into_list(self) -> (r: Option<Vec<Value>>)
        ensures
            r is Some == self@ is List,
            r is Some ==> list_view(r->0@) == self@->List_0,
    {
        match self {
            Value::List(v) => {
                Some(v)
            },
            _ => None,
        }
    }

    /// Consumes the `Value`, returning the contained entries, in ascending key
    /// order, if it represented a map.
    pub fn into_map(self) -> (r: Option<Vec<(String, Value)>>)
        ensures
            r is Some == self@ is Mapping,
            r is Some ==> entries_view(r->0@) == self@->Mapping_0,
    {
        match self {
            Value::Mapping(v) => {
                Some(v)
            },
            _ => None,
        }
    }
}

/// In entries with ascending keys, each entry's key maps to its value, and
/// every key of the mapping is the key of some entry.
pub proof fn lemma_to_map_sorted(es: Seq<(Seq<char>, ValueView)>)
    requires
        keys_sorted(es),
    ensures
        forall|i: int|
            0 <= i < es.len() ==> #[trigger] to_map(es).contains_key(es[i].0) && to_map(es)[es[i].0]
                == es[i].1,
        forall|k: Seq<char>| #[trigger]
            to_map(es).contains_key(k) ==> exists|i: int| 0 <= i < es.len() && es[i].0 == k,
    decreases es.len(),
{
    if es.len() > 0 {
        let d = es.drop_last();
        assert(keys_sorted(d));
        lemma_to_map_sorted(d);
        let l = es.last();
        assert forall|i: int| 0 <= i < es.len() implies #[trigger] to_map(es).contains_key(es[i].0)
            && to_map(es)[es[i].0] == es[i].1 by {
            assert(to_map(es) == to_map(d).insert(l.0, l.1));
            if i < es.len() - 1 {
                crate::keys::lemma_key_lt_irreflexive(es[i].0);
                assert(key_lt(es[i].0, l.0));
                assert(es[i].0 != l.0);
                assert(d[i] == es[i]);
                assert(to_map(d).contains_key(d[i].0));
            }
        }
        assert forall|k: Seq<char>| #[trigger] to_map(es).contains_key(k) implies exists|i: int|
            0 <= i < es.len() && es[i].0 == k by {
            if k != l.0 {
                assert(to_map(d).contains_key(k));
                let i = choose|i: int| 0 <= i < d.len() && d[i].0 == k;
                assert(es[i] == d[i]);
            } else {
                assert(es[es.len() - 1].0 == k);
            }
        }
    }
}

/// Entries in ascending key order are determined by the mapping they denote.
pub proof fn lemma_sorted_unique(a: Seq<(Seq<char>, ValueView)>, b: Seq<(Seq<char>, ValueView)>)
    requires
        keys_sorted(a),
        keys_sorted(b),
        to_map(a) == to_map(b),
    ensures
        a == b,
    decreases a.len() + b.len(),
{
    lemma_to_map_sorted(a);
    lemma_to_map_sorted(b);
    if a.len() == 0 || b.len() == 0 {
        if a.len() > 0 {
            assert(to_map(a).contains_key(a[0].0));
        }
        if b.len() > 0 {
            assert(to_map(b).contains_key(b[0].0));
        }
        assert(a =~= b);
    } else {
        let la = a.last();
        let lb = b.last();
        assert(to_map(a).contains_key(a[a.len() - 1].0));
        assert(to_map(b).contains_key(b[b.len() - 1].0));
        let i = choose|i: int| 0 <= i < b.len() && b[i].0 == la.0;
        let j = choose|j: int| 0 <= j < a.len() && a[j].0 == lb.0;
        if la.0 != lb.0 {
            if i < b.len() - 1 {
                assert(key_lt(b[i].0, lb.0));
            }
            if j < a.len() - 1 {
                assert(key_lt(a[j].0, la.0));
            }
            crate::keys::lemma_key_lt_irreflexive(la.0);
            if i < b.len() - 1 && j < a.len() - 1 {
                crate::keys::lemma_key_lt_transitive(la.0, lb.0, la.0);
            }
        }
        assert(la.0 == lb.0);
        assert(la.1 == to_map(a)[la.0]);
        assert(la == lb);
        let da = a.drop_last();
        let db = b.drop_last();
        assert(keys_sorted(da));
        assert(keys_sorted(db));
        lemma_to_map_sorted(da);
        lemma_to_map_sorted(db);
        assert(!to_map(da).contains_key(la.0)) by {
            if to_map(da).contains_key(la.0) {
                let t = choose|t: int| 0 <= t < da.len() && da[t].0 == la.0;
                assert(key_lt(a[t].0, la.0));
                crate::keys::lemma_key_lt_irreflexive(la.0);
            }
        }
        assert(!to_map(db).contains_key(la.0)) by {
            if to_map(db).contains_key(la.0) {
                let t = choose|t: int| 0 <= t < db.len() && db[t].0 == la.0;
                assert(key_lt(b[t].0, lb.0));
                crate::keys::lemma_key_lt_irreflexive(la.0);
            }
        }
        assert(to_map(da) =~= to_map(a).remove(la.0));
        assert(to_map(db) =~= to_map(b).remove(la.0));
        lemma_sorted_unique(da, db);
        assert(a =~= da.push(la));
        assert(b =~= db.push(lb));
    }
}

proof fn lemma_entries_view_set(es: Seq<(String, Value)>, i: int, e: (String, Value))
    requires
        0 <= i < es.len(),
    ensures
        entries_view(es.update(i, e)) == entries_view(es).update(i, (e.0@, e.1@)),
{
    lemma_entries_view(es);
    lemma_entries_view(es.update(i, e));
    assert(entries_view(es.update(i, e)) =~= entries_view(es).update(i, (e.0@, e.1@)));
}

proof fn lemma_entries_view_insert(es: Seq<(String, Value)>, i: int, e: (String, Value))
    requires
        0 <= i <= es.len(),
    ensures
        entries_view(es.insert(i, e)) == entries_view(es).insert(i, (e.0@, e.1@)),
{
    lemma_entries_view(es);
    lemma_entries_view(es.insert(i, e));
    assert(entries_view(es.insert(i, e)) =~= entries_view(es).insert(i, (e.0@, e.1@)));
}

/// Inserts one entry into entries kept in ascending key order, replacing the
/// value of an equal key.
fn insert_sorted(r: &mut Vec<(String, Value)>, k: String, v: Value)
    requires
        keys_sorted(entries_view(old(r)@)),
    ensures
        keys_sorted(entries_view(final(r)@)),
        to_map(entries_view(final(r)@)) == to_map(entries_view(old(r)@)).insert(k@, v@),
        forall|j: int|
            0 <= j < final(r)@.len() ==> (#[trigger] final(r)@[j]).1 == v || old(r)@.contains(
                final(r)@[j],
            ),
{
    let ghost ev = entries_view(r@);
    proof {
        lemma_entries_view(r@);
    }
    let mut i: usize = 0;
    while i < r.len() && crate::keys::key_less(r[i].0.as_str(), k.as_str())
        invariant
            ev == entries_view(r@),
            ev.len() == r@.len(),
            forall|j: int| 0 <= j < r@.len() ==> #[trigger] ev[j] == (r@[j].0@, r@[j].1@),
            i <= r.len(),
            forall|j: int| 0 <= j < i ==> key_lt(#[trigger] ev[j].0, k@),
        decreases r.len() - i,
    {
        i = i + 1;
    }
    if i < r.len() && r[i].0 == k {
        proof {
            lemma_to_map_update(ev, i as int, v@);
            lemma_entries_view_set(r@, i as int, (k, v));
            assert(ev.update(i as int, (k@, v@)) =~= ev.update(i as int, (ev[i as int].0, v@)));
        }
        r.set(i, (k, v));
        proof {
            assert(entries_view(r@) == ev.update(i as int, (k@, v@)));
            assert forall|a: int, b: int|
                0 <= a < b < entries_view(r@).len() implies key_lt(
                #[trigger] entries_view(r@)[a].0,
                #[trigger] entries_view(r@)[b].0,
            ) by {
                assert(entries_view(r@)[a].0 == ev[a].0);
                assert(entries_view(r@)[b].0 == ev[b].0);
            }
        }
    } else {
        proof {
            assert forall|j: int| 0 <= j < ev.len() implies ev[j].0 != k@ by {
                crate::keys::lemma_key_lt_irreflexive(k@);
                if j >= i {
                    crate::keys::lemma_key_lt_total(ev[i as int].0, k@);
                    if j > i {
                        crate::keys::lemma_key_lt_transitive(k@, ev[i as int].0, ev[j].0);
                    }
                }
            }
            lemma_to_map_insert(ev, i as int, k@, v@);
            lemma_entries_view_insert(r@, i as int, (k, v));
        }
        r.insert(i, (k, v));
        proof {
            let nv = entries_view(r@);
            assert(nv == ev.insert(i as int, (k@, v@)));
            assert forall|a: int, b: int| 0 <= a < b < nv.len() implies key_lt(
                #[trigger] nv[a].0,
                #[trigger] nv[b].0,
            ) by {
                if a < i && b == i {
                } else if a == i && b > i {
                    crate::keys::lemma_key_lt_total(ev[i as int].0, k@);
                    if b > i + 1 {
                        crate::keys::lemma_key_lt_transitive(k@, ev[i as int].0, ev[b - 1].0);
                    }
                } else if a < i && b > i {
                } else {
                }
            }
        }
    }
}

impl Value {
    /// A null value.
    pub fn null() -> (r: Value)
        ensures
            r@ == ValueView::Null,
    {
        Value::Null
    }

    /// A boolean value.
    pub fn boolean(v: bool) -> (r: Value)
        ensures
            r@ == ValueView::Boolean(v),
    {
        Value::Boolean(v)
    }

    /// A number, given by the bits of a 64-bit double.
    pub fn number(v: u64) -> (r: Value)
        ensures
            r@ == ValueView::Number(v),
    {
        Value::Number(v)
    }

    /// A string value.
    pub fn string(v: String) -> (r: Value)
        ensures
            r@ == ValueView::Text(v@),
    {
        Value::String(v)
    }

    /// A list of the given values, in the given order.
    pub fn list(v: Vec<Value>) -> (r: Value)
        ensures
            r@ == ValueView::List(list_view(v@)),
    {
        Value::List(v)
    }

    /// A map of the given pairs. The entries come out in ascending key order;
    /// where a key occurs more than once, its last value wins.
    pub fn map(v: Vec<(String, Value)>) -> (r: Value)
        ensures
            r@ is Mapping,
            keys_sorted(r@->Mapping_0),
            to_map(r@->Mapping_0) == to_map(entries_view(v@)),
            (forall|i: int| 0 <= i < v@.len() ==> (#[trigger] v@[i]).1@.wf()) ==> r@.wf(),
    {
        let ghost orig = v@;
        let ghost all_wf = forall|i: int| 0 <= i < orig.len() ==> (#[trigger] orig[i]).1@.wf();
        let mut ps = v;
        let mut r: Vec<(String, Value)> = Vec::new();
        let ghost mut n: int = 0;
        proof {
            assert(orig.subrange(0, 0) =~= Seq::<(String, Value)>::empty());
            assert(ps@ =~= orig.subrange(0, orig.len() as int));
        }
        while ps.len() > 0
            invariant
                0 <= n <= orig.len(),
                ps@ == orig.subrange(n, orig.len() as int),
                keys_sorted(entries_view(r@)),
                to_map(entries_view(r@)) == to_map(entries_view(orig.subrange(0, n))),
                all_wf == forall|i: int| 0 <= i < orig.len() ==> (#[trigger] orig[i]).1@.wf(),
                all_wf ==> forall|j: int| 0 <= j < r@.len() ==> (#[trigger] r@[j]).1@.wf(),
            decreases ps.len(),
        {
            let (k, x) = ps.remove(0);
            let ghost prev = r@;
            proof {
                assert(orig[n] == (k, x));
                let s1 = orig.subrange(0, n + 1);
                assert(s1.subrange(0, s1.len() - 1) =~= orig.subrange(0, n));
                assert(entries_view(s1) == entries_view(orig.subrange(0, n)).push((k@, x@)));
                let ev1 = entries_view(s1);
                assert(ev1.drop_last() =~= entries_view(orig.subrange(0, n)));
            }
            let ghost xv = x;
            insert_sorted(&mut r, k, x);
            proof {
                if all_wf {
                    assert(xv@.wf());
                    assert forall|j: int| 0 <= j < r@.len() implies (#[trigger] r@[j]).1@.wf() by {
                        if r@[j].1 != xv {
                            let t = choose|t: int| 0 <= t < prev.len() && prev[t] == r@[j];
                            assert(prev[t].1@.wf());
                        }
                    }
                }
                n = n + 1;
                assert(ps@ =~= orig.subrange(n, orig.len() as int));
            }
        }
        proof {
            assert(orig.subrange(0, n) =~= orig);
            lemma_entries_view(r@);
        }
        let r = Value::Mapping(r);
        proof {
            if all_wf {
                let es = r@->Mapping_0;
                assert forall|i: int| 0 <= i < es.len() implies (#[trigger] es[i]).1.wf() by {
                    let rv = r->Mapping_0;
                    assert(es[i].1 == rv@[i].1@);
                }
            }
        }
        r
    }
}

impl Value {
    /// A copy of this value and of everything it holds.
    pub fn duplicate(&self) -> (r: Value)
        ensures
            r@ == self@,
        decreases self,
    {
        match self {
            Value::Null => Value::Null,
            Value::Boolean(b) => Value::Boolean(*b),
            Value::Number(n) => Value::Number(*n),
            Value::String(s) => Value::String(s.clone()),
            Value::List(xs) => {
                let mut out: Vec<Value> = Vec::new();
                let mut i: usize = 0;
                while i < xs.len()
                    invariant
                        *self == Value::List(*xs),
                        i <= xs.len(),
                        out@.len() == i,
                        forall|j: int| 0 <= j < i ==> (#[trigger] out@[j])@ == xs@[j]@,
                    decreases xs.len() - i,
                {
                    proof {
                        assert(self->List_0 == *xs);
                        assert(decreases_to!(*self => self->List_0));
                        assert(decreases_to!(*xs => xs[i as int]));
                    }
                    let x = xs[i].duplicate();
                    out.push(x);
                    i = i + 1;
                }
                proof {
                    lemma_list_view(out@);
                    lemma_list_view(xs@);
                    assert(list_view(out@) =~= list_view(xs@));
                }
                Value::List(out)
            },
            Value::Mapping(es) => {
                let mut out: Vec<(String, Value)> = Vec::new();
                let mut i: usize = 0;
                while i < es.len()
                    invariant
                        *self == Value::Mapping(*es),
                        i <= es.len(),
                        out@.len() == i,
                        forall|j: int|
                            0 <= j < i ==> (#[trigger] out@[j]).0@ == es@[j].0@ && out@[j].1@
                                == es@[j].1@,
                    decreases es.len() - i,
                {
                    proof {
                        assert(self->Mapping_0 == *es);
                        assert(decreases_to!(*self => self->Mapping_0));
                        assert(decreases_to!(*es => es[i as int]));
                        assert(decreases_to!(es[i as int] => es[i as int].1));
                    }
                    let x = es[i].1.duplicate();
                    out.push((es[i].0.clone(), x));
                    i = i + 1;
                }
                proof {
                    lemma_entries_view(out@);
                    lemma_entries_view(es@);
                    assert(entries_view(out@) =~= entries_view(es@));
                }
                Value::Mapping(out)
            },
        }
    }
}

proof fn lemma_to_map_one_key(ps: Seq<(Seq<char>, ValueView)>, k: Seq<char>)
    requires
        ps.len() > 0,
        forall|i: int| 0 <= i < ps.len() ==> (#[trigger] ps[i]).0 == k,
    ensures
        to_map(ps) == Map::<Seq<char>, ValueView>::empty().insert(k, ps.last().1),
    decreases ps.len(),
{
    let d = ps.drop_last();
    if d.len() > 0 {
        assert forall|i: int| 0 <= i < d.len() implies (#[trigger] d[i]).0 == k by {
            assert(d[i] == ps[i]);
        }
        lemma_to_map_one_key(d, k);
    } else {
        assert(to_map(d) == Map::<Seq<char>, ValueView>::empty());
    }
    assert(ps[ps.len() - 1].0 == k);
    assert(to_map(ps) == to_map(d).insert(k, ps.last().1));
    assert(to_map(ps) =~= Map::<Seq<char>, ValueView>::empty().insert(k, ps.last().1));
}

/// Pairs that all share one key make a map of one entry: that key with the
/// last pair's value. Here `es` is what `Value::map` returns for `ps`.
pub proof fn law_duplicate_keys_collapse(
    ps: Seq<(Seq<char>, ValueView)>,
    k: Seq<char>,
    es: Seq<(Seq<char>, ValueView)>,
)
    requires
        ps.len() > 0,
        forall|i: int| 0 <= i < ps.len() ==> (#[trigger] ps[i]).0 == k,
        keys_sorted(es),
        to_map(es) == to_map(ps),
    ensures
        es == seq![(k, ps.last().1)],
{
    lemma_to_map_one_key(ps, k);
    let one = seq![(k, ps.last().1)];
    assert(one.drop_last() =~= Seq::<(Seq<char>, ValueView)>::empty());
    assert(to_map(one.drop_last()) == Map::<Seq<char>, ValueView>::empty());
    assert(to_map(one) == to_map(one.drop_last()).insert(k, ps.last().1));
    assert(to_map(one) =~= to_map(ps));
    lemma_sorted_unique(es, one);
}

impl Default for Value {
    /// Null.
    fn default() -> (r: Value)
        ensures
            r@ == ValueView::Null,
    {
        Value::Null
    }
}

} // verus!
