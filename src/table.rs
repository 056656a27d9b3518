use vstd::prelude::*;

use crate::value::{
    Value,
    ValueTy,
    ValueView,
    keys_sorted,
    to_map,
    list_view,
    entries_view,
    lemma_list_view,
    lemma_entries_view,
    lemma_sorted_unique,
};

verus! {

broadcast use {
    vstd::seq::axiom_seq_index_decreases,
    vstd::std_specs::vec::axiom_vec_decreases_to_view,
    vstd::std_specs::vec::axiom_vec_index_decreases,
};

/// A table of handles. Each slot holds the value behind one handle while the
/// handle is live, and nothing once it has been consumed or released.
pub struct ValueTable {
    slots: Vec<Option<Value>>,
}

pub open spec fn slot_view(s: Option<Value>) -> Option<ValueView> {
    match s {
        Some(v) => Some(v@),
        None => None,
    }
}

/// `h` refers to a value in `t`.
pub open spec fn live(t: Seq<Option<ValueView>>, h: usize) -> bool {
    (h as int) < t.len() && t[h as int] is Some
}

/// The value that a live handle refers to.
pub open spec fn value_at(t: Seq<Option<ValueView>>, h: usize) -> ValueView {
    t[h as int]->Some_0
}

/// Every handle is live and no handle occurs twice.
pub open spec fn distinct_live(t: Seq<Option<ValueView>>, hs: Seq<usize>) -> bool {
    &&& forall|i: int| 0 <= i < hs.len() ==> live(t, #[trigger] hs[i])
    &&& forall|i: int, j: int| 0 <= i < j < hs.len() ==> #[trigger] hs[i] != #[trigger] hs[j]
}

/// The values that the handles refer to.
pub open spec fn values_at(t: Seq<Option<ValueView>>, hs: Seq<usize>) -> Seq<ValueView> {
    hs.map_values(|h: usize| value_at(t, h))
}

/// The handles of a sequence of keyed handles.
pub open spec fn handles_of(es: Seq<(String, usize)>) -> Seq<usize> {
    es.map_values(|e: (String, usize)| e.1)
}

/// The key/value pairs that a sequence of keyed handles refers to.
pub open spec fn pairs_at(t: Seq<Option<ValueView>>, es: Seq<(String, usize)>) -> Seq<
    (Seq<char>, ValueView),
> {
    es.map_values(|e: (String, usize)| (e.0@, value_at(t, e.1)))
}

/// The table after the given handles have been consumed.
pub open spec fn consumed(t: Seq<Option<ValueView>>, hs: Seq<usize>) -> Seq<Option<ValueView>> {
    Seq::new(t.len(), |i: int| if hs.contains(i as usize) { None } else { t[i] })
}

/// Slots for fresh handles to the given values.
pub open spec fn fresh(xs: Seq<ValueView>) -> Seq<Option<ValueView>> {
    xs.map_values(|x: ValueView| Some(x))
}

/// Every slot below `n` is the same in both tables.
pub open spec fn keeps(t: Seq<Option<ValueView>>, u: Seq<Option<ValueView>>, n: int) -> bool {
    &&& n <= t.len()
    &&& n <= u.len()
    &&& forall|i: int| 0 <= i < n ==> #[trigger] u[i] == t[i]
}

impl View for ValueTable {
    type V = Seq<Option<ValueView>>;

    closed spec fn view(&self) -> Seq<Option<ValueView>> {
        self.slots@.map_values(|s: Option<Value>| slot_view(s))
    }
}

impl ValueTable {
    /// A table with no handles.
    pub fn new() -> (r: ValueTable)
        ensures
            r@ == Seq::<Option<ValueView>>::empty(),
    {
        let r = ValueTable { slots: Vec::new() };
        assert(r@ =~= Seq::<Option<ValueView>>::empty());
        r
    }

    fn add(&mut self, v: Value) -> (h: usize)
        ensures
            h == old(self)@.len(),
            final(self)@ == old(self)@.push(Some(v@)),
    {
        let ghost vv = v@;
        self.slots.push(Some(v));
        assert(self@ =~= old(self)@.push(Some(vv)));
        self.slots.len() - 1
    }

    fn take(&mut self, h: usize) -> (v: Value)
        requires
            live(old(self)@, h),
        ensures
            v@ == value_at(old(self)@, h),
            final(self)@ == old(self)@.update(h as int, None),
    {
        let mut slot: Option<Value> = None;
        self.slots.set_and_swap(h, &mut slot);
        assert(self@ =~= old(self)@.update(h as int, None));
        slot.unwrap()
    }

    fn get(&self, h: usize) -> (v: &Value)
        requires
            live(self@, h),
        ensures
            v@ == value_at(self@, h),
    {
        self.slots[h].as_ref().unwrap()
    }

    /// A handle to null.
    pub fn make_null(&mut self) -> (h: usize)
        ensures
            h == old(self)@.len(),
            final(self)@ == old(self)@.push(Some(ValueView::Null)),
    {
        self.add(Value::Null)
    }

    /// A handle to a boolean.
    pub fn make_boolean(&mut self, v: bool) -> (h: usize)
        ensures
            h == old(self)@.len(),
            final(self)@ == old(self)@.push(Some(ValueView::Boolean(v))),
    {
        self.add(Value::Boolean(v))
    }

    /// A handle to a number, given by the bits of a 64-bit double.
    pub fn make_number(&mut self, v: u64) -> (h: usize)
        ensures
            h == old(self)@.len(),
            final(self)@ == old(self)@.push(Some(ValueView::Number(v))),
    {
        self.add(Value::Number(v))
    }

    /// A handle to a string.
    pub fn make_string(&mut self, v: String) -> (h: usize)
        ensures
            h == old(self)@.len(),
            final(self)@ == old(self)@.push(Some(ValueView::Text(v@))),
    {
        self.add(Value::String(v))
    }

    /// A handle to a list of the values behind `hs`. Each of `hs` is consumed:
    /// its value moves into the list.
    pub fn make_list(&mut self, hs: Vec<usize>) -> (h: usize)
        requires
            distinct_live(old(self)@, hs@),
        ensures
            h == old(self)@.len(),
            final(self)@ == consumed(old(self)@, hs@).push(
                Some(ValueView::List(values_at(old(self)@, hs@))),
            ),
    {
        let ghost t0 = self@;
        let n0 = self.slots.len();
        assert(t0.len() == n0);
        let mut xs: Vec<Value> = Vec::new();
        let mut i: usize = 0;
        while i < hs.len()
            invariant
                distinct_live(t0, hs@),
                i <= hs.len(),
                xs@.len() == i,
                self@.len() == t0.len(),
                t0.len() <= usize::MAX,
                forall|j: int| 0 <= j < i ==> (#[trigger] xs@[j])@ == value_at(t0, hs@[j]),
                forall|k: int|
                    0 <= k < t0.len() ==> #[trigger] self@[k] == if hs@.subrange(
                        0,
                        i as int,
                    ).contains(k as usize) {
                        None
                    } else {
                        t0[k]
                    },
            decreases hs.len() - i,
        {
            let hi = hs[i];
            proof {
                assert(live(t0, hs@[i as int]));
                assert(!hs@.subrange(0, i as int).contains(hi)) by {
                    if hs@.subrange(0, i as int).contains(hi) {
                        let j = choose|j: int|
                            0 <= j < i && hs@.subrange(0, i as int)[j] == hi;
                        assert(hs@[j] == hs@[i as int]);
                    }
                }
            }
            let ghost before = self@;
            assert(forall|k: int| 0 <= k < t0.len() ==> before[k] == #[trigger] self@[k]);
            let x = self.take(hi);
            xs.push(x);
            proof {
                assert forall|k: int| 0 <= k < t0.len() implies #[trigger] self@[k] == if hs@.subrange(
                    0,
                    i + 1,
                ).contains(k as usize) {
                    None
                } else {
                    t0[k]
                } by {
                    let s0 = hs@.subrange(0, i as int);
                    assert(before[k] == if s0.contains(k as usize) { None } else { t0[k] });
                    let s1 = hs@.subrange(0, i + 1);
                    assert(s1 =~= s0.push(hi));
                    assert(self@ == before.update(hi as int, None));
                    if k == hi as int {
                        assert(s1[i as int] == hi);
                        assert(s1.contains(k as usize));
                    } else {
                        assert(self@[k] == before[k]);
                    }
                    if s1.contains(k as usize) && !s0.contains(k as usize) {
                        let j = choose|j: int| 0 <= j < s1.len() && s1[j] == k as usize;
                        assert(j == i);
                    }
                    if s0.contains(k as usize) {
                        let j = choose|j: int| 0 <= j < s0.len() && s0[j] == k as usize;
                        assert(s1[j] == k as usize);
                    }
                }
            }
            i = i + 1;
        }
        let ghost lv = values_at(t0, hs@);
        proof {
            lemma_list_view(xs@);
            assert(list_view(xs@) =~= lv);
            assert(hs@.subrange(0, hs@.len() as int) =~= hs@);
            assert(self@ =~= consumed(t0, hs@));
        }
        self.add(Value::List(xs))
    }

    /// A handle to a map of the keys and the values behind the handles, in
    /// ascending key order; where a key occurs more than once, its last value
    /// wins. Each handle is consumed: its value moves into the map.
    pub fn make_map(&mut self, es: Vec<(String, usize)>) -> (h: usize)
        requires
            distinct_live(old(self)@, handles_of(es@)),
        ensures
            h == old(self)@.len(),
            final(self)@.len() == old(self)@.len() + 1,
            forall|k: int|
                0 <= k < old(self)@.len() ==> #[trigger] final(self)@[k] == consumed(
                    old(self)@,
                    handles_of(es@),
                )[k],
            final(self)@[h as int] is Some,
            value_at(final(self)@, h) is Mapping,
            keys_sorted(value_at(final(self)@, h)->Mapping_0),
            to_map(value_at(final(self)@, h)->Mapping_0) == to_map(pairs_at(old(self)@, es@)),
    {
        let ghost t0 = self@;
        let ghost hv = handles_of(es@);
        let n0 = self.slots.len();
        assert(t0.len() == n0);
        let mut ps: Vec<(String, Value)> = Vec::new();
        let mut i: usize = 0;
        while i < es.len()
            invariant
                hv == handles_of(es@),
                hv.len() == es@.len(),
                distinct_live(t0, hv),
                i <= es.len(),
                ps@.len() == i,
                self@.len() == t0.len(),
                t0.len() <= usize::MAX,
                forall|j: int|
                    0 <= j < i ==> (#[trigger] ps@[j]).0@ == es@[j].0@ && ps@[j].1@ == value_at(
                        t0,
                        es@[j].1,
                    ),
                forall|k: int|
                    0 <= k < t0.len() ==> #[trigger] self@[k] == if hv.subrange(
                        0,
                        i as int,
                    ).contains(k as usize) {
                        None
                    } else {
                        t0[k]
                    },
            decreases es.len() - i,
        {
            let hi = es[i].1;
            proof {
                assert(hv[i as int] == hi);
                assert(live(t0, hv[i as int]));
                assert(!hv.subrange(0, i as int).contains(hi)) by {
                    if hv.subrange(0, i as int).contains(hi) {
                        let j = choose|j: int| 0 <= j < i && hv.subrange(0, i as int)[j] == hi;
                        assert(hv[j] == hv[i as int]);
                    }
                }
            }
            let ghost before = self@;
            assert(forall|k: int| 0 <= k < t0.len() ==> before[k] == #[trigger] self@[k]);
            let x = self.take(hi);
            ps.push((es[i].0.clone(), x));
            proof {
                assert forall|k: int| 0 <= k < t0.len() implies #[trigger] self@[k] == if hv.subrange(
                    0,
                    i + 1,
                ).contains(k as usize) {
                    None
                } else {
                    t0[k]
                } by {
                    let s0 = hv.subrange(0, i as int);
                    assert(before[k] == if s0.contains(k as usize) { None } else { t0[k] });
                    let s1 = hv.subrange(0, i + 1);
                    assert(s1 =~= s0.push(hi));
                    assert(self@ == before.update(hi as int, None));
                    if k == hi as int {
                        assert(s1[i as int] == hi);
                        assert(s1.contains(k as usize));
                    } else {
                        assert(self@[k] == before[k]);
                    }
                    if s1.contains(k as usize) && !s0.contains(k as usize) {
                        let j = choose|j: int| 0 <= j < s1.len() && s1[j] == k as usize;
                        assert(j == i);
                    }
                    if s0.contains(k as usize) {
                        let j = choose|j: int| 0 <= j < s0.len() && s0[j] == k as usize;
                        assert(s1[j] == k as usize);
                    }
                }
            }
            i = i + 1;
        }
        proof {
            lemma_entries_view(ps@);
            assert(entries_view(ps@) =~= pairs_at(t0, es@));
            assert(hv.subrange(0, hv.len() as int) =~= hv);
            assert(self@ =~= consumed(t0, hv));
        }
        let m = Value::map(ps);
        self.add(m)
    }

    /// Whether `h` refers to a value, rather than to nothing or to a slot
    /// that was consumed or released.
    pub fn is_live(&self, h: usize) -> (r: bool)
        ensures
            r == live(self@, h),
    {
        h < self.slots.len() && self.slots[h].is_some()
    }

    /// The variant of the value behind `h`.
    pub fn kind_of(&self, h: usize) -> (r: ValueTy)
        requires
            live(self@, h),
        ensures
            r == value_at(self@, h).ty(),
    {
        self.get(h).ty()
    }

    /// `Some` if the value behind `h` is null.
    pub fn as_null(&self, h: usize) -> (r: Option<()>)
        requires
            live(self@, h),
        ensures
            r is Some == value_at(self@, h) is Null,
    {
        self.get(h).as_null()
    }

    /// The boolean behind `h`, if it is one.
    pub fn as_boolean(&self, h: usize) -> (r: Option<bool>)
        requires
            live(self@, h),
        ensures
            r == (match value_at(self@, h) {
                ValueView::Boolean(b) => Some(b),
                _ => None,
            }),
    {
        self.get(h).as_boolean()
    }

    /// The bits of the number behind `h`, if it is one.
    pub fn as_number(&self, h: usize) -> (r: Option<u64>)
        requires
            live(self@, h),
        ensures
            r == (match value_at(self@, h) {
                ValueView::Number(n) => Some(n),
                _ => None,
            }),
    {
        self.get(h).as_number()
    }

    /// A copy of the string behind `h`, if it is one.
    pub fn as_string(&self, h: usize) -> (r: Option<String>)
        requires
            live(self@, h),
        ensures
            r is Some == value_at(self@, h) is Text,
            r is Some ==> r->0@ == value_at(self@, h)->Text_0,
    {
        match self.get(h) {
            Value::String(s) => Some(s.clone()),
            _ => None,
        }
    }

    /// Fresh handles to copies of the elements of the list behind `h`, if it is
    /// one. `h` stays live and unchanged.
    pub fn as_list(&mut self, h: usize) -> (r: Option<Vec<usize>>)
        requires
            live(old(self)@, h),
        ensures
            r is Some == value_at(old(self)@, h) is List,
            r is None ==> final(self)@ == old(self)@,
            r is Some ==> {
                let xs = value_at(old(self)@, h)->List_0;
                &&& final(self)@ == old(self)@ + fresh(xs)
                &&& r->0@.len() == xs.len()
                &&& forall|i: int| 0 <= i < xs.len() ==> #[trigger] r->0@[i] == old(self)@.len() + i
            },
    {
        let ghost t0 = self@;
        let n = self.slots.len();
        let copies: Vec<Value> = match self.get(h) {
            Value::List(xs) => {
                let mut out: Vec<Value> = Vec::new();
                let mut i: usize = 0;
                while i < xs.len()
                    invariant
                        i <= xs.len(),
                        out@.len() == i,
                        forall|j: int| 0 <= j < i ==> (#[trigger] out@[j])@ == xs@[j]@,
                    decreases xs.len() - i,
                {
                    out.push(xs[i].duplicate());
                    i = i + 1;
                }
                proof {
                    lemma_list_view(xs@);
                }
                out
            },
            _ => {
                return None;
            },
        };
        let ghost xs = value_at(t0, h)->List_0;
        let mut hs: Vec<usize> = Vec::new();
        let mut copies = copies;
        let mut i: usize = 0;
        while copies.len() > 0
            invariant
                n == t0.len(),
                xs.len() == i + copies@.len(),
                forall|j: int| 0 <= j < copies@.len() ==> (#[trigger] copies@[j])@ == xs[i + j],
                self@ == t0 + fresh(xs.subrange(0, i as int)),
                hs@.len() == i,
                forall|j: int| 0 <= j < i ==> #[trigger] hs@[j] == n + j,
            decreases copies.len(),
        {
            let x = copies.remove(0);
            proof {
                assert(x@ == xs[i as int]);
            }
            let hx = self.add(x);
            hs.push(hx);
            proof {
                assert(hs@.len() == i + 1);
                assert(fresh(xs.subrange(0, i + 1)) =~= fresh(xs.subrange(0, i as int)).push(
                    Some(xs[i as int]),
                ));
                assert(self@ =~= t0 + fresh(xs.subrange(0, i + 1)));
            }
            i = hs.len();
        }
        assert(xs.subrange(0, i as int) =~= xs);
        Some(hs)
    }

    /// The keys, with fresh handles to copies of the values, of the map behind
    /// `h`, if it is one, in its key order. `h` stays live and unchanged.
    pub fn as_map(&mut self, h: usize) -> (r: Option<Vec<(String, usize)>>)
        requires
            live(old(self)@, h),
        ensures
            r is Some == value_at(old(self)@, h) is Mapping,
            r is None ==> final(self)@ == old(self)@,
            r is Some ==> {
                let es = value_at(old(self)@, h)->Mapping_0;
                &&& final(self)@ == old(self)@ + fresh(es.map_values(|e: (Seq<char>, ValueView)| e.1))
                &&& r->0@.len() == es.len()
                &&& forall|i: int|
                    0 <= i < es.len() ==> (#[trigger] r->0@[i]).1 == old(self)@.len() + i
                        && r->0@[i].0@ == es[i].0
            },
    {
        let ghost t0 = self@;
        let n = self.slots.len();
        let copies: Vec<(String, Value)> = match self.get(h) {
            Value::Mapping(es) => {
                let mut out: Vec<(String, Value)> = Vec::new();
                let mut i: usize = 0;
                while i < es.len()
                    invariant
                        i <= es.len(),
                        out@.len() == i,
                        forall|j: int|
                            0 <= j < i ==> (#[trigger] out@[j]).0@ == es@[j].0@ && out@[j].1@
                                == es@[j].1@,
                    decreases es.len() - i,
                {
                    out.push((es[i].0.clone(), es[i].1.duplicate()));
                    i = i + 1;
                }
                proof {
                    lemma_entries_view(es@);
                }
                out
            },
            _ => {
                return None;
            },
        };
        let ghost es = value_at(t0, h)->Mapping_0;
        let ghost vs = es.map_values(|e: (Seq<char>, ValueView)| e.1);
        let mut r: Vec<(String, usize)> = Vec::new();
        let mut copies = copies;
        let mut i: usize = 0;
        while copies.len() > 0
            invariant
                n == t0.len(),
                vs == es.map_values(|e: (Seq<char>, ValueView)| e.1),
                es.len() == i + copies@.len(),
                forall|j: int|
                    0 <= j < copies@.len() ==> (#[trigger] copies@[j]).1@ == es[i + j].1
                        && copies@[j].0@ == es[i + j].0,
                self@ == t0 + fresh(vs.subrange(0, i as int)),
                r@.len() == i,
                forall|j: int|
                    0 <= j < i ==> (#[trigger] r@[j]).1 == n + j && r@[j].0@ == es[j].0,
            decreases copies.len(),
        {
            let (k, x) = copies.remove(0);
            let hx = self.add(x);
            r.push((k, hx));
            proof {
                assert(r@.len() == i + 1);
                assert(fresh(vs.subrange(0, i + 1)) =~= fresh(vs.subrange(0, i as int)).push(
                    Some(vs[i as int]),
                ));
                assert(self@ =~= t0 + fresh(vs.subrange(0, i + 1)));
            }
            i = r.len();
        }
        assert(vs.subrange(0, i as int) =~= vs);
        Some(r)
    }

    /// Releases `h`: its value is dropped and the handle is no longer live.
    pub fn release(&mut self, h: usize)
        requires
            live(old(self)@, h),
        ensures
            final(self)@ == old(self)@.update(h as int, None),
    {
        let _ = self.take(h);
    }

    /// Hands `v` over node by node: each leaf gets a handle of its own, and
    /// each list or map is made from its children's handles, which it
    /// consumes. Returns the handle to the whole value.
    pub fn adapt(&mut self, v: Value) -> (h: usize)
        requires
            v@.wf(),
        ensures
            old(self)@.len() <= h,
            live(final(self)@, h),
            value_at(final(self)@, h) == v@,
            keeps(old(self)@, final(self)@, old(self)@.len() as int),
        decreases v,
    {
        let ghost gv = v;
        match v {
            Value::Null => self.make_null(),
            Value::Boolean(b) => self.make_boolean(b),
            Value::Number(n) => self.make_number(n),
            Value::String(s) => self.make_string(s),
            Value::List(xs) => {
                let ghost orig = xs@;
                proof {
                    lemma_list_view(orig);
                }
                let mut xs = xs;
                let mut hs: Vec<usize> = Vec::new();
                let ghost n0 = self@.len();
                let ghost t0 = self@;
                while xs.len() > 0
                    invariant
                        gv == v,
                        gv is List,
                        gv->List_0@ == orig,
                        gv@.wf(),
                        list_view(orig).len() == orig.len(),
                        forall|j: int| 0 <= j < orig.len() ==> #[trigger] list_view(orig)[j] == orig[j]@,
                        xs@ == orig.subrange(hs@.len() as int, orig.len() as int),
                        hs@.len() <= orig.len(),
                        n0 == t0.len(),
                        keeps(t0, self@, n0 as int),
                        distinct_live(self@, hs@),
                        forall|j: int| 0 <= j < hs@.len() ==> n0 <= #[trigger] hs@[j],
                        forall|j: int| 0 <= j < hs@.len() ==> value_at(self@, #[trigger] hs@[j]) == orig[j]@,
                    decreases xs.len(),
                {
                    let x = xs.remove(0);
                    proof {
                        let k = hs@.len() as int;
                        assert(x == orig[k]);
                        assert(decreases_to!(gv => gv->List_0));
                        assert(decreases_to!(gv->List_0 => gv->List_0[k]));
                        assert(decreases_to!(gv => orig[k]));
                        assert(gv@ == ValueView::List(list_view(orig)));
                        assert(gv@->List_0[k].wf());
                        assert(list_view(orig)[k] == orig[k]@);
                    }
                    let ghost before = self@;
                    let hx = self.adapt(x);
                    hs.push(hx);
                    proof {
                        assert forall|j: int| 0 <= j < hs@.len() - 1 implies #[trigger] self@[hs@[j] as int]
                            == before[hs@[j] as int] by {
                            assert(live(before, hs@[j]));
                        }
                        assert(xs@ =~= orig.subrange(hs@.len() as int, orig.len() as int));
                    }
                }
                let ghost t1 = self@;
                let h = self.make_list(hs);
                proof {
                    assert(hs@.len() == orig.len());
                    assert(values_at(t1, hs@) =~= list_view(orig));
                    assert forall|k: int| 0 <= k < n0 implies #[trigger] self@[k] == t0[k] by {
                        if hs@.contains(k as usize) {
                            let j = choose|j: int| 0 <= j < hs@.len() && hs@[j] == k as usize;
                            assert(n0 <= hs@[j]);
                        }
                        assert(consumed(t1, hs@)[k] == t1[k]);
                    }
                }
                h
            },
            Value::Mapping(es) => {
                let ghost orig = es@;
                proof {
                    lemma_entries_view(orig);
                }
                let mut es = es;
                let mut ks: Vec<(String, usize)> = Vec::new();
                let ghost n0 = self@.len();
                let ghost t0 = self@;
                while es.len() > 0
                    invariant
                        gv == v,
                        gv is Mapping,
                        gv->Mapping_0@ == orig,
                        gv@.wf(),
                        entries_view(orig).len() == orig.len(),
                        forall|j: int|
                            0 <= j < orig.len() ==> #[trigger] entries_view(orig)[j] == (
                                orig[j].0@,
                                orig[j].1@,
                            ),
                        es@ == orig.subrange(ks@.len() as int, orig.len() as int),
                        ks@.len() <= orig.len(),
                        n0 == t0.len(),
                        keeps(t0, self@, n0 as int),
                        distinct_live(self@, handles_of(ks@)),
                        forall|j: int| 0 <= j < ks@.len() ==> n0 <= (#[trigger] ks@[j]).1,
                        forall|j: int|
                            0 <= j < ks@.len() ==> value_at(self@, (#[trigger] ks@[j]).1)
                                == orig[j].1@ && ks@[j].0@ == orig[j].0@,
                    decreases es.len(),
                {
                    let (k, x) = es.remove(0);
                    proof {
                        let m = ks@.len() as int;
                        assert(x == orig[m].1);
                        assert(decreases_to!(gv => gv->Mapping_0));
                        assert(decreases_to!(gv->Mapping_0 => gv->Mapping_0[m]));
                        assert(decreases_to!(gv->Mapping_0[m] => gv->Mapping_0[m].1));
                        assert(decreases_to!(gv => orig[m].1));
                        assert(orig[m].1@.wf()) by {
                            assert(gv@ == ValueView::Mapping(entries_view(orig)));
                            assert(entries_view(orig)[m] == (orig[m].0@, orig[m].1@));
                        }
                    }
                    let ghost before = self@;
                    let ghost ks_before = ks@;
                    let hx = self.adapt(x);
                    ks.push((k, hx));
                    proof {
                        assert forall|j: int| 0 <= j < ks@.len() - 1 implies #[trigger] self@[ks@[j].1 as int]
                            == before[ks@[j].1 as int] by {
                            assert(ks_before[j] == ks@[j]);
                            assert(handles_of(ks_before)[j] == ks@[j].1);
                            assert(live(before, handles_of(ks_before)[j]));
                        }
                        assert(handles_of(ks@) =~= handles_of(ks_before).push(hx));
                        assert(es@ =~= orig.subrange(ks@.len() as int, orig.len() as int));
                    }
                }
                let ghost t1 = self@;
                let h = self.make_map(ks);
                proof {
                    assert(ks@.len() == orig.len());
                    assert(pairs_at(t1, ks@) =~= entries_view(orig));
                    assert(gv@ == ValueView::Mapping(entries_view(orig)));
                    lemma_sorted_unique(value_at(self@, h)->Mapping_0, entries_view(orig));
                    assert forall|k: int| 0 <= k < n0 implies #[trigger] self@[k] == t0[k] by {
                        if handles_of(ks@).contains(k as usize) {
                            let j = choose|j: int|
                                0 <= j < ks@.len() && handles_of(ks@)[j] == k as usize;
                            assert(n0 <= ks@[j].1);
                        }
                        assert(consumed(t1, handles_of(ks@))[k] == t1[k]);
                    }
                }
                h
            },
        }
    }

    /// Walks the value behind `h` through the query operations alone, taking
    /// each list or map one level at a time through fresh handles, which are
    /// released once read. `h` stays live and unchanged.
    pub fn reconstruct(&mut self, h: usize) -> (r: Value)
        requires
            live(old(self)@, h),
        ensures
            r@ == value_at(old(self)@, h),
            keeps(old(self)@, final(self)@, old(self)@.len() as int),
        decreases value_at(old(self)@, h),
    {
        let ghost t0 = self@;
        let ghost v0 = value_at(t0, h);
        match self.kind_of(h) {
            ValueTy::Null => Value::Null,
            ValueTy::Boolean => Value::Boolean(self.as_boolean(h).unwrap()),
            ValueTy::Number => Value::Number(self.as_number(h).unwrap()),
            ValueTy::String => Value::String(self.as_string(h).unwrap()),
            ValueTy::List => {
                let hs = self.as_list(h).unwrap();
                let ghost xs = v0->List_0;
                let ghost n0 = t0.len();
                let mut out: Vec<Value> = Vec::new();
                let mut i: usize = 0;
                while i < hs.len()
                    invariant
                        v0 == value_at(t0, h),
                        t0 == old(self)@,
                        v0 is List,
                        xs == v0->List_0,
                        hs@.len() == xs.len(),
                        forall|j: int| 0 <= j < xs.len() ==> #[trigger] hs@[j] == n0 + j,
                        n0 == t0.len(),
                        keeps(t0, self@, n0 as int),
                        forall|j: int| i <= j < xs.len() ==> #[trigger] self@[n0 + j] == Some(xs[j]),
                        self@.len() >= n0 + xs.len(),
                        i <= hs.len(),
                        out@.len() == i,
                        forall|j: int| 0 <= j < i ==> (#[trigger] out@[j])@ == xs[j],
                    decreases hs.len() - i,
                {
                    proof {
                        assert(self@[n0 + i] == Some(xs[i as int]));
                        assert(decreases_to!(v0 => v0->List_0));
                        assert(decreases_to!(v0 => xs[i as int]));
                        assert(value_at(self@, hs@[i as int]) == xs[i as int]);
                    }
                    let ghost before = self@;
                    let x = self.reconstruct(hs[i]);
                    proof {
                        assert(self@[n0 + i] == before[n0 + i]);
                    }
                    self.release(hs[i]);
                    out.push(x);
                    i = i + 1;
                }
                proof {
                    lemma_list_view(out@);
                    assert(list_view(out@) =~= xs);
                }
                Value::List(out)
            },
            ValueTy::Mapping => {
                let ks = self.as_map(h).unwrap();
                let ghost es = v0->Mapping_0;
                let ghost n0 = t0.len();
                let mut out: Vec<(String, Value)> = Vec::new();
                let mut i: usize = 0;
                let mut ks = ks;
                while ks.len() > 0
                    invariant
                        v0 == value_at(t0, h),
                        t0 == old(self)@,
                        v0 is Mapping,
                        es == v0->Mapping_0,
                        ks@.len() + i == es.len(),
                        forall|j: int|
                            0 <= j < ks@.len() ==> (#[trigger] ks@[j]).1 == n0 + i + j && ks@[j].0@
                                == es[i + j].0,
                        n0 == t0.len(),
                        keeps(t0, self@, n0 as int),
                        forall|j: int| i <= j < es.len() ==> #[trigger] self@[n0 + j] == Some(es[j].1),
                        self@.len() >= n0 + es.len(),
                        out@.len() == i,
                        forall|j: int|
                            0 <= j < i ==> (#[trigger] out@[j]).1@ == es[j].1 && out@[j].0@ == es[j].0,
                    decreases ks.len(),
                {
                    let (k, hx) = ks.remove(0);
                    proof {
                        assert(hx == n0 + i);
                        assert(self@[n0 + i] == Some(es[i as int].1));
                        assert(decreases_to!(v0 => v0->Mapping_0));
                        assert(decreases_to!(es => es[i as int]));
                        assert(decreases_to!(v0 => es[i as int].1));
                        assert(value_at(self@, hx) == es[i as int].1);
                    }
                    let ghost before = self@;
                    let x = self.reconstruct(hx);
                    self.release(hx);
                    out.push((k, x));
                    proof {
                        assert(out@[i as int].1@ == es[i as int].1);
                    }
                    i = out.len();
                }
                proof {
                    lemma_entries_view(out@);
                    assert(entries_view(out@) =~= es);
                }
                Value::Mapping(out)
            },
        }
    }
}

/// Handing a value across and walking it back gives the same value: where
/// `adapt` put `v` behind `h` in table `t`, and `reconstruct(h)` on `t`
/// returned `w`, `w` equals `v`.
pub proof fn law_round_trip(v: Value, t: Seq<Option<ValueView>>, h: usize, w: Value)
    requires
        live(t, h),
        value_at(t, h) == v@,
        w@ == value_at(t, h),
    ensures
        w@ == v@,
{
}

/// Making a list moves its children: none of the handles it was made from is
/// live afterwards.
pub proof fn law_make_list_consumes(t: Seq<Option<ValueView>>, hs: Seq<usize>)
    requires
        distinct_live(t, hs),
    ensures
        ({
            let u = consumed(t, hs).push(Some(ValueView::List(values_at(t, hs))));
            forall|i: int| 0 <= i < hs.len() ==> !live(u, #[trigger] hs[i])
        }),
{
    let u = consumed(t, hs).push(Some(ValueView::List(values_at(t, hs))));
    assert forall|i: int| 0 <= i < hs.len() implies !live(u, #[trigger] hs[i]) by {
        assert(live(t, hs[i]));
        assert(hs.contains(hs[i]));
        assert(u[hs[i] as int] == consumed(t, hs)[hs[i] as int]);
    }
}

/// Reading a list copies: the parent stays live with the same value, and two
/// reads one after the other give handles that share nothing.
pub proof fn law_read_list_copies(
    t0: Seq<Option<ValueView>>,
    h: usize,
    r1: Seq<usize>,
    r2: Seq<usize>,
)
    requires
        live(t0, h),
        value_at(t0, h) is List,
        r1.len() == value_at(t0, h)->List_0.len(),
        r2.len() == value_at(t0, h)->List_0.len(),
        forall|i: int| 0 <= i < r1.len() ==> #[trigger] r1[i] == t0.len() + i,
        forall|i: int|
            0 <= i < r2.len() ==> #[trigger] r2[i] == t0.len() + value_at(t0, h)->List_0.len() + i,
    ensures
        ({
            let xs = value_at(t0, h)->List_0;
            let t1 = t0 + fresh(xs);
            let t2 = t1 + fresh(xs);
            &&& live(t1, h) && value_at(t1, h) == value_at(t0, h)
            &&& live(t2, h) && value_at(t2, h) == value_at(t0, h)
            &&& forall|i: int, j: int|
                0 <= i < r1.len() && 0 <= j < r2.len() ==> #[trigger] r1[i] != #[trigger] r2[j]
            &&& forall|i: int| 0 <= i < r1.len() ==> !live(t0, #[trigger] r1[i])
            &&& forall|i: int| 0 <= i < r2.len() ==> !live(t1, #[trigger] r2[i])
        }),
{
}

} // verus!
