use vstd::prelude::*;

use crate::value::{Value, ValueView, list_view, entries_view, lemma_list_view, lemma_entries_view};

verus! {

broadcast use {
    vstd::std_specs::vec::axiom_vec_index_decreases,
    vstd::seq::axiom_seq_index_decreases,
    vstd::seq::axiom_seq_subrange_decreases,
};

/// The bits of a double encode NaN: all exponent bits set and a nonzero fraction.
pub open spec fn is_nan(b: u64) -> bool {
    (b & 0x7ff0_0000_0000_0000u64) == 0x7ff0_0000_0000_0000u64 && (b & 0x000f_ffff_ffff_ffffu64)
        != 0
}

/// IEEE-754 equality of two doubles given by their bits: NaN equals nothing,
/// positive and negative zero are equal, and otherwise equal means the same bits.
pub open spec fn number_eq(a: u64, b: u64) -> bool {
    !is_nan(a) && !is_nan(b) && (a == b || ((a & 0x7fff_ffff_ffff_ffffu64) == 0 && (b
        & 0x7fff_ffff_ffff_ffffu64) == 0))
}

/// Structural equality, variant by variant, with numbers compared as doubles.
pub open spec fn value_eq(a: ValueView, b: ValueView) -> bool
    decreases a,
{
    match (a, b) {
        (ValueView::Null, ValueView::Null) => true,
        (ValueView::Boolean(x), ValueView::Boolean(y)) => x == y,
        (ValueView::Number(x), ValueView::Number(y)) => number_eq(x, y),
        (ValueView::Text(x), ValueView::Text(y)) => x == y,
        (ValueView::List(xs), ValueView::List(ys)) => items_eq(xs, ys),
        (ValueView::Mapping(es), ValueView::Mapping(fs)) => entries_eq(es, fs),
        _ => false,
    }
}

/// Equal lengths, and equal elements position by position.
pub open spec fn items_eq(xs: Seq<ValueView>, ys: Seq<ValueView>) -> bool
    decreases xs,
{
    if xs.len() != ys.len() {
        false
    } else if xs.len() == 0 {
        true
    } else {
        items_eq(xs.subrange(0, xs.len() - 1), ys.subrange(0, ys.len() - 1)) && value_eq(
            xs[xs.len() - 1],
            ys[ys.len() - 1],
        )
    }
}

/// Equal lengths, and equal keys and values position by position.
pub open spec fn entries_eq(es: Seq<(Seq<char>, ValueView)>, fs: Seq<(Seq<char>, ValueView)>) -> bool
    decreases es,
{
    if es.len() != fs.len() {
        false
    } else if es.len() == 0 {
        true
    } else {
        entries_eq(es.subrange(0, es.len() - 1), fs.subrange(0, fs.len() - 1))
            && es[es.len() - 1].0 == fs[fs.len() - 1].0 && value_eq(
            es[es.len() - 1].1,
            fs[fs.len() - 1].1,
        )
    }
}

fn numbers_equal(a: u64, b: u64) -> (r: bool)
    ensures
        r == number_eq(a, b),
{
    let nan_a = (a & 0x7ff0_0000_0000_0000u64) == 0x7ff0_0000_0000_0000u64 && (a
        & 0x000f_ffff_ffff_ffffu64) != 0;
    let nan_b = (b & 0x7ff0_0000_0000_0000u64) == 0x7ff0_0000_0000_0000u64 && (b
        & 0x000f_ffff_ffff_ffffu64) != 0;
    !nan_a && !nan_b && (a == b || ((a & 0x7fff_ffff_ffff_ffffu64) == 0 && (b
        & 0x7fff_ffff_ffff_ffffu64) == 0))
}

fn values_equal(a: &Value, b: &Value) -> (r: bool)
    ensures
        r == value_eq(a@, b@),
    decreases a,
{
    match (a, b) {
        (Value::Null, Value::Null) => true,
        (Value::Boolean(x), Value::Boolean(y)) => *x == *y,
        (Value::Number(x), Value::Number(y)) => numbers_equal(*x, *y),
        (Value::String(x), Value::String(y)) => *x == *y,
        (Value::List(xs), Value::List(ys)) => {
            proof {
                lemma_list_view(xs@);
                lemma_list_view(ys@);
            }
            let ghost lx = list_view(xs@);
            let ghost ly = list_view(ys@);
            if xs.len() != ys.len() {
                return false;
            }
            let mut i: usize = 0;
            while i < xs.len()
                invariant
                    *a == Value::List(*xs),
                    *b == Value::List(*ys),
                    lx == list_view(xs@),
                    ly == list_view(ys@),
                    lx.len() == xs@.len(),
                    ly.len() == ys@.len(),
                    xs@.len() == ys@.len(),
                    forall|j: int| 0 <= j < xs@.len() ==> #[trigger] lx[j] == xs@[j]@,
                    forall|j: int| 0 <= j < ys@.len() ==> #[trigger] ly[j] == ys@[j]@,
                    i <= xs.len(),
                    items_eq(lx.subrange(0, i as int), ly.subrange(0, i as int)),
                decreases xs.len() - i,
            {
                proof {
                    assert(a->List_0 == *xs);
                    assert(decreases_to!(*a => a->List_0));
                    assert(decreases_to!(*xs => xs[i as int]));
                    let s1 = lx.subrange(0, i + 1);
                    let t1 = ly.subrange(0, i + 1);
                    assert(s1.subrange(0, i as int) =~= lx.subrange(0, i as int));
                    assert(t1.subrange(0, i as int) =~= ly.subrange(0, i as int));
                    assert(s1[i as int] == xs@[i as int]@);
                    assert(t1[i as int] == ys@[i as int]@);
                }
                if !values_equal(&xs[i], &ys[i]) {
                    proof {
                        let s1 = lx.subrange(0, i + 1);
                        let t1 = ly.subrange(0, i + 1);
                        assert(s1.subrange(0, s1.len() - 1) =~= lx.subrange(0, i as int));
                        assert(t1.subrange(0, t1.len() - 1) =~= ly.subrange(0, i as int));
                        assert(!items_eq(s1, t1));
                        if items_eq(lx, ly) {
                            lemma_items_eq_prefix(lx, ly, i as int + 1);
                        }
                    }
                    return false;
                }
                i = i + 1;
            }
            proof {
                assert(lx.subrange(0, lx.len() as int) =~= lx);
                assert(ly.subrange(0, ly.len() as int) =~= ly);
            }
            true
        },
        (Value::Mapping(es), Value::Mapping(fs)) => {
            proof {
                lemma_entries_view(es@);
                lemma_entries_view(fs@);
            }
            let ghost le = entries_view(es@);
            let ghost lf = entries_view(fs@);
            if es.len() != fs.len() {
                return false;
            }
            let mut i: usize = 0;
            while i < es.len()
                invariant
                    *a == Value::Mapping(*es),
                    *b == Value::Mapping(*fs),
                    le == entries_view(es@),
                    lf == entries_view(fs@),
                    le.len() == es@.len(),
                    lf.len() == fs@.len(),
                    es@.len() == fs@.len(),
                    forall|j: int| 0 <= j < es@.len() ==> #[trigger] le[j] == (es@[j].0@, es@[j].1@),
                    forall|j: int| 0 <= j < fs@.len() ==> #[trigger] lf[j] == (fs@[j].0@, fs@[j].1@),
                    i <= es.len(),
                    entries_eq(le.subrange(0, i as int), lf.subrange(0, i as int)),
                decreases es.len() - i,
            {
                proof {
                    assert(a->Mapping_0 == *es);
                    assert(decreases_to!(*a => a->Mapping_0));
                    assert(decreases_to!(*es => es[i as int]));
                    assert(decreases_to!(es[i as int] => es[i as int].1));
                    let s1 = le.subrange(0, i + 1);
                    let t1 = lf.subrange(0, i + 1);
                    assert(s1.subrange(0, i as int) =~= le.subrange(0, i as int));
                    assert(t1.subrange(0, i as int) =~= lf.subrange(0, i as int));
                    assert(s1[i as int] == (es@[i as int].0@, es@[i as int].1@));
                    assert(t1[i as int] == (fs@[i as int].0@, fs@[i as int].1@));
                }
                if !(es[i].0 == fs[i].0) || !values_equal(&es[i].1, &fs[i].1) {
                    proof {
                        let s1 = le.subrange(0, i + 1);
                        let t1 = lf.subrange(0, i + 1);
                        assert(s1.subrange(0, s1.len() - 1) =~= le.subrange(0, i as int));
                        assert(t1.subrange(0, t1.len() - 1) =~= lf.subrange(0, i as int));
                        assert(!entries_eq(s1, t1));
                        if entries_eq(le, lf) {
                            lemma_entries_eq_prefix(le, lf, i as int + 1);
                        }
                    }
                    return false;
                }
                i = i + 1;
            }
            proof {
                assert(le.subrange(0, le.len() as int) =~= le);
                assert(lf.subrange(0, lf.len() as int) =~= lf);
            }
            true
        },
        _ => false,
    }
}

/// Equal sequences agree on every prefix.
proof fn lemma_items_eq_prefix(xs: Seq<ValueView>, ys: Seq<ValueView>, n: int)
    requires
        items_eq(xs, ys),
        0 <= n <= xs.len(),
    ensures
        items_eq(xs.subrange(0, n), ys.subrange(0, n)),
    decreases xs.len(),
{
    if n < xs.len() {
        let dx = xs.subrange(0, xs.len() - 1);
        let dy = ys.subrange(0, ys.len() - 1);
        lemma_items_eq_prefix(dx, dy, n);
        assert(dx.subrange(0, n) =~= xs.subrange(0, n));
        assert(dy.subrange(0, n) =~= ys.subrange(0, n));
    } else {
        assert(xs.subrange(0, n) =~= xs);
        assert(ys.subrange(0, n) =~= ys);
    }
}

/// Equal entry sequences agree on every prefix.
proof fn lemma_entries_eq_prefix(
    es: Seq<(Seq<char>, ValueView)>,
    fs: Seq<(Seq<char>, ValueView)>,
    n: int,
)
    requires
        entries_eq(es, fs),
        0 <= n <= es.len(),
    ensures
        entries_eq(es.subrange(0, n), fs.subrange(0, n)),
    decreases es.len(),
{
    if n < es.len() {
        let de = es.subrange(0, es.len() - 1);
        let df = fs.subrange(0, fs.len() - 1);
        lemma_entries_eq_prefix(de, df, n);
        assert(de.subrange(0, n) =~= es.subrange(0, n));
        assert(df.subrange(0, n) =~= fs.subrange(0, n));
    } else {
        assert(es.subrange(0, n) =~= es);
        assert(fs.subrange(0, n) =~= fs);
    }
}

impl PartialEq for Value {
    fn eq(&self, other: &Value) -> (r: bool) {
        values_equal(self, other)
    }
}

impl vstd::std_specs::cmp::PartialEqSpecImpl for Value {
    open spec fn obeys_eq_spec() -> bool {
        true
    }

    open spec fn eq_spec(&self, other: &Value) -> bool {
        value_eq(self@, other@)
    }
}

} // verus!
