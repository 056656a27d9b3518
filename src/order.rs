use vstd::prelude::*;

use core::cmp::Ordering;

use crate::equality::is_nan;
use crate::keys::{key_less, key_lt};
use crate::value::{Value, ValueView, list_view, entries_view, lemma_list_view, lemma_entries_view};

verus! {

broadcast use {
    vstd::std_specs::vec::axiom_vec_index_decreases,
    vstd::seq::axiom_seq_index_decreases,
    vstd::seq::axiom_seq_subrange_decreases,
};

pub open spec fn int_cmp(a: int, b: int) -> Ordering {
    if a < b {
        Ordering::Less
    } else if a > b {
        Ordering::Greater
    } else {
        Ordering::Equal
    }
}

/// The position of a value's variant in the order of the variants.
pub open spec fn rank(v: ValueView) -> int {
    match v {
        ValueView::Null => 0,
        ValueView::Boolean(_) => 1,
        ValueView::Number(_) => 2,
        ValueView::Text(_) => 3,
        ValueView::List(_) => 4,
        ValueView::Mapping(_) => 5,
    }
}

/// A double that is not NaN, as an integer that orders as the double does:
/// its magnitude bits, negated where the sign bit is set; both zeros give 0.
pub open spec fn number_key(b: u64) -> int {
    let mag = b & 0x7fff_ffff_ffff_ffffu64;
    if (b & 0x8000_0000_0000_0000u64) != 0 {
        -(mag as int)
    } else {
        mag as int
    }
}

/// IEEE-754 comparison of two doubles given by their bits: none where either is NaN.
pub open spec fn number_cmp(a: u64, b: u64) -> Option<Ordering> {
    if is_nan(a) || is_nan(b) {
        None
    } else {
        Some(int_cmp(number_key(a), number_key(b)))
    }
}

/// Lexicographic order of strings by code point.
pub open spec fn text_cmp(a: Seq<char>, b: Seq<char>) -> Ordering {
    if key_lt(a, b) {
        Ordering::Less
    } else if a == b {
        Ordering::Equal
    } else {
        Ordering::Greater
    }
}

/// The structural partial order: first by variant, then by payload; lists and
/// maps lexicographically by element and by (key, value) entry.
pub open spec fn value_cmp(a: ValueView, b: ValueView) -> Option<Ordering>
    decreases a,
{
    if rank(a) != rank(b) {
        Some(int_cmp(rank(a), rank(b)))
    } else {
        match (a, b) {
            (ValueView::Boolean(x), ValueView::Boolean(y)) => Some(
                int_cmp(if x { 1 } else { 0 }, if y { 1 } else { 0 }),
            ),
            (ValueView::Number(x), ValueView::Number(y)) => number_cmp(x, y),
            (ValueView::Text(x), ValueView::Text(y)) => Some(text_cmp(x, y)),
            (ValueView::List(xs), ValueView::List(ys)) => items_cmp(xs, ys),
            (ValueView::Mapping(es), ValueView::Mapping(fs)) => entries_cmp(es, fs),
            _ => Some(Ordering::Equal),
        }
    }
}

/// Lexicographic order of sequences: the first pair of elements that is not
/// equal decides, and otherwise the shorter sequence comes first.
pub open spec fn items_cmp(xs: Seq<ValueView>, ys: Seq<ValueView>) -> Option<Ordering>
    decreases xs,
{
    if xs.len() == 0 || ys.len() == 0 {
        Some(int_cmp(xs.len() as int, ys.len() as int))
    } else {
        match value_cmp(xs[0], ys[0]) {
            Some(Ordering::Equal) => items_cmp(
                xs.subrange(1, xs.len() as int),
                ys.subrange(1, ys.len() as int),
            ),
            o => o,
        }
    }
}

/// Lexicographic order of entry sequences, each entry by key and then by value.
pub open spec fn entries_cmp(
    es: Seq<(Seq<char>, ValueView)>,
    fs: Seq<(Seq<char>, ValueView)>,
) -> Option<Ordering>
    decreases es,
{
    if es.len() == 0 || fs.len() == 0 {
        Some(int_cmp(es.len() as int, fs.len() as int))
    } else if text_cmp(es[0].0, fs[0].0) != Ordering::Equal {
        Some(text_cmp(es[0].0, fs[0].0))
    } else {
        match value_cmp(es[0].1, fs[0].1) {
            Some(Ordering::Equal) => entries_cmp(
                es.subrange(1, es.len() as int),
                fs.subrange(1, fs.len() as int),
            ),
            o => o,
        }
    }
}

fn ints_cmp(a: i128, b: i128) -> (r: Ordering)
    ensures
        r == int_cmp(a as int, b as int),
{
    if a < b {
        Ordering::Less
    } else if a > b {
        Ordering::Greater
    } else {
        Ordering::Equal
    }
}

fn rank_of(v: &Value) -> (r: i128)
    ensures
        r == rank(v@),
{
    match v {
        Value::Null => 0,
        Value::Boolean(_) => 1,
        Value::Number(_) => 2,
        Value::String(_) => 3,
        Value::List(_) => 4,
        Value::Mapping(_) => 5,
    }
}

fn numbers_cmp(a: u64, b: u64) -> (r: Option<Ordering>)
    ensures
        r == number_cmp(a, b),
{
    let nan_a = (a & 0x7ff0_0000_0000_0000u64) == 0x7ff0_0000_0000_0000u64 && (a
        & 0x000f_ffff_ffff_ffffu64) != 0;
    let nan_b = (b & 0x7ff0_0000_0000_0000u64) == 0x7ff0_0000_0000_0000u64 && (b
        & 0x000f_ffff_ffff_ffffu64) != 0;
    if nan_a || nan_b {
        return None;
    }
    let ma = (a & 0x7fff_ffff_ffff_ffffu64) as i128;
    let mb = (b & 0x7fff_ffff_ffff_ffffu64) as i128;
    let ka: i128 = if (a & 0x8000_0000_0000_0000u64) != 0 { -ma } else { ma };
    let kb: i128 = if (b & 0x8000_0000_0000_0000u64) != 0 { -mb } else { mb };
    Some(ints_cmp(ka, kb))
}

fn texts_cmp(a: &str, b: &str) -> (r: Ordering)
    ensures
        r == text_cmp(a@, b@),
{
    if key_less(a, b) {
        Ordering::Less
    } else if key_less(b, a) {
        proof {
            crate::keys::lemma_key_lt_irreflexive(a@);
        }
        Ordering::Greater
    } else {
        proof {
            if a@ != b@ {
                crate::keys::lemma_key_lt_total(a@, b@);
            }
        }
        Ordering::Equal
    }
}

fn values_cmp(a: &Value, b: &Value) -> (r: Option<Ordering>)
    ensures
        r == value_cmp(a@, b@),
    decreases a,
{
    let ra = rank_of(a);
    let rb = rank_of(b);
    if ra != rb {
        return Some(ints_cmp(ra, rb));
    }
    match (a, b) {
        (Value::Boolean(x), Value::Boolean(y)) => {
            Some(ints_cmp(if *x { 1 } else { 0 }, if *y { 1 } else { 0 }))
        },
        (Value::Number(x), Value::Number(y)) => numbers_cmp(*x, *y),
        (Value::String(x), Value::String(y)) => Some(texts_cmp(x.as_str(), y.as_str())),
        (Value::List(xs), Value::List(ys)) => {
            proof {
                lemma_list_view(xs@);
                lemma_list_view(ys@);
            }
            let ghost lx = list_view(xs@);
            let ghost ly = list_view(ys@);
            let mut i: usize = 0;
            proof {
                assert(lx.subrange(0, lx.len() as int) =~= lx);
                assert(ly.subrange(0, ly.len() as int) =~= ly);
            }
            while i < xs.len() && i < ys.len()
                invariant
                    *a == Value::List(*xs),
                    *b == Value::List(*ys),
                    lx == list_view(xs@),
                    ly == list_view(ys@),
                    lx.len() == xs@.len(),
                    ly.len() == ys@.len(),
                    forall|j: int| 0 <= j < xs@.len() ==> #[trigger] lx[j] == xs@[j]@,
                    forall|j: int| 0 <= j < ys@.len() ==> #[trigger] ly[j] == ys@[j]@,
                    i <= xs.len(),
                    i <= ys.len(),
                    items_cmp(lx, ly) == items_cmp(
                        lx.subrange(i as int, lx.len() as int),
                        ly.subrange(i as int, ly.len() as int),
                    ),
                decreases xs.len() - i,
            {
                proof {
                    assert(a->List_0 == *xs);
                    assert(decreases_to!(*a => a->List_0));
                    assert(decreases_to!(*xs => xs[i as int]));
                    let sx = lx.subrange(i as int, lx.len() as int);
                    let sy = ly.subrange(i as int, ly.len() as int);
                    assert(sx[0] == xs@[i as int]@);
                    assert(sy[0] == ys@[i as int]@);
                    assert(sx.subrange(1, sx.len() as int) =~= lx.subrange(i + 1, lx.len() as int));
                    assert(sy.subrange(1, sy.len() as int) =~= ly.subrange(i + 1, ly.len() as int));
                }
                let c = values_cmp(&xs[i], &ys[i]);
                match c {
                    Some(Ordering::Equal) => {},
                    _ => {
                        return c;
                    },
                }
                i = i + 1;
            }
            Some(ints_cmp((xs.len() - i) as i128, (ys.len() - i) as i128))
        },
        (Value::Mapping(es), Value::Mapping(fs)) => {
            proof {
                lemma_entries_view(es@);
                lemma_entries_view(fs@);
            }
            let ghost le = entries_view(es@);
            let ghost lf = entries_view(fs@);
            let mut i: usize = 0;
            proof {
                assert(le.subrange(0, le.len() as int) =~= le);
                assert(lf.subrange(0, lf.len() as int) =~= lf);
            }
            while i < es.len() && i < fs.len()
                invariant
                    *a == Value::Mapping(*es),
                    *b == Value::Mapping(*fs),
                    le == entries_view(es@),
                    lf == entries_view(fs@),
                    le.len() == es@.len(),
                    lf.len() == fs@.len(),
                    forall|j: int| 0 <= j < es@.len() ==> #[trigger] le[j] == (es@[j].0@, es@[j].1@),
                    forall|j: int| 0 <= j < fs@.len() ==> #[trigger] lf[j] == (fs@[j].0@, fs@[j].1@),
                    i <= es.len(),
                    i <= fs.len(),
                    entries_cmp(le, lf) == entries_cmp(
                        le.subrange(i as int, le.len() as int),
                        lf.subrange(i as int, lf.len() as int),
                    ),
                decreases es.len() - i,
            {
                proof {
                    assert(a->Mapping_0 == *es);
                    assert(decreases_to!(*a => a->Mapping_0));
                    assert(decreases_to!(*es => es[i as int]));
                    assert(decreases_to!(es[i as int] => es[i as int].1));
                    let se = le.subrange(i as int, le.len() as int);
                    let sf = lf.subrange(i as int, lf.len() as int);
                    assert(se[0] == (es@[i as int].0@, es@[i as int].1@));
                    assert(sf[0] == (fs@[i as int].0@, fs@[i as int].1@));
                    assert(se.subrange(1, se.len() as int) =~= le.subrange(i + 1, le.len() as int));
                    assert(sf.subrange(1, sf.len() as int) =~= lf.subrange(i + 1, lf.len() as int));
                }
                let kc = texts_cmp(es[i].0.as_str(), fs[i].0.as_str());
                match kc {
                    Ordering::Equal => {},
                    _ => {
                        return Some(kc);
                    },
                }
                let c = values_cmp(&es[i].1, &fs[i].1);
                match c {
                    Some(Ordering::Equal) => {},
                    _ => {
                        return c;
                    },
                }
                i = i + 1;
            }
            Some(ints_cmp((es.len() - i) as i128, (fs.len() - i) as i128))
        },
        _ => Some(Ordering::Equal),
    }
}

impl PartialOrd for Value {
    fn partial_cmp(&self, other: &Value) -> (r: Option<Ordering>) {
        values_cmp(self, other)
    }
}

impl vstd::std_specs::cmp::PartialOrdSpecImpl for Value {
    open spec fn obeys_partial_cmp_spec() -> bool {
        true
    }

    open spec fn partial_cmp_spec(&self, other: &Value) -> Option<Ordering> {
        value_cmp(self@, other@)
    }
}

} // verus!
