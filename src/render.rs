use vstd::prelude::*;

use crate::value::{Value, ValueView, list_view, entries_view, lemma_list_view, lemma_entries_view};

verus! {

broadcast use {
    vstd::std_specs::vec::axiom_vec_index_decreases,
    vstd::seq::axiom_seq_index_decreases,
    vstd::seq::axiom_seq_subrange_decreases,
};

/// A character as it stands inside a rendered string: backslash and double
/// quote get a backslash before them, every other character stands as it is.
pub open spec fn escape_char(c: char) -> Seq<char> {
    if c == '\\' {
        seq!['\\', '\\']
    } else if c == '"' {
        seq!['\\', '"']
    } else {
        seq![c]
    }
}

/// A string's characters, each escaped.
pub open spec fn escape(s: Seq<char>) -> Seq<char>
    decreases s.len(),
{
    if s.len() == 0 {
        Seq::empty()
    } else {
        escape(s.drop_last()) + escape_char(s.last())
    }
}

/// The text of a value. A number is its text under `nt`, in double quotes;
/// every list element and every map entry is followed by a comma.
pub open spec fn render(v: ValueView, nt: spec_fn(u64) -> Seq<char>) -> Seq<char>
    decreases v,
{
    match v {
        ValueView::Null => seq!['n', 'u', 'l', 'l'],
        ValueView::Boolean(b) => if b {
            seq!['t', 'r', 'u', 'e']
        } else {
            seq!['f', 'a', 'l', 's', 'e']
        },
        ValueView::Number(n) => seq!['"'] + nt(n) + seq!['"'],
        ValueView::Text(s) => seq!['"'] + escape(s) + seq!['"'],
        ValueView::List(xs) => seq!['['] + render_items(xs, nt) + seq![']'],
        ValueView::Mapping(es) => seq!['{'] + render_entries(es, nt) + seq!['}'],
    }
}

/// Each element's text followed by a comma.
pub open spec fn render_items(xs: Seq<ValueView>, nt: spec_fn(u64) -> Seq<char>) -> Seq<char>
    decreases xs,
{
    if xs.len() == 0 {
        Seq::empty()
    } else {
        render_items(xs.subrange(0, xs.len() - 1), nt) + render(xs[xs.len() - 1], nt) + seq![',']
    }
}

/// Each entry as `"key":value` followed by a comma.
pub open spec fn render_entries(
    es: Seq<(Seq<char>, ValueView)>,
    nt: spec_fn(u64) -> Seq<char>,
) -> Seq<char>
    decreases es,
{
    if es.len() == 0 {
        Seq::empty()
    } else {
        render_entries(es.subrange(0, es.len() - 1), nt) + seq!['"'] + es[es.len() - 1].0
            + seq!['"', ':'] + render(es[es.len() - 1].1, nt) + seq![',']
    }
}

/// `f` gives equal texts for equal bits.
pub open spec fn deterministic<F: Fn(u64) -> String>(f: F) -> bool {
    forall|b: u64, s1: String, s2: String|
        f.ensures((b,), s1) && f.ensures((b,), s2) ==> s1@ == s2@
}

/// The text that `f` gives for each number.
pub open spec fn text_fn<F: Fn(u64) -> String>(f: F) -> spec_fn(u64) -> Seq<char> {
    |b: u64| (choose|s: String| f.ensures((b,), s))@
}

fn write_escaped(s: &str, out: &mut String)
    ensures
        final(out)@ == old(out)@ + escape(s@),
{
    let n = s.unicode_len();
    let mut i: usize = 0;
    let ghost start = out@;
    while i < n
        invariant
            n == s@.len(),
            i <= n,
            out@ == start + escape(s@.subrange(0, i as int)),
        decreases n - i,
    {
        let c = s.get_char(i);
        proof {
            let t = s@.subrange(0, i + 1);
            assert(t.drop_last() =~= s@.subrange(0, i as int));
        }
        if c == '\\' {
            proof {
                reveal_strlit("\\\\");
            }
            out.append("\\\\");
        } else if c == '"' {
            proof {
                reveal_strlit("\\\"");
            }
            out.append("\\\"");
        } else {
            let one = s.substring_char(i, i + 1);
            assert(one@ =~= seq![c]);
            out.append(one);
        }
        i = i + 1;
        assert(out@ =~= start + escape(s@.subrange(0, i as int)));
    }
    assert(s@.subrange(0, n as int) =~= s@);
}

fn write_value<F: Fn(u64) -> String>(v: &Value, f: &F, out: &mut String)
    requires
        forall|b: u64| f.requires((b,)),
        deterministic(*f),
    ensures
        final(out)@ == old(out)@ + render(v@, text_fn(*f)),
    decreases v,
{
    let ghost start = out@;
    let ghost nt = text_fn(*f);
    match v {
        Value::Null => {
            proof {
                reveal_strlit("null");
            }
            out.append("null");
            assert(out@ =~= start + render(v@, nt));
        },
        Value::Boolean(b) => {
            if *b {
                proof {
                    reveal_strlit("true");
                }
                out.append("true");
            } else {
                proof {
                    reveal_strlit("false");
                }
                out.append("false");
            }
            assert(out@ =~= start + render(v@, nt));
        },
        Value::Number(n) => {
            let t = f(*n);
            proof {
                reveal_strlit("\"");
                let w = choose|s: String| f.ensures((*n,), s);
                assert(f.ensures((*n,), w));
                assert(nt(*n) == t@);
            }
            out.append("\"");
            out.append(t.as_str());
            out.append("\"");
            assert(out@ =~= start + render(v@, nt));
        },
        Value::String(s) => {
            proof {
                reveal_strlit("\"");
            }
            out.append("\"");
            write_escaped(s.as_str(), out);
            out.append("\"");
            assert(out@ =~= start + render(v@, nt));
        },
        Value::List(xs) => {
            proof {
                reveal_strlit("[");
                reveal_strlit(",");
                reveal_strlit("]");
                lemma_list_view(xs@);
            }
            let ghost lv = list_view(xs@);
            out.append("[");
            let mut i: usize = 0;
            while i < xs.len()
                invariant
                    forall|b: u64| f.requires((b,)),
                    deterministic(*f),
                    nt == text_fn(*f),
                    *v == Value::List(*xs),
                    lv == list_view(xs@),
                    lv.len() == xs@.len(),
                    forall|j: int| 0 <= j < xs@.len() ==> #[trigger] lv[j] == xs@[j]@,
                    i <= xs.len(),
                    out@ == start + seq!['['] + render_items(lv.subrange(0, i as int), nt),
                decreases xs.len() - i,
            {
                let ghost before = out@;
                proof {
                    reveal_strlit(",");
                    assert(v->List_0 == *xs);
                    assert(decreases_to!(*v => v->List_0));
                    assert(decreases_to!(*xs => xs[i as int]));
                }
                write_value(&xs[i], f, out);
                out.append(",");
                proof {
                    let t = lv.subrange(0, i + 1);
                    assert(t.subrange(0, t.len() - 1) =~= lv.subrange(0, i as int));
                    assert(t[i as int] == xs@[i as int]@);
                    assert(render_items(t, nt) == render_items(lv.subrange(0, i as int), nt)
                        + render(xs@[i as int]@, nt) + seq![',']);
                    assert(out@ == before + render(xs@[i as int]@, nt) + seq![',']);
                }
                i = i + 1;
                assert(out@ =~= start + seq!['['] + render_items(lv.subrange(0, i as int), nt));
            }
            out.append("]");
            assert(lv.subrange(0, xs.len() as int) =~= lv);
            assert(out@ =~= start + render(v@, nt));
        },
        Value::Mapping(es) => {
            proof {
                reveal_strlit("{");
                reveal_strlit("\"");
                reveal_strlit("\":");
                reveal_strlit(",");
                reveal_strlit("}");
                lemma_entries_view(es@);
            }
            let ghost ev = entries_view(es@);
            out.append("{");
            let mut i: usize = 0;
            while i < es.len()
                invariant
                    forall|b: u64| f.requires((b,)),
                    deterministic(*f),
                    nt == text_fn(*f),
                    *v == Value::Mapping(*es),
                    ev == entries_view(es@),
                    ev.len() == es@.len(),
                    forall|j: int| 0 <= j < es@.len() ==> #[trigger] ev[j] == (es@[j].0@, es@[j].1@),
                    i <= es.len(),
                    out@ == start + seq!['{'] + render_entries(ev.subrange(0, i as int), nt),
                decreases es.len() - i,
            {
                let ghost before = out@;
                out.append("\"");
                out.append(es[i].0.as_str());
                out.append("\":");
                proof {
                    reveal_strlit(",");
                    reveal_strlit("\"");
                    reveal_strlit("\":");
                    assert(v->Mapping_0 == *es);
                    assert(decreases_to!(*v => v->Mapping_0));
                    assert(decreases_to!(*es => es[i as int]));
                    assert(decreases_to!(es[i as int] => es[i as int].1));
                }
                write_value(&es[i].1, f, out);
                out.append(",");
                proof {
                    let t = ev.subrange(0, i + 1);
                    assert(t.subrange(0, t.len() - 1) =~= ev.subrange(0, i as int));
                    assert(t[i as int] == (es@[i as int].0@, es@[i as int].1@));
                }
                i = i + 1;
                assert(out@ =~= start + seq!['{'] + render_entries(ev.subrange(0, i as int), nt));
            }
            out.append("}");
            assert(ev.subrange(0, es.len() as int) =~= ev);
            assert(out@ =~= start + render(v@, nt));
        },
    }
}

impl Value {
    /// The text of this value, with `number_text` giving the text of each
    /// number from its bits.
    pub fn render_with<F: Fn(u64) -> String>(&self, number_text: F) -> (r: String)
        requires
            forall|b: u64| number_text.requires((b,)),
            deterministic(number_text),
        ensures
            r@ == render(self@, text_fn(number_text)),
    {
        let mut out = String::new();
        write_value(self, &number_text, &mut out);
        assert(out@ =~= render(self@, text_fn(number_text)));
        out
    }
}

} // verus!
