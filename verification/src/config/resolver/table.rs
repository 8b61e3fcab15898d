//! Which definitions of a document references can name, in which order
//! they are looked up, and which are warned about when nothing uses them.

use vstd::prelude::*;
use crate::config::document::{elements_view, vars_view, ElementDef, ElementDefView, ElementKind, Outline, VarDefView};

verus! {

/// The positions of the definitions of kind `k`, in document order.
pub open spec fn kind_positions(es: Seq<ElementDefView>, k: ElementKind) -> Seq<int>
    decreases es.len(),
{
    if es.len() == 0 {
        seq![]
    } else {
        kind_positions(es.drop_last(), k) + if es.last().kind == k { seq![es.len() - 1] } else { seq![] }
    }
}

pub open spec fn ints(s: Seq<usize>) -> Seq<int> {
    s.map_values(|x: usize| x as int)
}

/// The definitions a reference can name, in the order they are looked up:
/// texts, containers, buttons, rows, then columns, each kind in document
/// order.
pub open spec fn lookup_order(es: Seq<ElementDefView>) -> Seq<int> {
    kind_positions(es, ElementKind::Text) + kind_positions(es, ElementKind::Container)
        + kind_positions(es, ElementKind::Button) + kind_positions(es, ElementKind::Row)
        + kind_positions(es, ElementKind::Column)
}

/// The definitions warned about when nothing uses them: the variables,
/// then the containers, buttons, rows, columns, texts, styles, borders and
/// shadows, each kind in document order; each is an id and whether it is a
/// variable.
pub open spec fn unused_candidates_of(vs: Seq<VarDefView>, es: Seq<ElementDefView>) -> Seq<(Seq<char>, bool)> {
    let ps = kind_positions(es, ElementKind::Container) + kind_positions(es, ElementKind::Button)
        + kind_positions(es, ElementKind::Row) + kind_positions(es, ElementKind::Column)
        + kind_positions(es, ElementKind::Text) + kind_positions(es, ElementKind::Style)
        + kind_positions(es, ElementKind::Border) + kind_positions(es, ElementKind::Shadow);
    vs.map_values(|v: VarDefView| (v.name, true)) + ps.map_values(|p: int| (es[p].id, false))
}

proof fn lemma_positions_in_range(es: Seq<ElementDefView>, k: ElementKind)
    ensures
        forall|j: int| 0 <= j < kind_positions(es, k).len() ==> 0 <= #[trigger] kind_positions(es, k)[j] < es.len(),
    decreases es.len(),
{
    if es.len() > 0 {
        lemma_positions_in_range(es.drop_last(), k);
        let a = kind_positions(es.drop_last(), k);
        let b: Seq<int> = if es.last().kind == k { seq![es.len() - 1] } else { seq![] };
        assert forall|j: int| 0 <= j < (a + b).len() implies 0 <= #[trigger] (a + b)[j] < es.len() by {
            if j < a.len() {
                assert((a + b)[j] == a[j]);
            } else {
                assert((a + b)[j] == b[j - a.len()]);
            }
        }
    }
}

/// Adds the positions of the definitions of kind `k` to `out`.
fn push_positions(es: &Vec<ElementDef>, k: ElementKind, out: &mut Vec<usize>)
    ensures
        ints(final(out)@) == ints(old(out)@) + kind_positions(elements_view(es@), k),
{
    let ghost ev = elements_view(es@);
    let ghost o0 = ints(out@);
    let mut i: usize = 0;
    proof {
        assert(ev.take(0) =~= Seq::<ElementDefView>::empty());
        assert(o0 + Seq::<int>::empty() =~= o0);
    }
    while i < es.len()
        invariant
            i <= es@.len(),
            ev == elements_view(es@),
            ints(out@) == o0 + kind_positions(ev.take(i as int), k),
        decreases es@.len() - i,
    {
        proof {
            assert(ev.take(i + 1).drop_last() =~= ev.take(i as int));
            assert(ev.take(i + 1).last() == ev[i as int]);
        }
        let ghost before = out@;
        if es[i].kind == k {
            out.push(i);
            proof {
                assert(ints(out@) =~= ints(before).push(i as int));
                assert(kind_positions(ev.take(i + 1), k) =~= kind_positions(ev.take(i as int), k).push(i as int));
            }
        } else {
            proof {
                assert(kind_positions(ev.take(i + 1), k) =~= kind_positions(ev.take(i as int), k));
            }
        }
        i = i + 1;
    }
    proof {
        assert(ev.take(i as int) =~= ev);
    }
}

/// The positions of the definitions a reference can name, in the order
/// they are looked up.
pub fn lookup_positions(o: &Outline) -> (r: Vec<usize>)
    ensures
        ints(r@) == lookup_order(o@.elements),
{
    let mut out: Vec<usize> = Vec::new();
    proof {
        assert(ints(out@) =~= Seq::<int>::empty());
    }
    push_positions(&o.elements, ElementKind::Text, &mut out);
    push_positions(&o.elements, ElementKind::Container, &mut out);
    push_positions(&o.elements, ElementKind::Button, &mut out);
    push_positions(&o.elements, ElementKind::Row, &mut out);
    push_positions(&o.elements, ElementKind::Column, &mut out);
    proof {
        let es = o@.elements;
        assert(Seq::<int>::empty() + kind_positions(es, ElementKind::Text) =~= kind_positions(es, ElementKind::Text));
    }
    out
}

/// The one definition a text read as a document defines that a reference
/// can name, when it defines exactly one.
pub fn single_element(o: &Outline) -> (r: Option<usize>)
    ensures
        lookup_order(o@.elements).len() == 1 ==> r == Some(lookup_order(o@.elements)[0] as usize),
        lookup_order(o@.elements).len() != 1 ==> r is None,
{
    let ps = lookup_positions(o);
    if ps.len() == 1 {
        proof {
            assert(ints(ps@)[0] == ps@[0] as int);
        }
        Some(ps[0])
    } else {
        None
    }
}

pub open spec fn decls_view(s: Seq<(String, bool)>) -> Seq<(Seq<char>, bool)> {
    s.map_values(|d: (String, bool)| (d.0@, d.1))
}

/// The definitions warned about when nothing uses them, in order.
pub fn unused_candidates(o: &Outline) -> (r: Vec<(String, bool)>)
    ensures
        decls_view(r@) == unused_candidates_of(o@.vars, o@.elements),
{
    let ghost vv = vars_view(o.vars@);
    let ghost ev = elements_view(o.elements@);
    let mut out: Vec<(String, bool)> = Vec::new();
    let mut i: usize = 0;
    proof {
        assert(decls_view(out@) =~= vv.take(0).map_values(|v: VarDefView| (v.name, true)));
    }
    while i < o.vars.len()
        invariant
            i <= o.vars@.len(),
            vv == vars_view(o.vars@),
            decls_view(out@) == vv.take(i as int).map_values(|v: VarDefView| (v.name, true)),
        decreases o.vars@.len() - i,
    {
        let ghost before = out@;
        out.push((o.vars[i].name.clone(), true));
        proof {
            assert(decls_view(out@) =~= decls_view(before).push((vv[i as int].name, true)));
            assert(vv.take(i + 1).map_values(|v: VarDefView| (v.name, true))
                =~= vv.take(i as int).map_values(|v: VarDefView| (v.name, true)).push((vv[i as int].name, true)));
        }
        i = i + 1;
    }
    proof {
        assert(vv.take(i as int) =~= vv);
    }
    let mut ps: Vec<usize> = Vec::new();
    proof {
        assert(ints(ps@) =~= Seq::<int>::empty());
    }
    push_positions(&o.elements, ElementKind::Container, &mut ps);
    push_positions(&o.elements, ElementKind::Button, &mut ps);
    push_positions(&o.elements, ElementKind::Row, &mut ps);
    push_positions(&o.elements, ElementKind::Column, &mut ps);
    push_positions(&o.elements, ElementKind::Text, &mut ps);
    push_positions(&o.elements, ElementKind::Style, &mut ps);
    push_positions(&o.elements, ElementKind::Border, &mut ps);
    push_positions(&o.elements, ElementKind::Shadow, &mut ps);
    let ghost pv = ints(ps@);
    let ghost head = decls_view(out@);
    proof {
        assert(pv =~= kind_positions(ev, ElementKind::Container) + kind_positions(ev, ElementKind::Button)
            + kind_positions(ev, ElementKind::Row) + kind_positions(ev, ElementKind::Column)
            + kind_positions(ev, ElementKind::Text) + kind_positions(ev, ElementKind::Style)
            + kind_positions(ev, ElementKind::Border) + kind_positions(ev, ElementKind::Shadow));
        lemma_positions_in_range(ev, ElementKind::Container);
        lemma_positions_in_range(ev, ElementKind::Button);
        lemma_positions_in_range(ev, ElementKind::Row);
        lemma_positions_in_range(ev, ElementKind::Column);
        lemma_positions_in_range(ev, ElementKind::Text);
        lemma_positions_in_range(ev, ElementKind::Style);
        lemma_positions_in_range(ev, ElementKind::Border);
        lemma_positions_in_range(ev, ElementKind::Shadow);
        assert forall|j: int| 0 <= j < pv.len() implies 0 <= #[trigger] pv[j] < ev.len() by {
            let a = kind_positions(ev, ElementKind::Container);
            let b = kind_positions(ev, ElementKind::Button);
            let c = kind_positions(ev, ElementKind::Row);
            let d = kind_positions(ev, ElementKind::Column);
            let e = kind_positions(ev, ElementKind::Text);
            let f = kind_positions(ev, ElementKind::Style);
            let g = kind_positions(ev, ElementKind::Border);
            let h = kind_positions(ev, ElementKind::Shadow);
            if j < a.len() {
                assert(pv[j] == a[j]);
            } else if j < a.len() + b.len() {
                assert(pv[j] == b[j - a.len()]);
            } else if j < a.len() + b.len() + c.len() {
                assert(pv[j] == c[j - a.len() - b.len()]);
            } else if j < a.len() + b.len() + c.len() + d.len() {
                assert(pv[j] == d[j - a.len() - b.len() - c.len()]);
            } else if j < a.len() + b.len() + c.len() + d.len() + e.len() {
                assert(pv[j] == e[j - a.len() - b.len() - c.len() - d.len()]);
            } else if j < a.len() + b.len() + c.len() + d.len() + e.len() + f.len() {
                assert(pv[j] == f[j - a.len() - b.len() - c.len() - d.len() - e.len()]);
            } else if j < a.len() + b.len() + c.len() + d.len() + e.len() + f.len() + g.len() {
                assert(pv[j] == g[j - a.len() - b.len() - c.len() - d.len() - e.len() - f.len()]);
            } else {
                assert(pv[j] == h[j - a.len() - b.len() - c.len() - d.len() - e.len() - f.len() - g.len()]);
            }
        }
    }
    let mut k: usize = 0;
    while k < ps.len()
        invariant
            k <= ps@.len(),
            pv == ints(ps@),
            ev == elements_view(o.elements@),
            forall|j: int| 0 <= j < pv.len() ==> 0 <= #[trigger] pv[j] < ev.len(),
            decls_view(out@) == head + pv.take(k as int).map_values(|p: int| (ev[p].id, false)),
        decreases ps@.len() - k,
    {
        let p = ps[k];
        proof {
            assert(pv[k as int] == p as int);
        }
        let ghost before = out@;
        out.push((o.elements[p].id.clone(), false));
        proof {
            assert(decls_view(out@) =~= decls_view(before).push((ev[p as int].id, false)));
            assert(pv.take(k + 1).map_values(|q: int| (ev[q].id, false))
                =~= pv.take(k as int).map_values(|q: int| (ev[q].id, false)).push((ev[p as int].id, false)));
        }
        k = k + 1;
    }
    proof {
        assert(pv.take(k as int) =~= pv);
    }
    out
}


/// The kinds a reference can name.
pub open spec fn nameable(k: ElementKind) -> bool {
    k is Text || k is Container || k is Button || k is Row || k is Column
}

proof fn lemma_kind_positions_exact(es: Seq<ElementDefView>, k: ElementKind, i: int)
    ensures
        kind_positions(es, k).contains(i) <==> (0 <= i < es.len() && es[i].kind == k),
    decreases es.len(),
{
    if es.len() > 0 {
        let a = kind_positions(es.drop_last(), k);
        let b: Seq<int> = if es.last().kind == k { seq![es.len() - 1] } else { seq![] };
        lemma_kind_positions_exact(es.drop_last(), k, i);
        lemma_positions_in_range(es.drop_last(), k);
        if (a + b).contains(i) {
            let j = choose|j: int| 0 <= j < (a + b).len() && (a + b)[j] == i;
            if j < a.len() {
                assert(a[j] == i);
            } else {
                assert(b[j - a.len()] == i);
            }
        }
        if 0 <= i < es.len() && es[i].kind == k {
            if i < es.len() - 1 {
                let j = choose|j: int| 0 <= j < a.len() && a[j] == i;
                assert((a + b)[j] == i);
            } else {
                assert((a + b)[a.len() as int] == i);
            }
        }
    }
}

proof fn lemma_kind_positions_distinct(es: Seq<ElementDefView>, k: ElementKind)
    ensures
        forall|x: int, y: int| 0 <= x < y < kind_positions(es, k).len() ==> kind_positions(es, k)[x] < kind_positions(es, k)[y],
    decreases es.len(),
{
    if es.len() > 0 {
        lemma_kind_positions_distinct(es.drop_last(), k);
        lemma_positions_in_range(es.drop_last(), k);
        let a = kind_positions(es.drop_last(), k);
        let b: Seq<int> = if es.last().kind == k { seq![es.len() - 1] } else { seq![] };
        assert forall|x: int, y: int| 0 <= x < y < (a + b).len() implies (a + b)[x] < (a + b)[y] by {
            if y >= a.len() {
                assert((a + b)[y] == es.len() - 1);
                assert((a + b)[x] == a[x]);
                assert(a[x] < es.drop_last().len());
            }
        }
    }
}

/// Exactly the texts, containers, buttons, rows and columns of a document
/// can be named by a reference, each once: the lookup order holds the
/// position of every definition of those kinds, and no other position.
pub proof fn law_lookup_holds_every_nameable(es: Seq<ElementDefView>, i: int)
    ensures
        lookup_order(es).contains(i) <==> (0 <= i < es.len() && nameable(es[i].kind)),
{
    let ks = seq![ElementKind::Text, ElementKind::Container, ElementKind::Button, ElementKind::Row, ElementKind::Column];
    let t = kind_positions(es, ElementKind::Text);
    let c = kind_positions(es, ElementKind::Container);
    let b = kind_positions(es, ElementKind::Button);
    let r = kind_positions(es, ElementKind::Row);
    let l = kind_positions(es, ElementKind::Column);
    lemma_kind_positions_exact(es, ElementKind::Text, i);
    lemma_kind_positions_exact(es, ElementKind::Container, i);
    lemma_kind_positions_exact(es, ElementKind::Button, i);
    lemma_kind_positions_exact(es, ElementKind::Row, i);
    lemma_kind_positions_exact(es, ElementKind::Column, i);
    let all = t + c + b + r + l;
    assert(all == lookup_order(es));
    if all.contains(i) {
        let j = choose|j: int| 0 <= j < all.len() && all[j] == i;
        if j < t.len() {
            assert(t[j] == i);
        } else if j < t.len() + c.len() {
            assert(c[j - t.len()] == i);
        } else if j < t.len() + c.len() + b.len() {
            assert(b[j - t.len() - c.len()] == i);
        } else if j < t.len() + c.len() + b.len() + r.len() {
            assert(r[j - t.len() - c.len() - b.len()] == i);
        } else {
            assert(l[j - t.len() - c.len() - b.len() - r.len()] == i);
        }
    }
    if 0 <= i < es.len() && nameable(es[i].kind) {
        if t.contains(i) {
            let j = choose|j: int| 0 <= j < t.len() && t[j] == i;
            assert(all[j] == i);
        } else if c.contains(i) {
            let j = choose|j: int| 0 <= j < c.len() && c[j] == i;
            assert(all[t.len() + j] == i);
        } else if b.contains(i) {
            let j = choose|j: int| 0 <= j < b.len() && b[j] == i;
            assert(all[t.len() + c.len() + j] == i);
        } else if r.contains(i) {
            let j = choose|j: int| 0 <= j < r.len() && r[j] == i;
            assert(all[t.len() + c.len() + b.len() + j] == i);
        } else {
            let j = choose|j: int| 0 <= j < l.len() && l[j] == i;
            assert(all[t.len() + c.len() + b.len() + r.len() + j] == i);
        }
    }
}

/// Within one kind, definitions are looked up in document order: of two
/// texts (or two containers, …), the earlier one comes first.
pub proof fn law_lookup_in_document_order(es: Seq<ElementDefView>, k: ElementKind)
    ensures
        forall|x: int, y: int| 0 <= x < y < kind_positions(es, k).len() ==> kind_positions(es, k)[x] < kind_positions(es, k)[y],
        forall|i: int| kind_positions(es, k).contains(i) <==> (0 <= i < es.len() && es[i].kind == k),
{
    lemma_kind_positions_distinct(es, k);
    assert forall|i: int| kind_positions(es, k).contains(i) <==> (0 <= i < es.len() && es[i].kind == k) by {
        lemma_kind_positions_exact(es, k, i);
    }
}

/// The definitions warned about when unused are every variable and every
/// container, button, row, column, text, style, border and shadow (fonts
/// and widgets are not).
pub proof fn law_unused_candidates_cover(vs: Seq<VarDefView>, es: Seq<ElementDefView>, i: int, j: int)
    ensures
        0 <= j < vs.len() ==> unused_candidates_of(vs, es).contains((vs[j].name, true)),
        0 <= i < es.len() && (nameable(es[i].kind) || es[i].kind is Style || es[i].kind is Border || es[i].kind is Shadow)
            ==> unused_candidates_of(vs, es).contains((es[i].id, false)),
        unused_candidates_of(vs, es).len() == vs.len() + kind_positions(es, ElementKind::Container).len()
            + kind_positions(es, ElementKind::Button).len() + kind_positions(es, ElementKind::Row).len()
            + kind_positions(es, ElementKind::Column).len() + kind_positions(es, ElementKind::Text).len()
            + kind_positions(es, ElementKind::Style).len() + kind_positions(es, ElementKind::Border).len()
            + kind_positions(es, ElementKind::Shadow).len(),
{
    let head = vs.map_values(|v: VarDefView| (v.name, true));
    let c = kind_positions(es, ElementKind::Container);
    let b = kind_positions(es, ElementKind::Button);
    let r = kind_positions(es, ElementKind::Row);
    let l = kind_positions(es, ElementKind::Column);
    let t = kind_positions(es, ElementKind::Text);
    let st = kind_positions(es, ElementKind::Style);
    let bo = kind_positions(es, ElementKind::Border);
    let sh = kind_positions(es, ElementKind::Shadow);
    let ps = c + b + r + l + t + st + bo + sh;
    let tail = ps.map_values(|p: int| (es[p].id, false));
    let all = head + tail;
    assert(all == unused_candidates_of(vs, es));
    if 0 <= j < vs.len() {
        assert(all[j] == (vs[j].name, true));
    }
    if 0 <= i < es.len() && (nameable(es[i].kind) || es[i].kind is Style || es[i].kind is Border || es[i].kind is Shadow) {
        let k = es[i].kind;
        lemma_kind_positions_exact(es, k, i);
        let kp = kind_positions(es, k);
        let m = choose|m: int| 0 <= m < kp.len() && kp[m] == i;
        let off: int = if k is Container { 0 } else if k is Button { c.len() as int } else if k is Row { (c.len() + b.len()) as int }
            else if k is Column { (c.len() + b.len() + r.len()) as int } else if k is Text { (c.len() + b.len() + r.len() + l.len()) as int }
            else if k is Style { (c.len() + b.len() + r.len() + l.len() + t.len()) as int }
            else if k is Border { (c.len() + b.len() + r.len() + l.len() + t.len() + st.len()) as int }
            else { (c.len() + b.len() + r.len() + l.len() + t.len() + st.len() + bo.len()) as int };
        assert(ps[off + m] == i);
        assert(tail[off + m] == (es[i].id, false));
        assert(all[head.len() + off + m] == (es[i].id, false));
    }
}

} // verus!
