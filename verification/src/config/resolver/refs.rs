//! Following references from one element to the elements it holds: the
//! walk that finds what a widget shows, and the references that lead
//! nowhere or back to themselves.

use vstd::prelude::*;
use crate::config::document::ElementKind;
use crate::config::resolver::{unused_report, unused_warnings};
use crate::config::{ConfigErrorKind, Severity};
use crate::text::{owned, push_str, str_eq};
use vstd::string::StrSliceExecFns;

verus! {

/// What an element holds of other elements: nothing, one child (a
/// container, a button or a revealer; none when it names no child), or a
/// list of children (a row or a column).
pub enum Content {
    Leaf,
    Child(Option<String>),
    Children(Vec<String>),
}

/// An element a reference can name.
pub struct Referent {
    pub id: String,
    pub kind: ElementKind,
    pub content: Content,
}

/// The elements references can name, in the order they are looked up; the
/// variables whose value is a string (their names and values): a reference
/// to such a variable stands for its value; and the texts that define one
/// element as a configuration document does (each with that element): a
/// reference that is such a text stands for its element.
pub struct RefTable {
    pub elements: Vec<Referent>,
    pub aliases: Vec<(String, String)>,
    pub fragments: Vec<(String, Referent)>,
}

/// One step of the tree a reference resolves to, written out in order: an
/// element begins (the apptray has no kind), and ends after its children.
pub enum Step {
    Open(Option<ElementKind>, String),
    Close,
}

pub enum StepView {
    Open(Option<ElementKind>, Seq<char>),
    Close,
}

/// A reference that cannot be followed.
pub struct RefError {
    pub kind: ConfigErrorKind,
    pub message: String,
}

pub open spec fn step_view(s: Step) -> StepView {
    match s {
        Step::Open(k, id) => StepView::Open(k, id@),
        Step::Close => StepView::Close,
    }
}

pub open spec fn steps_view(s: Seq<Step>) -> Seq<StepView> {
    s.map_values(|x: Step| step_view(x))
}

pub open spec fn errors_view(s: Seq<RefError>) -> Seq<(ConfigErrorKind, Seq<char>)> {
    s.map_values(|e: RefError| (e.kind, e.message@))
}

pub open spec fn circular(r: Seq<char>) -> (ConfigErrorKind, Seq<char>) {
    (ConfigErrorKind::CircularReference, "circular reference detected at \""@ + r + "\""@)
}

pub open spec fn unresolved(r: Seq<char>) -> (ConfigErrorKind, Seq<char>) {
    (ConfigErrorKind::UnresolvedReference, "unresolved reference \""@ + r + "\""@)
}

/// The first element named `r`, from position `from` on.
pub open spec fn find_element(es: Seq<Referent>, r: Seq<char>, from: int) -> Option<int>
    decreases es.len() - from,
{
    if from < 0 || from >= es.len() {
        None
    } else if es[from].id@ == r {
        Some(from)
    } else {
        find_element(es, r, from + 1)
    }
}

/// The first variable named `r`, from position `from` on.
pub open spec fn find_alias(als: Seq<(String, String)>, r: Seq<char>, from: int) -> Option<int>
    decreases als.len() - from,
{
    if from < 0 || from >= als.len() {
        None
    } else if als[from].0@ == r {
        Some(from)
    } else {
        find_alias(als, r, from + 1)
    }
}

/// The first text `r` among the fragments, from position `from` on.
pub open spec fn find_fragment(fs: Seq<(String, Referent)>, r: Seq<char>, from: int) -> Option<int>
    decreases fs.len() - from,
{
    if from < 0 || from >= fs.len() {
        None
    } else if fs[from].0@ == r {
        Some(from)
    } else {
        find_fragment(fs, r, from + 1)
    }
}

/// The references an element holds.
pub open spec fn refs_of(c: Content) -> Seq<Seq<char>> {
    match c {
        Content::Child(Some(x)) => seq![x@],
        Content::Children(cs) => path_view(cs@),
        _ => seq![],
    }
}

/// Whether the references of an element defined by the text `r` are all
/// shorter than `r`, as those written inside a text always are.
pub open spec fn fits(c: Content, r: Seq<char>) -> bool {
    r.len() > 0 && forall|k: int| 0 <= k < refs_of(c).len() ==> (#[trigger] refs_of(c)[k]).len() < r.len()
}

/// The length of the longest of `cs`.
pub open spec fn longest(cs: Seq<Seq<char>>) -> nat
    decreases cs.len(),
{
    if cs.len() == 0 {
        0
    } else if cs.last().len() > longest(cs.drop_last()) {
        cs.last().len()
    } else {
        longest(cs.drop_last())
    }
}

pub proof fn lemma_longest_below(cs: Seq<Seq<char>>, n: nat)
    requires
        forall|k: int| 0 <= k < cs.len() ==> (#[trigger] cs[k]).len() < n,
        n > 0,
    ensures
        longest(cs) < n,
    decreases cs.len(),
{
    if cs.len() > 0 {
        assert forall|k: int| 0 <= k < cs.drop_last().len() implies (#[trigger] cs.drop_last()[k]).len() < n by {
            assert(cs.drop_last()[k] == cs[k]);
        }
        lemma_longest_below(cs.drop_last(), n);
        assert(cs.last() == cs[cs.len() - 1]);
    }
}

/// Every name a reference can be looked up by.
pub open spec fn table_keys(t: RefTable) -> Seq<Seq<char>> {
    t.elements@.map_values(|e: Referent| e.id@) + t.aliases@.map_values(|a: (String, String)| a.0@)
}

/// How many names of `keys` are not yet on the path `path`.
pub open spec fn unvisited(keys: Seq<Seq<char>>, path: Seq<Seq<char>>) -> nat
    decreases keys.len(),
{
    if keys.len() == 0 {
        0
    } else {
        unvisited(keys.drop_last(), path) + if path.contains(keys.last()) { 0nat } else { 1nat }
    }
}

pub proof fn lemma_unvisited_shrinks(keys: Seq<Seq<char>>, path: Seq<Seq<char>>, r: Seq<char>)
    requires
        keys.contains(r),
        !path.contains(r),
    ensures
        unvisited(keys, path.push(r)) < unvisited(keys, path),
    decreases keys.len(),
{
    let k = keys.drop_last();
    assert(path.push(r).contains(r)) by {
        assert(path.push(r)[path.len() as int] == r);
    }
    assert forall|x: Seq<char>| path.contains(x) implies path.push(r).contains(x) by {
        let j = choose|j: int| 0 <= j < path.len() && path[j] == x;
        assert(path.push(r)[j] == x);
    }
    lemma_unvisited_grows(k, path, r);
    if keys.last() != r {
        let i = choose|i: int| 0 <= i < keys.len() && keys[i] == r;
        assert(k[i] == r);
        lemma_unvisited_shrinks(k, path, r);
        assert(path.push(r).contains(keys.last()) ==> path.contains(keys.last())) by {
            if path.push(r).contains(keys.last()) {
                let j = choose|j: int| 0 <= j < path.push(r).len() && path.push(r)[j] == keys.last();
                assert(j < path.len());
                assert(path[j] == keys.last());
            }
        }
    }
}

pub proof fn lemma_unvisited_grows(keys: Seq<Seq<char>>, path: Seq<Seq<char>>, r: Seq<char>)
    ensures
        unvisited(keys, path.push(r)) <= unvisited(keys, path),
    decreases keys.len(),
{
    if keys.len() > 0 {
        lemma_unvisited_grows(keys.drop_last(), path, r);
        if path.contains(keys.last()) {
            let j = choose|j: int| 0 <= j < path.len() && path[j] == keys.last();
            assert(path.push(r)[j] == keys.last());
        }
    }
}

pub proof fn lemma_element_key(t: RefTable, r: Seq<char>, from: int)
    requires
        0 <= from,
        find_element(t.elements@, r, from) is Some,
    ensures
        table_keys(t).contains(r),
        0 <= find_element(t.elements@, r, from)->0 < t.elements@.len(),
        t.elements@[find_element(t.elements@, r, from)->0].id@ == r,
    decreases t.elements@.len() - from,
{
    if from < t.elements@.len() && t.elements@[from].id@ != r {
        lemma_element_key(t, r, from + 1);
    } else {
        assert(table_keys(t)[from] == r);
    }
}

pub proof fn lemma_alias_key(t: RefTable, r: Seq<char>, from: int)
    requires
        0 <= from,
        find_alias(t.aliases@, r, from) is Some,
    ensures
        table_keys(t).contains(r),
        0 <= find_alias(t.aliases@, r, from)->0 < t.aliases@.len(),
        t.aliases@[find_alias(t.aliases@, r, from)->0].0@ == r,
    decreases t.aliases@.len() - from,
{
    if from < t.aliases@.len() && t.aliases@[from].0@ != r {
        lemma_alias_key(t, r, from + 1);
    } else {
        assert(table_keys(t)[t.elements@.len() + from] == r);
    }
}

/// What following a reference gives: the steps of its tree (none when it
/// cannot be resolved), the errors met, and the names reached (elements
/// and variables) on the way.
pub struct Walked {
    pub steps: Option<Seq<StepView>>,
    pub errors: Seq<(ConfigErrorKind, Seq<char>)>,
    pub used: Seq<Seq<char>>,
}

/// What reference `r` resolves to, on the path `path` of references being
/// followed. A reference already on the path is circular; `apptray` is the
/// tray; an element is looked up first, then a variable, whose value is
/// followed in turn; anything else is unresolved. An element that names a
/// child resolves only if its child does; the children of a list that do
/// not resolve are left out.
pub open spec fn walk(t: RefTable, r: Seq<char>, path: Seq<Seq<char>>) -> Walked
    decreases unvisited(table_keys(t), path), 2 * r.len() + 1, 0nat,
{
    if path.contains(r) {
        Walked { steps: None, errors: seq![circular(r)], used: seq![] }
    } else if r == "apptray"@ {
        Walked { steps: Some(seq![StepView::Open(None, r), StepView::Close]), errors: seq![], used: seq![] }
    } else {
        match find_element(t.elements@, r, 0) {
            Some(i) => {
                proof {
                    lemma_element_key(t, r, 0);
                    lemma_unvisited_shrinks(table_keys(t), path, r);
                }
                let e = t.elements@[i];
                let open = StepView::Open(Some(e.kind), r);
                match e.content {
                    Content::Leaf => Walked { steps: Some(seq![open, StepView::Close]), errors: seq![], used: seq![r] },
                    Content::Child(None) => Walked { steps: None, errors: seq![], used: seq![r] },
                    Content::Child(Some(c)) => {
                        let w = walk(t, c@, path.push(r));
                        Walked {
                            steps: match w.steps {
                                Some(s) => Some(seq![open] + s + seq![StepView::Close]),
                                None => None,
                            },
                            errors: w.errors,
                            used: seq![r] + w.used,
                        }
                    },
                    Content::Children(cs) => {
                        let (s, errs, used) = walk_list(t, path_view(cs@), path.push(r));
                        Walked { steps: Some(seq![open] + s + seq![StepView::Close]), errors: errs, used: seq![r] + used }
                    },
                }
            },
            None => match find_alias(t.aliases@, r, 0) {
                Some(j) => {
                    proof {
                        lemma_alias_key(t, r, 0);
                        lemma_unvisited_shrinks(table_keys(t), path, r);
                    }
                    let w = walk(t, t.aliases@[j].1@, path.push(r));
                    Walked { used: seq![r] + w.used, ..w }
                },
                None => match find_fragment(t.fragments@, r, 0) {
                    Some(f) if fits(t.fragments@[f].1.content, r) => {
                        let e = t.fragments@[f].1;
                        let open = StepView::Open(Some(e.kind), e.id@);
                        match e.content {
                            Content::Leaf => Walked { steps: Some(seq![open, StepView::Close]), errors: seq![], used: seq![] },
                            Content::Child(None) => Walked { steps: None, errors: seq![], used: seq![] },
                            Content::Child(Some(c)) => {
                                proof {
                                    assert(refs_of(e.content)[0] == c@);
                                }
                                let w = walk(t, c@, path);
                                Walked {
                                    steps: match w.steps {
                                        Some(s) => Some(seq![open] + s + seq![StepView::Close]),
                                        None => None,
                                    },
                                    ..w
                                }
                            },
                            Content::Children(cs) => {
                                proof {
                                    lemma_longest_below(path_view(cs@), r.len());
                                }
                                let (s, errs, used) = walk_list(t, path_view(cs@), path);
                                Walked { steps: Some(seq![open] + s + seq![StepView::Close]), errors: errs, used }
                            },
                        }
                    },
                    _ => Walked { steps: None, errors: seq![unresolved(r)], used: seq![] },
                },
            },
        }
    }
}

/// The references `cs` in order: the steps of those that resolve, all
/// errors met, and all names reached.
pub open spec fn walk_list(t: RefTable, cs: Seq<Seq<char>>, path: Seq<Seq<char>>)
    -> (Seq<StepView>, Seq<(ConfigErrorKind, Seq<char>)>, Seq<Seq<char>>)
    decreases unvisited(table_keys(t), path), 2 * longest(cs) + 2, cs.len(),
{
    if cs.len() == 0 {
        (seq![], seq![], seq![])
    } else {
        let (a, ea, ua) = walk_list(t, cs.drop_last(), path);
        let w = walk(t, cs.last(), path);
        (a + match w.steps { Some(s) => s, None => seq![] }, ea + w.errors, ua + w.used)
    }
}

pub open spec fn path_view(p: Seq<String>) -> Seq<Seq<char>> {
    p.map_values(|s: String| s@)
}

pub open spec fn opt_steps(o: Option<Vec<Step>>) -> Option<Seq<StepView>> {
    match o {
        Some(s) => Some(steps_view(s@)),
        None => None,
    }
}

fn on_path(path: &Vec<String>, r: &str) -> (b: bool)
    ensures
        b == path_view(path@).contains(r@),
{
    let ghost pv = path_view(path@);
    let mut i: usize = 0;
    while i < path.len()
        invariant
            i <= path@.len(),
            pv == path_view(path@),
            forall|k: int| 0 <= k < i ==> pv[k] != r@,
        decreases path@.len() - i,
    {
        if str_eq(path[i].as_str(), r) {
            proof {
                assert(pv[i as int] == r@);
            }
            return true;
        }
        i = i + 1;
    }
    false
}

fn find_element_at(es: &Vec<Referent>, r: &str) -> (x: Option<usize>)
    ensures
        match find_element(es@, r@, 0) {
            Some(i) => x matches Some(y) && y == i,
            None => x is None,
        },
{
    let mut i: usize = 0;
    while i < es.len()
        invariant
            i <= es@.len(),
            find_element(es@, r@, 0) == find_element(es@, r@, i as int),
        decreases es@.len() - i,
    {
        if str_eq(es[i].id.as_str(), r) {
            return Some(i);
        }
        i = i + 1;
    }
    None
}

fn find_alias_at(als: &Vec<(String, String)>, r: &str) -> (x: Option<usize>)
    ensures
        match find_alias(als@, r@, 0) {
            Some(i) => x matches Some(y) && y == i,
            None => x is None,
        },
{
    let mut i: usize = 0;
    while i < als.len()
        invariant
            i <= als@.len(),
            find_alias(als@, r@, 0) == find_alias(als@, r@, i as int),
        decreases als@.len() - i,
    {
        if str_eq(als[i].0.as_str(), r) {
            return Some(i);
        }
        i = i + 1;
    }
    None
}

fn one_error(kind: ConfigErrorKind, before: &str, r: &str) -> (e: Vec<RefError>)
    ensures
        errors_view(e@) == seq![(kind, before@ + r@ + "\""@)],
{
    let mut m = owned(before);
    push_str(&mut m, r);
    push_str(&mut m, "\"");
    let e = vec![RefError { kind, message: m }];
    proof {
        assert(errors_view(e@) =~= seq![(kind, before@ + r@ + "\""@)]);
    }
    e
}

fn wrap(kind: ElementKind, r: &str, inner: Vec<Step>) -> (out: Vec<Step>)
    ensures
        steps_view(out@) == seq![StepView::Open(Some(kind), r@)] + steps_view(inner@) + seq![StepView::Close],
{
    let mut out: Vec<Step> = Vec::new();
    out.push(Step::Open(Some(kind), owned(r)));
    let mut inner = inner;
    let ghost iv = inner@;
    out.append(&mut inner);
    out.push(Step::Close);
    proof {
        assert(steps_view(out@) =~= seq![StepView::Open(Some(kind), r@)] + steps_view(iv) + seq![StepView::Close]);
    }
    out
}

fn note_used(used: &mut Vec<String>, r: &str)
    ensures
        path_view(final(used)@) == path_view(old(used)@).push(r@),
{
    let ghost u0 = used@;
    used.push(owned(r));
    proof {
        assert(path_view(used@) =~= path_view(u0).push(r@));
    }
}

fn find_fragment_at(fs: &Vec<(String, Referent)>, r: &str) -> (x: Option<usize>)
    ensures
        match find_fragment(fs@, r@, 0) {
            Some(i) => x matches Some(y) && y == i && i < fs@.len(),
            None => x is None,
        },
{
    let mut i: usize = 0;
    while i < fs.len()
        invariant
            i <= fs@.len(),
            find_fragment(fs@, r@, 0) == find_fragment(fs@, r@, i as int),
        decreases fs@.len() - i,
    {
        if str_eq(fs[i].0.as_str(), r) {
            return Some(i);
        }
        i = i + 1;
    }
    None
}

fn content_fits(c: &Content, r: &str) -> (b: bool)
    ensures
        b == fits(*c, r@),
{
    let n = r.unicode_len();
    if n == 0 {
        return false;
    }
    match c {
        Content::Leaf => {
            proof {
                assert(refs_of(*c).len() == 0);
            }
            true
        },
        Content::Child(None) => {
            proof {
                assert(refs_of(*c).len() == 0);
            }
            true
        },
        Content::Child(Some(x)) => {
            proof {
                assert(refs_of(*c) =~= seq![x@]);
                assert(refs_of(*c)[0] == x@);
            }
            x.as_str().unicode_len() < n
        },
        Content::Children(cs) => {
            let ghost v = path_view(cs@);
            let mut i: usize = 0;
            while i < cs.len()
                invariant
                    i <= cs@.len(),
                    v == path_view(cs@),
                    v == refs_of(*c),
                    n as nat == r@.len(),
                    forall|k: int| 0 <= k < i ==> (#[trigger] v[k]).len() < r@.len(),
                decreases cs@.len() - i,
            {
                if cs[i].as_str().unicode_len() >= n {
                    proof {
                        assert(v[i as int] == cs@[i as int]@);
                    }
                    return false;
                }
                proof {
                    assert(v[i as int] == cs@[i as int]@);
                }
                i = i + 1;
            }
            true
        },
    }
}

pub proof fn lemma_longest_above(cs: Seq<Seq<char>>, i: int)
    requires
        0 <= i < cs.len(),
    ensures
        cs[i].len() <= longest(cs),
    decreases cs.len(),
{
    if i < cs.len() - 1 {
        lemma_longest_above(cs.drop_last(), i);
        assert(cs.drop_last()[i] == cs[i]);
    }
}

/// Resolves reference `r`, `path` being the references followed to reach
/// it (as it was when this returns); the names reached are added to `used`.
pub fn resolve_ref(t: &RefTable, r: &str, path: &mut Vec<String>, used: &mut Vec<String>)
    -> (res: (Option<Vec<Step>>, Vec<RefError>))
    ensures
        final(path)@ == old(path)@,
        opt_steps(res.0) == walk(*t, r@, path_view(old(path)@)).steps,
        errors_view(res.1@) == walk(*t, r@, path_view(old(path)@)).errors,
        path_view(final(used)@) == path_view(old(used)@) + walk(*t, r@, path_view(old(path)@)).used,
    decreases unvisited(table_keys(*t), path_view(old(path)@)), 2 * r@.len() + 1, 0nat,
{
    let ghost pv = path_view(path@);
    let ghost p0 = path@;
    let ghost u0 = path_view(used@);
    if on_path(path, r) {
        proof {
            assert(u0 + Seq::<Seq<char>>::empty() =~= u0);
        }
        return (None, one_error(ConfigErrorKind::CircularReference, "circular reference detected at \"", r));
    }
    proof {
        reveal_strlit("apptray");
    }
    if str_eq(r, "apptray") {
        let steps = vec![Step::Open(None, owned(r)), Step::Close];
        proof {
            assert(steps_view(steps@) =~= seq![StepView::Open(None, r@), StepView::Close]);
            assert(u0 + Seq::<Seq<char>>::empty() =~= u0);
        }
        return (Some(steps), Vec::new());
    }
    match find_element_at(&t.elements, r) {
        Some(i) => {
            proof {
                lemma_element_key(*t, r@, 0);
                lemma_unvisited_shrinks(table_keys(*t), pv, r@);
            }
            note_used(used, r);
            let e = &t.elements[i];
            match &e.content {
                Content::Leaf => {
                    let steps = vec![Step::Open(Some(e.kind), owned(r)), Step::Close];
                    proof {
                        assert(steps_view(steps@) =~= seq![StepView::Open(Some(e.kind), r@), StepView::Close]);
                        assert(u0.push(r@) =~= u0 + seq![r@]);
                    }
                    (Some(steps), Vec::new())
                },
                Content::Child(None) => {
                    proof {
                        assert(u0.push(r@) =~= u0 + seq![r@]);
                    }
                    (None, Vec::new())
                },
                Content::Child(Some(c)) => {
                    path.push(owned(r));
                    proof {
                        assert(path_view(path@) =~= pv.push(r@));
                    }
                    let ghost u1 = path_view(used@);
                    let (sub, errs) = resolve_ref(t, c.as_str(), path, used);
                    path.pop();
                    proof {
                        assert(path@ =~= p0);
                        let w = walk(*t, c@, pv.push(r@));
                        assert(u1 + w.used =~= u0 + (seq![r@] + w.used));
                    }
                    match sub {
                        Some(s) => (Some(wrap(e.kind, r, s)), errs),
                        None => (None, errs),
                    }
                },
                Content::Children(cs) => {
                    path.push(owned(r));
                    proof {
                        assert(path_view(path@) =~= pv.push(r@));
                    }
                    let ghost u1 = path_view(used@);
                    let (s, errs) = resolve_list(t, cs, path, used);
                    path.pop();
                    proof {
                        assert(path@ =~= p0);
                        let w = walk_list(*t, path_view(cs@), pv.push(r@));
                        assert(u1 + w.2 =~= u0 + (seq![r@] + w.2));
                    }
                    (Some(wrap(e.kind, r, s)), errs)
                },
            }
        },
        None => match find_alias_at(&t.aliases, r) {
            Some(j) => {
                proof {
                    lemma_alias_key(*t, r@, 0);
                    lemma_unvisited_shrinks(table_keys(*t), pv, r@);
                }
                note_used(used, r);
                path.push(owned(r));
                proof {
                    assert(path_view(path@) =~= pv.push(r@));
                }
                let ghost u1 = path_view(used@);
                let res = resolve_ref(t, t.aliases[j].1.as_str(), path, used);
                path.pop();
                proof {
                    assert(path@ =~= p0);
                    let w = walk(*t, t.aliases@[j as int].1@, pv.push(r@));
                    assert(u1 + w.used =~= u0 + (seq![r@] + w.used));
                }
                res
            },
            None => {
                let fragment = match find_fragment_at(&t.fragments, r) {
                    Some(f) => if content_fits(&t.fragments[f].1.content, r) { Some(f) } else { None },
                    None => None,
                };
                match fragment {
                    Some(f) => {
                        let e = &t.fragments[f].1;
                        match &e.content {
                            Content::Leaf => {
                                let steps = vec![Step::Open(Some(e.kind), owned(e.id.as_str())), Step::Close];
                                proof {
                                    assert(steps_view(steps@) =~= seq![StepView::Open(Some(e.kind), e.id@), StepView::Close]);
                                    assert(u0 + Seq::<Seq<char>>::empty() =~= u0);
                                }
                                (Some(steps), Vec::new())
                            },
                            Content::Child(None) => {
                                proof {
                                    assert(u0 + Seq::<Seq<char>>::empty() =~= u0);
                                }
                                (None, Vec::new())
                            },
                            Content::Child(Some(c)) => {
                                proof {
                                    assert(refs_of(e.content)[0] == c@);
                                }
                                let (sub, errs) = resolve_ref(t, c.as_str(), path, used);
                                match sub {
                                    Some(s) => (Some(wrap(e.kind, e.id.as_str(), s)), errs),
                                    None => (None, errs),
                                }
                            },
                            Content::Children(cs) => {
                                proof {
                                    lemma_longest_below(path_view(cs@), r@.len());
                                }
                                let (s, errs) = resolve_list(t, cs, path, used);
                                (Some(wrap(e.kind, e.id.as_str(), s)), errs)
                            },
                        }
                    },
                    None => {
                        proof {
                            assert(u0 + Seq::<Seq<char>>::empty() =~= u0);
                        }
                        (None, one_error(ConfigErrorKind::UnresolvedReference, "unresolved reference \"", r))
                    },
                }
            },
        },
    }
}

/// Resolves the references `cs` in order, `path` being the references
/// followed to reach them: the steps of those that resolve, and all errors;
/// the names reached are added to `used`.
pub fn resolve_list(t: &RefTable, cs: &Vec<String>, path: &mut Vec<String>, used: &mut Vec<String>)
    -> (res: (Vec<Step>, Vec<RefError>))
    ensures
        final(path)@ == old(path)@,
        steps_view(res.0@) == walk_list(*t, path_view(cs@), path_view(old(path)@)).0,
        errors_view(res.1@) == walk_list(*t, path_view(cs@), path_view(old(path)@)).1,
        path_view(final(used)@) == path_view(old(used)@) + walk_list(*t, path_view(cs@), path_view(old(path)@)).2,
    decreases unvisited(table_keys(*t), path_view(old(path)@)), 2 * longest(path_view(cs@)) + 2, cs@.len(),
{
    let ghost p0 = path@;
    let ghost u0 = path_view(used@);
    let ghost cv = path_view(cs@);
    let mut steps: Vec<Step> = Vec::new();
    let mut errs: Vec<RefError> = Vec::new();
    let mut i: usize = 0;
    proof {
        assert(cv.take(0) =~= Seq::<Seq<char>>::empty());
        assert(steps_view(steps@) =~= Seq::<StepView>::empty());
        assert(errors_view(errs@) =~= Seq::<(ConfigErrorKind, Seq<char>)>::empty());
        assert(u0 + Seq::<Seq<char>>::empty() =~= u0);
    }
    while i < cs.len()
        invariant
            i <= cs@.len(),
            path@ == p0,
            p0 == old(path)@,
            cv == path_view(cs@),
            steps_view(steps@) == walk_list(*t, cv.take(i as int), path_view(p0)).0,
            errors_view(errs@) == walk_list(*t, cv.take(i as int), path_view(p0)).1,
            path_view(used@) == u0 + walk_list(*t, cv.take(i as int), path_view(p0)).2,
        decreases cs@.len() - i,
    {
        proof {
            assert(cv.take(i + 1).drop_last() =~= cv.take(i as int));
            assert(cv.take(i + 1).last() == cs@[i as int]@);
            lemma_longest_above(cv, i as int);
            assert(cv[i as int] == cs@[i as int]@);
        }
        let ghost ub = path_view(used@);
        let (sub, mut more) = resolve_ref(t, cs[i].as_str(), path, used);
        let ghost s0 = steps@;
        let ghost e0 = errs@;
        let ghost m0 = more@;
        match sub {
            Some(mut s) => {
                let ghost sv = s@;
                steps.append(&mut s);
                proof {
                    assert(steps_view(s0 + sv) =~= steps_view(s0) + steps_view(sv));
                }
            },
            None => {
                proof {
                    assert(steps_view(s0) + Seq::<StepView>::empty() =~= steps_view(s0));
                }
            },
        }
        errs.append(&mut more);
        proof {
            assert(errors_view(e0 + m0) =~= errors_view(e0) + errors_view(m0));
            let w = walk(*t, cs@[i as int]@, path_view(p0));
            let prev = walk_list(*t, cv.take(i as int), path_view(p0));
            assert(ub + w.used =~= u0 + (prev.2 + w.used));
        }
        i = i + 1;
    }
    proof {
        assert(cv.take(i as int) =~= cv);
    }
    (steps, errs)
}


/// What the child of a widget resolves to, each widget being followed
/// from an empty path; a widget that names no child has none.
pub open spec fn widget_walk(t: RefTable, child: Option<Seq<char>>) -> Walked {
    match child {
        None => Walked { steps: None, errors: seq![], used: seq![] },
        Some(c) => walk(t, c, seq![]),
    }
}

pub open spec fn opt_view(c: Option<String>) -> Option<Seq<char>> {
    match c {
        Some(s) => Some(s@),
        None => None,
    }
}

/// The widgets' children, in order: the tree of each, the errors met and
/// the names reached.
pub open spec fn walk_widgets(t: RefTable, ws: Seq<Option<Seq<char>>>)
    -> (Seq<Option<Seq<StepView>>>, Seq<(ConfigErrorKind, Seq<char>)>, Seq<Seq<char>>)
    decreases ws.len(),
{
    if ws.len() == 0 {
        (seq![], seq![], seq![])
    } else {
        let (a, ea, ua) = walk_widgets(t, ws.drop_last());
        let w = widget_walk(t, ws.last());
        (a.push(w.steps), ea + w.errors, ua + w.used)
    }
}

/// Resolves the children of the widgets (`children`, one per widget).
pub fn resolve_widgets(t: &RefTable, children: &Vec<Option<String>>)
    -> (r: (Vec<Option<Vec<Step>>>, Vec<RefError>, Vec<String>))
    ensures
        r.0@.map_values(|o: Option<Vec<Step>>| opt_steps(o)) == walk_widgets(*t, children@.map_values(|c: Option<String>| opt_view(c))).0,
        errors_view(r.1@) == walk_widgets(*t, children@.map_values(|c: Option<String>| opt_view(c))).1,
        path_view(r.2@) == walk_widgets(*t, children@.map_values(|c: Option<String>| opt_view(c))).2,
{
    let ghost cv = children@.map_values(|c: Option<String>| opt_view(c));
    let mut trees: Vec<Option<Vec<Step>>> = Vec::new();
    let mut errs: Vec<RefError> = Vec::new();
    let mut used: Vec<String> = Vec::new();
    let mut i: usize = 0;
    proof {
        assert(cv.take(0) =~= Seq::<Option<Seq<char>>>::empty());
        assert(trees@.map_values(|o: Option<Vec<Step>>| opt_steps(o)) =~= Seq::<Option<Seq<StepView>>>::empty());
        assert(errors_view(errs@) =~= Seq::<(ConfigErrorKind, Seq<char>)>::empty());
        assert(path_view(used@) =~= Seq::<Seq<char>>::empty());
    }
    while i < children.len()
        invariant
            i <= children@.len(),
            cv == children@.map_values(|c: Option<String>| opt_view(c)),
            trees@.len() == i,
            trees@.map_values(|o: Option<Vec<Step>>| opt_steps(o)) == walk_widgets(*t, cv.take(i as int)).0,
            errors_view(errs@) == walk_widgets(*t, cv.take(i as int)).1,
            path_view(used@) == walk_widgets(*t, cv.take(i as int)).2,
        decreases children@.len() - i,
    {
        proof {
            assert(cv.take(i + 1).drop_last() =~= cv.take(i as int));
            assert(cv.take(i + 1).last() == opt_view(children@[i as int]));
        }
        let ghost t0 = trees@;
        let ghost e0 = errs@;
        match &children[i] {
            None => {
                trees.push(None);
                proof {
                    assert(trees@.map_values(|o: Option<Vec<Step>>| opt_steps(o))
                        =~= t0.map_values(|o: Option<Vec<Step>>| opt_steps(o)).push(None));
                    assert(errors_view(errs@) + Seq::<(ConfigErrorKind, Seq<char>)>::empty() =~= errors_view(errs@));
                    assert(path_view(used@) + Seq::<Seq<char>>::empty() =~= path_view(used@));
                }
            },
            Some(c) => {
                let mut path: Vec<String> = Vec::new();
                proof {
                    assert(path_view(path@) =~= Seq::<Seq<char>>::empty());
                }
                let (sub, mut more) = resolve_ref(t, c.as_str(), &mut path, &mut used);
                let ghost m0 = more@;
                trees.push(sub);
                errs.append(&mut more);
                proof {
                    assert(trees@.map_values(|o: Option<Vec<Step>>| opt_steps(o))
                        =~= t0.map_values(|o: Option<Vec<Step>>| opt_steps(o)).push(opt_steps(trees@[i as int])));
                    assert(errors_view(e0 + m0) =~= errors_view(e0) + errors_view(m0));
                }
            },
        }
        i = i + 1;
    }
    proof {
        assert(cv.take(i as int) =~= cv);
    }
    (trees, errs, used)
}

/// A problem resolution reports: an error of a reference, or a warning
/// about a definition nothing uses.
pub struct RefIssue {
    pub kind: ConfigErrorKind,
    pub severity: Severity,
    pub message: String,
}

pub open spec fn ref_issues_view(s: Seq<RefIssue>) -> Seq<(ConfigErrorKind, Severity, Seq<char>)> {
    s.map_values(|i: RefIssue| (i.kind, i.severity, i.message@))
}

/// What resolving the widgets reports: the errors of their references,
/// then a warning for each definition of `decls` (an id, and whether it is
/// a variable) that neither they nor `elsewhere` reached.
pub open spec fn resolve_issues(t: RefTable, ws: Seq<Option<Seq<char>>>, decls: Seq<(Seq<char>, bool)>,
    elsewhere: Seq<Seq<char>>) -> Seq<(ConfigErrorKind, Severity, Seq<char>)>
{
    let (_, errs, used) = walk_widgets(t, ws);
    errs.map_values(|e: (ConfigErrorKind, Seq<char>)| (e.0, Severity::Error, e.1))
        + unused_report(decls, used + elsewhere).map_values(|w: (ConfigErrorKind, Seq<char>)| (w.0, Severity::Warning, w.1))
}

/// Resolves the widgets' children: their trees when no reference fails,
/// and every problem found (the warnings too). `decls` are the definitions
/// that are warned about when nothing reaches them, and `elsewhere` the
/// names reached other than through these references.
pub fn resolve(t: &RefTable, children: &Vec<Option<String>>, decls: &Vec<(String, bool)>, elsewhere: &Vec<String>)
    -> (r: (Option<Vec<Option<Vec<Step>>>>, Vec<RefIssue>))
    ensures
        ref_issues_view(r.1@) == resolve_issues(*t, children@.map_values(|c: Option<String>| opt_view(c)),
            decls@.map_values(|d: (String, bool)| (d.0@, d.1)), path_view(elsewhere@)),
        r.0 is Some <==> forall|k: int| 0 <= k < r.1@.len() ==> (#[trigger] r.1@[k]).severity != Severity::Error,
        r.0 matches Some(trees) ==> trees@.map_values(|o: Option<Vec<Step>>| opt_steps(o))
            == walk_widgets(*t, children@.map_values(|c: Option<String>| opt_view(c))).0,
{
    let ghost cv = children@.map_values(|c: Option<String>| opt_view(c));
    let (trees, errs, used) = resolve_widgets(t, children);
    let mut reached = used;
    let mut i: usize = 0;
    let ghost u0 = reached@;
    while i < elsewhere.len()
        invariant
            i <= elsewhere@.len(),
            reached@ == u0 + elsewhere@.take(i as int),
        decreases elsewhere@.len() - i,
    {
        proof {
            assert(elsewhere@.take(i + 1) =~= elsewhere@.take(i as int).push(elsewhere@[i as int]));
        }
        reached.push(elsewhere[i].clone());
        i = i + 1;
    }
    proof {
        assert(elsewhere@.take(i as int) =~= elsewhere@);
        assert(path_view(reached@) =~= path_view(u0) + path_view(elsewhere@));
    }
    let warns = unused_warnings(decls.as_slice(), reached.as_slice());
    let mut issues: Vec<RefIssue> = Vec::new();
    let ghost ev = errors_view(errs@);
    let mut j: usize = 0;
    while j < errs.len()
        invariant
            j <= errs@.len(),
            ev == errors_view(errs@),
            issues@.len() == j,
            forall|q: int| 0 <= q < issues@.len() ==> (#[trigger] issues@[q]).severity == Severity::Error,
            ref_issues_view(issues@) == ev.take(j as int).map_values(|e: (ConfigErrorKind, Seq<char>)| (e.0, Severity::Error, e.1)),
        decreases errs@.len() - j,
    {
        let ghost i0 = issues@;
        issues.push(RefIssue { kind: errs[j].kind, severity: Severity::Error, message: errs[j].message.clone() });
        proof {
            assert(ev.take(j + 1) =~= ev.take(j as int).push(ev[j as int]));
            assert(ref_issues_view(issues@) =~= ref_issues_view(i0).push((errs@[j as int].kind, Severity::Error, errs@[j as int].message@)));
            assert(ev.take(j + 1).map_values(|e: (ConfigErrorKind, Seq<char>)| (e.0, Severity::Error, e.1))
                =~= ev.take(j as int).map_values(|e: (ConfigErrorKind, Seq<char>)| (e.0, Severity::Error, e.1)).push(
                    (ev[j as int].0, Severity::Error, ev[j as int].1)));
        }
        j = j + 1;
    }
    proof {
        assert(ev.take(j as int) =~= ev);
    }
    let ghost n_err = issues@.len();
    let ghost wr = unused_report(decls@.map_values(|d: (String, bool)| (d.0@, d.1)), path_view(reached@));
    let mut k: usize = 0;
    while k < warns.len()
        invariant
            k <= warns@.len(),
            n_err == ev.len(),
            warns@.len() == wr.len(),
            forall|q: int| 0 <= q < warns@.len() ==> ((#[trigger] warns@[q]).0, warns@[q].1@) == wr[q],
            ref_issues_view(issues@) == ev.map_values(|e: (ConfigErrorKind, Seq<char>)| (e.0, Severity::Error, e.1))
                + wr.take(k as int).map_values(|w: (ConfigErrorKind, Seq<char>)| (w.0, Severity::Warning, w.1)),
            forall|q: int| 0 <= q < issues@.len() ==> (#[trigger] issues@[q]).severity == (if q < n_err { Severity::Error } else { Severity::Warning }),
        decreases warns@.len() - k,
    {
        let ghost i0 = issues@;
        issues.push(RefIssue { kind: warns[k].0, severity: Severity::Warning, message: warns[k].1.clone() });
        proof {
            assert(wr.take(k + 1) =~= wr.take(k as int).push(wr[k as int]));
            assert(ref_issues_view(issues@) =~= ref_issues_view(i0).push((warns@[k as int].0, Severity::Warning, warns@[k as int].1@)));
            assert(wr.take(k + 1).map_values(|w: (ConfigErrorKind, Seq<char>)| (w.0, Severity::Warning, w.1))
                =~= wr.take(k as int).map_values(|w: (ConfigErrorKind, Seq<char>)| (w.0, Severity::Warning, w.1)).push(
                    (wr[k as int].0, Severity::Warning, wr[k as int].1)));
        }
        k = k + 1;
    }
    proof {
        assert(wr.take(k as int) =~= wr);
        assert(path_view(reached@) == walk_widgets(*t, cv).2 + path_view(elsewhere@));
    }
    if errs.len() == 0 {
        (Some(trees), issues)
    } else {
        proof {
            assert(issues@[0].severity == Severity::Error);
        }
        (None, issues)
    }
}


/// An error met while following references: a circular or an unresolved
/// reference.
pub open spec fn reference_error(e: (ConfigErrorKind, Seq<char>)) -> bool {
    e.0 is CircularReference || e.0 is UnresolvedReference
}

/// Following a reference meets no other errors than circular and
/// unresolved references.
pub proof fn law_walk_errors(t: RefTable, r: Seq<char>, path: Seq<Seq<char>>)
    ensures
        forall|k: int| 0 <= k < walk(t, r, path).errors.len() ==> reference_error(#[trigger] walk(t, r, path).errors[k]),
    decreases unvisited(table_keys(t), path), 2 * r.len() + 1, 0nat,
{
    if path.contains(r) {
        assert(walk(t, r, path).errors == seq![circular(r)]);
    } else if r == "apptray"@ {
        assert(walk(t, r, path).errors.len() == 0);
    } else {
        match find_element(t.elements@, r, 0) {
            Some(i) => {
                lemma_element_key(t, r, 0);
                lemma_unvisited_shrinks(table_keys(t), path, r);
                match t.elements@[i].content {
                    Content::Child(Some(c)) => {
                        law_walk_errors(t, c@, path.push(r));
                        assert(walk(t, r, path).errors == walk(t, c@, path.push(r)).errors);
                    },
                    Content::Children(cs) => {
                        law_list_errors(t, path_view(cs@), path.push(r));
                        assert(walk(t, r, path).errors == walk_list(t, path_view(cs@), path.push(r)).1);
                    },
                    _ => {
                        assert(walk(t, r, path).errors.len() == 0);
                    },
                }
            },
            None => match find_alias(t.aliases@, r, 0) {
                Some(j) => {
                    lemma_alias_key(t, r, 0);
                    lemma_unvisited_shrinks(table_keys(t), path, r);
                    law_walk_errors(t, t.aliases@[j].1@, path.push(r));
                    assert(walk(t, r, path).errors == walk(t, t.aliases@[j].1@, path.push(r)).errors);
                },
                None => match find_fragment(t.fragments@, r, 0) {
                    Some(f) if fits(t.fragments@[f].1.content, r) => {
                        let e = t.fragments@[f].1;
                        match e.content {
                            Content::Child(Some(c)) => {
                                assert(refs_of(e.content)[0] == c@);
                                law_walk_errors(t, c@, path);
                                assert(walk(t, r, path).errors == walk(t, c@, path).errors);
                            },
                            Content::Children(cs) => {
                                lemma_longest_below(path_view(cs@), r.len());
                                law_list_errors(t, path_view(cs@), path);
                                assert(walk(t, r, path).errors == walk_list(t, path_view(cs@), path).1);
                            },
                            _ => {
                                assert(walk(t, r, path).errors.len() == 0);
                            },
                        }
                    },
                    _ => {
                        assert(walk(t, r, path).errors == seq![unresolved(r)]);
                    },
                },
            },
        }
    }
}

/// The same of a list of references.
pub proof fn law_list_errors(t: RefTable, cs: Seq<Seq<char>>, path: Seq<Seq<char>>)
    ensures
        forall|k: int| 0 <= k < walk_list(t, cs, path).1.len() ==> reference_error(#[trigger] walk_list(t, cs, path).1[k]),
    decreases unvisited(table_keys(t), path), 2 * longest(cs) + 2, cs.len(),
{
    if cs.len() > 0 {
        lemma_longest_above(cs, cs.len() - 1);
        law_list_errors(t, cs.drop_last(), path);
        law_walk_errors(t, cs.last(), path);
        let (a, ea, ua) = walk_list(t, cs.drop_last(), path);
        let w = walk(t, cs.last(), path);
        assert forall|k: int| 0 <= k < (ea + w.errors).len() implies reference_error(#[trigger] (ea + w.errors)[k]) by {
            if k < ea.len() {
                assert((ea + w.errors)[k] == ea[k]);
            } else {
                assert((ea + w.errors)[k] == w.errors[k - ea.len()]);
            }
        }
    }
}

/// An element whose child is itself never resolves: following it reports
/// that one circular reference.
pub proof fn law_self_reference(t: RefTable, r: Seq<char>)
    requires
        r != "apptray"@,
        find_element(t.elements@, r, 0) matches Some(i) && t.elements@[i].content matches Content::Child(Some(c)) && c@ == r,
    ensures
        walk(t, r, seq![]).steps is None,
        walk(t, r, seq![]).errors == seq![circular(r)],
{
    let i = find_element(t.elements@, r, 0)->0;
    let e: Seq<Seq<char>> = Seq::empty();
    assert(!e.contains(r));
    assert(e.push(r) =~= seq![r]);
    assert(seq![r].contains(r)) by {
        assert(seq![r][0] == r);
    }
    assert(walk(t, r, seq![r]) == Walked { steps: None, errors: seq![circular(r)], used: Seq::<Seq<char>>::empty() });
    match t.elements@[i].content {
        Content::Child(Some(c)) => {
            assert(walk(t, c@, e.push(r)) == walk(t, r, seq![r]));
        },
        _ => {},
    }
}

/// A variable whose value is a string stands for that value: following it
/// gives what following the value gives, with the variable on the path.
pub proof fn law_alias_is_its_value(t: RefTable, r: Seq<char>, path: Seq<Seq<char>>)
    requires
        !path.contains(r),
        r != "apptray"@,
        find_element(t.elements@, r, 0) is None,
        find_alias(t.aliases@, r, 0) is Some,
    ensures
        walk(t, r, path).steps == walk(t, t.aliases@[find_alias(t.aliases@, r, 0)->0].1@, path.push(r)).steps,
        walk(t, r, path).errors == walk(t, t.aliases@[find_alias(t.aliases@, r, 0)->0].1@, path.push(r)).errors,
{
}


/// An element is found before a variable of the same name: following a
/// name that some element has (not already on the path) reaches that
/// element first, and its tree, when it has one, begins with it.
pub proof fn law_element_before_variable(t: RefTable, r: Seq<char>, path: Seq<Seq<char>>)
    requires
        !path.contains(r),
        r != "apptray"@,
        find_element(t.elements@, r, 0) is Some,
    ensures
        walk(t, r, path).used.len() > 0 && walk(t, r, path).used[0] == r,
        walk(t, r, path).steps matches Some(s) ==> (s.len() >= 2 && s[0] == StepView::Open(
            Some(t.elements@[find_element(t.elements@, r, 0)->0].kind), r) && s[s.len() - 1] == StepView::Close),
{
    lemma_element_key(t, r, 0);
}

/// The tray is always found, and nothing is reached through it.
pub proof fn law_apptray_resolves(t: RefTable, path: Seq<Seq<char>>)
    requires
        !path.contains("apptray"@),
    ensures
        walk(t, "apptray"@, path).steps == Some(seq![StepView::Open(None, "apptray"@), StepView::Close]),
        walk(t, "apptray"@, path).errors.len() == 0,
{
}

/// A name that is no element, no variable and no fragment is an
/// unresolved reference, and nothing else.
pub proof fn law_unknown_is_unresolved(t: RefTable, r: Seq<char>, path: Seq<Seq<char>>)
    requires
        !path.contains(r),
        r != "apptray"@,
        find_element(t.elements@, r, 0) is None,
        find_alias(t.aliases@, r, 0) is None,
        find_fragment(t.fragments@, r, 0) is None,
    ensures
        walk(t, r, path).steps is None,
        walk(t, r, path).errors == seq![(ConfigErrorKind::UnresolvedReference, "unresolved reference \""@ + r + "\""@)],
{
}

} // verus!
