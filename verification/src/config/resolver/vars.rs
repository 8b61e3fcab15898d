//! Which variables a `${...}` string refers to.

use vstd::prelude::*;
use vstd::string::StringSliceAdditionalSpecFns;
use crate::config::math::lexer::{is_alpha_byte, is_ident_byte};
use crate::text::{at_boundary, is_ascii_byte, lemma_after_ascii, lemma_str_valid, owned, str_eq, sub_str, utf8};

verus! {

/// A byte that may continue a (dotted) variable name.
pub open spec fn is_name_byte(c: u8) -> bool {
    is_ident_byte(c) || c == 0x2eu8
}

/// The end of the name that starts at `p`.
pub open spec fn name_end(b: Seq<u8>, p: int) -> int
    decreases b.len() - p,
{
    if 0 <= p < b.len() && is_name_byte(b[p]) { name_end(b, p + 1) } else { p }
}

/// The names inside one `${...}` block, read from `j` up to the closing
/// `}` (or the end), and where the reading stopped.
pub open spec fn block_names(b: Seq<u8>, j: int) -> (Seq<Seq<u8>>, int)
    decreases b.len() - j,
{
    if 0 <= j < b.len() && b[j] != 0x7du8 {
        if is_alpha_byte(b[j]) || b[j] == 0x5fu8 {
            let k = name_end(b, j);
            if j < k <= b.len() {
                let rest = block_names(b, k);
                (seq![b.subrange(j, k)] + rest.0, rest.1)
            } else {
                (seq![], j)
            }
        } else {
            block_names(b, j + 1)
        }
    } else {
        (seq![], j)
    }
}

/// The names referred to from position `i` on.
pub open spec fn refs_from(b: Seq<u8>, i: int) -> Seq<Seq<u8>>
    decreases b.len() - i,
{
    if 0 <= i && i + 1 < b.len() {
        if b[i] == 0x24u8 && b[i + 1] == 0x7bu8 {
            let (names, j) = block_names(b, i + 2);
            if i < j <= b.len() {
                names + refs_from(b, j)
            } else {
                names
            }
        } else {
            refs_from(b, i + 1)
        }
    } else {
        seq![]
    }
}

proof fn lemma_name_end(b: Seq<u8>, p: int)
    requires
        0 <= p <= b.len(),
    ensures
        p <= name_end(b, p) <= b.len(),
        forall|k: int| p <= k < name_end(b, p) ==> is_name_byte(#[trigger] b[k]),
        name_end(b, p) < b.len() ==> !is_name_byte(b[name_end(b, p)]),
    decreases b.len() - p,
{
    if p < b.len() && is_name_byte(b[p]) {
        lemma_name_end(b, p + 1);
    }
}

proof fn lemma_block_end(b: Seq<u8>, j: int)
    requires
        0 <= j <= b.len(),
    ensures
        j <= block_names(b, j).1 <= b.len(),
    decreases b.len() - j,
{
    if 0 <= j < b.len() && b[j] != 0x7du8 {
        if is_alpha_byte(b[j]) || b[j] == 0x5fu8 {
            lemma_name_end(b, j);
            let k = name_end(b, j);
            if k > j {
                lemma_block_end(b, k);
            }
        } else {
            lemma_block_end(b, j + 1);
        }
    }
}

/// The variable names that `${...}` blocks of `s` mention, in order, with
/// repetitions.
pub fn referenced_vars(s: &str) -> (r: Vec<String>)
    ensures
        r@.len() == refs_from(s.spec_bytes(), 0).len(),
        forall|k: int| 0 <= k < r@.len() ==> utf8((#[trigger] r@[k])@) == refs_from(s.spec_bytes(), 0)[k],
{
    let ghost b = s.spec_bytes();
    proof {
        lemma_str_valid(s);
    }
    let bytes = s.as_bytes();
    let n = bytes.len();
    let mut out: Vec<String> = Vec::new();
    let ghost mut got: Seq<Seq<u8>> = seq![];
    let mut i: usize = 0;
    while i < n && i + 1 < n
        invariant
            bytes@ == b,
            n == b.len(),
            s.spec_bytes() == b,
            vstd::utf8::valid_utf8(b),
            i <= n,
            out@.len() == got.len(),
            forall|k: int| 0 <= k < got.len() ==> utf8((#[trigger] out@[k])@) == got[k],
            refs_from(b, 0) == got + refs_from(b, i as int),
        decreases n - i,
    {
        if bytes[i] == 0x24u8 && bytes[i + 1] == 0x7bu8 {
            let ghost start_i = i as int;
            let ghost got0 = got;
            let mut j: usize = i + 2;
            proof {
                lemma_block_end(b, j as int);
            }
            while j < n && bytes[j] != 0x7du8
                invariant
                    bytes@ == b,
                    n == b.len(),
                    s.spec_bytes() == b,
                    vstd::utf8::valid_utf8(b),
                    start_i + 2 <= j <= n,
                    out@.len() == got.len(),
                    forall|k: int| 0 <= k < got.len() ==> utf8((#[trigger] out@[k])@) == got[k],
                    got0 + block_names(b, start_i + 2).0 == got + block_names(b, j as int).0,
                    block_names(b, start_i + 2).1 == block_names(b, j as int).1,
                    j <= block_names(b, j as int).1 <= n,
                decreases n - j,
            {
                if (bytes[j] >= 0x41u8 && bytes[j] <= 0x5au8) || (bytes[j] >= 0x61u8 && bytes[j] <= 0x7au8) || bytes[j] == 0x5fu8 {
                    let start = j;
                    while j < n && ((bytes[j] >= 0x30u8 && bytes[j] <= 0x39u8) || (bytes[j] >= 0x41u8 && bytes[j] <= 0x5au8)
                        || (bytes[j] >= 0x61u8 && bytes[j] <= 0x7au8) || bytes[j] == 0x5fu8 || bytes[j] == 0x2eu8)
                        invariant
                            bytes@ == b,
                            n == b.len(),
                            start < j <= n || (start == j && j < n && (is_alpha_byte(b[j as int]) || b[j as int] == 0x5fu8)),
                            name_end(b, start as int) == name_end(b, j as int),
                            forall|k: int| start <= k < j ==> is_name_byte(#[trigger] b[k]),
                        decreases n - j,
                    {
                        j = j + 1;
                    }
                    proof {
                        lemma_name_end(b, start as int);
                        assert(is_ascii_byte(b[start as int]));
                        assert(is_ascii_byte(b[j - 1]));
                        lemma_after_ascii(b, j - 1);
                        if start > 0 {
                            assert(b[start as int] < 0x80u8);
                        }
                        assert(at_boundary(b, start as int));
                        lemma_block_end(b, j as int);
                    }
                    let name = owned(sub_str(s, start, j));
                    proof {
                        let nb = b.subrange(start as int, j as int);
                        assert(utf8(name@) == nb);
                        got = got.push(nb);
                        assert(seq![nb] + block_names(b, j as int).0 == block_names(b, start as int).0);
                    }
                    out.push(name);
                    proof {
                        assert(got0 + block_names(b, start_i + 2).0 =~= got + block_names(b, j as int).0);
                    }
                } else {
                    j = j + 1;
                    proof {
                        lemma_block_end(b, j as int);
                    }
                }
            }
            proof {
                assert(block_names(b, j as int).0 =~= Seq::<Seq<u8>>::empty());
                assert(block_names(b, j as int).1 == j);
                assert(got + refs_from(b, j as int) =~= got0 + (block_names(b, start_i + 2).0 + refs_from(b, j as int)));
            }
            i = j;
        } else {
            i = i + 1;
        }
    }
    proof {
        assert(got + refs_from(b, i as int) =~= got);
    }
    out
}


// ------------------------------------------------------------ resolution

/// A declared variable: its name, and its text when its value is a string
/// (which may hold `${...}` blocks).
pub struct VarSource {
    pub name: String,
    pub text: Option<String>,
}

/// A step of resolving the variables, in the order it is taken.
#[derive(Debug, Clone, Copy, PartialEq, Eq, Structural)]
pub enum ResolveStep {
    /// The variable was reached again while it was being resolved: a
    /// circular reference; it reads as the empty string for now.
    Circular(usize),
    /// All the variables it refers to are resolved: evaluate it.
    Evaluate(usize),
}

/// What resolution knows about each variable: whether it has a value,
/// whether it is being resolved, whether another variable refers to it, and
/// the steps taken so far.
pub struct PlanState {
    pub resolved: Seq<bool>,
    pub resolving: Seq<bool>,
    pub used: Seq<bool>,
    pub steps: Seq<ResolveStep>,
}

pub open spec fn var_name(d: Seq<VarSource>, k: int) -> Seq<u8> {
    utf8(d[k].name@)
}

/// The names variable `k` refers to.
pub open spec fn deps_of(d: Seq<VarSource>, k: int) -> Seq<Seq<u8>> {
    match d[k].text {
        Some(t) => refs_from(utf8(t@), 0),
        None => seq![],
    }
}

/// The first variable named `name`.
pub open spec fn index_of(d: Seq<VarSource>, name: Seq<u8>, from: int) -> Option<int>
    decreases d.len() - from,
{
    if from < 0 || from >= d.len() {
        None
    } else if var_name(d, from) == name {
        Some(from)
    } else {
        index_of(d, name, from + 1)
    }
}

pub open spec fn count_true(s: Seq<bool>) -> nat
    decreases s.len(),
{
    if s.len() == 0 { 0 } else { count_true(s.drop_last()) + if s.last() { 1nat } else { 0nat } }
}

pub open spec fn state_wf(d: Seq<VarSource>, st: PlanState) -> bool {
    st.resolved.len() == d.len() && st.resolving.len() == d.len() && st.used.len() == d.len()
}

pub proof fn lemma_count_bound(s: Seq<bool>)
    ensures
        count_true(s) <= s.len(),
    decreases s.len(),
{
    if s.len() > 0 {
        lemma_count_bound(s.drop_last());
    }
}

pub proof fn lemma_count_set(s: Seq<bool>, k: int)
    requires
        0 <= k < s.len(),
        !s[k],
    ensures
        count_true(s.update(k, true)) == count_true(s) + 1,
    decreases s.len(),
{
    if k < s.len() - 1 {
        lemma_count_set(s.drop_last(), k);
        assert(s.update(k, true).drop_last() =~= s.drop_last().update(k, true));
    } else {
        assert(s.update(k, true).drop_last() =~= s.drop_last());
    }
}

/// Resolving variable `k`: nothing when it has a value; a circular
/// reference when it is being resolved; else its dependencies first, then
/// it.
pub open spec fn visit(d: Seq<VarSource>, k: int, st: PlanState) -> PlanState
    decreases d.len() - count_true(st.resolving), 0int, 0int,
{
    if !(state_wf(d, st) && 0 <= k < d.len()) {
        st
    } else if st.resolved[k] {
        st
    } else if st.resolving[k] {
        PlanState { resolved: st.resolved.update(k, true), steps: st.steps.push(ResolveStep::Circular(k as usize)), ..st }
    } else {
        let st1 = PlanState { resolving: st.resolving.update(k, true), ..st };
        proof {
            lemma_count_set(st.resolving, k);
            lemma_count_bound(st1.resolving);
        }
        let st2 = visit_deps(d, k, 0, st1);
        PlanState {
            resolved: st2.resolved.update(k, true),
            resolving: st.resolving,
            used: st2.used,
            steps: st2.steps.push(ResolveStep::Evaluate(k as usize)),
        }
    }
}

/// The dependencies of `k` from the `i`-th on: each one that is declared
/// and is not `k` itself is marked as used and resolved.
pub open spec fn visit_deps(d: Seq<VarSource>, k: int, i: int, st: PlanState) -> PlanState
    decreases d.len() - count_true(st.resolving), 1int, deps_of(d, k).len() - i,
{
    if !(state_wf(d, st) && 0 <= k < d.len() && 0 <= i < deps_of(d, k).len()) {
        st
    } else {
        let dep = deps_of(d, k)[i];
        let next = match index_of(d, dep, 0) {
            Some(j) => if dep != var_name(d, k) && 0 <= j < d.len() {
                let st1 = PlanState { used: st.used.update(j, true), ..st };
                let st2 = if !st1.resolved[j] { visit(d, j, st1) } else { st1 };
                PlanState { resolving: st.resolving, ..st2 }
            } else {
                st
            },
            None => st,
        };
        visit_deps(d, k, i + 1, next)
    }
}

/// Resolving every variable from the `k`-th on, in declaration order.
pub open spec fn visit_all(d: Seq<VarSource>, k: int, st: PlanState) -> PlanState
    decreases d.len() - k,
{
    if 0 <= k < d.len() { visit_all(d, k + 1, visit(d, k, st)) } else { st }
}

/// Before resolution: the variables named in `preset` already have a value.
pub open spec fn initial_state(d: Seq<VarSource>, preset: Seq<Seq<u8>>) -> PlanState {
    PlanState {
        resolved: Seq::new(d.len(), |j: int| preset.contains(var_name(d, j))),
        resolving: Seq::new(d.len(), |j: int| false),
        used: Seq::new(d.len(), |j: int| false),
        steps: seq![],
    }
}

pub open spec fn spec_plan(d: Seq<VarSource>, preset: Seq<Seq<u8>>) -> PlanState {
    visit_all(d, 0, initial_state(d, preset))
}


/// `deps[k]` holds the names variable `k` refers to.
pub open spec fn deps_match(d: Seq<VarSource>, deps: Seq<Vec<String>>) -> bool {
    &&& deps.len() == d.len()
    &&& forall|k: int| 0 <= k < d.len() ==> (#[trigger] deps[k])@.len() == deps_of(d, k).len()
    &&& forall|k: int, i: int| 0 <= k < d.len() && 0 <= i < deps_of(d, k).len()
        ==> utf8((#[trigger] deps[k]@[i])@) == deps_of(d, k)[i]
}

struct Planner {
    resolved: Vec<bool>,
    resolving: Vec<bool>,
    used: Vec<bool>,
    steps: Vec<ResolveStep>,
}

impl Planner {
    spec fn state(&self) -> PlanState {
        PlanState { resolved: self.resolved@, resolving: self.resolving@, used: self.used@, steps: self.steps@ }
    }

    fn visit(&mut self, decls: &[VarSource], deps: &Vec<Vec<String>>, k: usize)
        requires
            state_wf(decls@, old(self).state()),
            k < decls@.len(),
            deps_match(decls@, deps@),
        ensures
            final(self).state() == visit(decls@, k as int, old(self).state()),
            final(self).resolving@ == old(self).resolving@,
            state_wf(decls@, final(self).state()),
        decreases decls@.len() - count_true(old(self).resolving@), 0int, 0int,
    {
        let ghost d = decls@;
        if self.resolved[k] {
            return;
        }
        if self.resolving[k] {
            self.resolved.set(k, true);
            self.steps.push(ResolveStep::Circular(k));
            return;
        }
        let ghost st = self.state();
        self.resolving.set(k, true);
        let ghost st1 = self.state();
        proof {
            lemma_count_set(st.resolving, k as int);
            lemma_count_bound(st1.resolving);
            assert(st1 == PlanState { resolving: st.resolving.update(k as int, true), ..st });
        }
        let dk = &deps[k];
        let mut i: usize = 0;
        while i < dk.len()
            invariant
                d == decls@,
                deps_match(d, deps@),
                k < d.len(),
                dk == deps@[k as int],
                i <= dk@.len(),
                state_wf(d, self.state()),
                self.resolving@ == st1.resolving,
                st.resolving == old(self).resolving@,
                count_true(st1.resolving) == count_true(st.resolving) + 1,
                count_true(st1.resolving) <= d.len(),
                visit_deps(d, k as int, 0, st1) == visit_deps(d, k as int, i as int, self.state()),
            decreases dk@.len() - i,
        {
            let ghost cur = self.state();
            let dep = dk[i].as_str();
            proof {
                assert(utf8(dep@) == deps_of(d, k as int)[i as int]);
            }
            if !str_eq(dep, decls[k].name.as_str()) {
                proof {
                    if utf8(dep@) == var_name(d, k as int) {
                        crate::text::lemma_utf8_injective(dep@, decls@[k as int].name@);
                    }
                }
                match find_var(decls, dep) {
                    Some(j) => {
                        self.used.set(j, true);
                        let ghost c1 = self.state();
                        if !self.resolved[j] {
                            self.visit(decls, deps, j);
                        }
                        proof {
                            assert(self.state() == PlanState { resolving: cur.resolving, ..self.state() });
                        }
                    },
                    None => {},
                }
            }
            i = i + 1;
        }
        self.resolving.set(k, false);
        self.resolved.set(k, true);
        self.steps.push(ResolveStep::Evaluate(k));
        proof {
            assert(self.resolving@ =~= st.resolving);
        }
    }
}

/// The first declared variable named `name`.
fn find_var(decls: &[VarSource], name: &str) -> (r: Option<usize>)
    ensures
        match index_of(decls@, utf8(name@), 0) {
            Some(j) => r == Some(j as usize) && 0 <= j < decls@.len(),
            None => r is None,
        },
{
    let ghost d = decls@;
    let mut i: usize = 0;
    while i < decls.len()
        invariant
            d == decls@,
            i <= d.len(),
            index_of(d, utf8(name@), 0) == index_of(d, utf8(name@), i as int),
        decreases d.len() - i,
    {
        if str_eq(decls[i].name.as_str(), name) {
            return Some(i);
        }
        proof {
            if var_name(d, i as int) == utf8(name@) {
                crate::text::lemma_utf8_injective(d[i as int].name@, name@);
            }
        }
        i = i + 1;
    }
    None
}

/// The order in which the variables are resolved: each declared variable in
/// turn, the ones it refers to first; variables named in `preset` already
/// have a value. Also tells which variables some other one refers to.
pub fn resolution_plan(decls: &[VarSource], preset: &[String]) -> (r: (Vec<ResolveStep>, Vec<bool>))
    ensures
        r.0@ == spec_plan(decls@, preset@.map_values(|p: String| utf8(p@))).steps,
        r.1@ == spec_plan(decls@, preset@.map_values(|p: String| utf8(p@))).used,
{
    let ghost d = decls@;
    let ghost pv = preset@.map_values(|p: String| utf8(p@));
    let n = decls.len();
    let mut deps: Vec<Vec<String>> = Vec::new();
    let mut resolved: Vec<bool> = Vec::new();
    let mut k: usize = 0;
    while k < n
        invariant
            d == decls@,
            n == d.len(),
            pv == preset@.map_values(|p: String| utf8(p@)),
            k <= n,
            deps@.len() == k,
            resolved@.len() == k,
            forall|j: int| 0 <= j < k ==> (#[trigger] deps@[j])@.len() == deps_of(d, j).len(),
            forall|j: int, i: int| 0 <= j < k && 0 <= i < deps_of(d, j).len()
                ==> utf8((#[trigger] deps@[j]@[i])@) == deps_of(d, j)[i],
            forall|j: int| 0 <= j < k ==> (#[trigger] resolved@[j]) == pv.contains(var_name(d, j)),
        decreases n - k,
    {
        let dk = match &decls[k].text {
            Some(t) => referenced_vars(t.as_str()),
            None => Vec::new(),
        };
        deps.push(dk);
        let mut found = false;
        let mut p: usize = 0;
        while p < preset.len()
            invariant
                d == decls@,
                k < d.len(),
                pv == preset@.map_values(|p: String| utf8(p@)),
                p <= preset@.len(),
                found == (exists|q: int| 0 <= q < p && pv[q] == var_name(d, k as int)),
            decreases preset@.len() - p,
        {
            proof {
                assert(pv[p as int] == utf8(preset@[p as int]@));
            }
            if str_eq(preset[p].as_str(), decls[k].name.as_str()) {
                found = true;
            } else {
                proof {
                    if pv[p as int] == var_name(d, k as int) {
                        crate::text::lemma_utf8_injective(preset@[p as int]@, d[k as int].name@);
                    }
                }
            }
            p = p + 1;
        }
        proof {
            if found {
                let q = choose|q: int| 0 <= q < p && pv[q] == var_name(d, k as int);
                assert(pv.contains(var_name(d, k as int)));
            } else {
                assert(!pv.contains(var_name(d, k as int)));
            }
        }
        resolved.push(found);
        k = k + 1;
    }
    let mut planner = Planner {
        resolved,
        resolving: vec![false; n],
        used: vec![false; n],
        steps: Vec::new(),
    };
    proof {
        assert(planner.state() == initial_state(d, pv)) by {
            assert(planner.resolved@ =~= initial_state(d, pv).resolved);
            assert(planner.resolving@ =~= initial_state(d, pv).resolving);
            assert(planner.used@ =~= initial_state(d, pv).used);
            assert(planner.steps@ =~= initial_state(d, pv).steps);
        }
    }
    let mut k: usize = 0;
    while k < n
        invariant
            d == decls@,
            n == d.len(),
            deps_match(d, deps@),
            k <= n,
            state_wf(d, planner.state()),
            spec_plan(d, pv) == visit_all(d, k as int, planner.state()),
        decreases n - k,
    {
        planner.visit(decls, &deps, k);
        k = k + 1;
    }
    (planner.steps, planner.used)
}


/// Variable `j` has been evaluated.
pub open spec fn evaluated(steps: Seq<ResolveStep>, j: int) -> bool {
    steps.contains(ResolveStep::Evaluate(j as usize))
}

/// Every variable that has a value, is not being resolved and had no value
/// to begin with (`base`) was evaluated.
pub open spec fn settled(d: Seq<VarSource>, st: PlanState, base: Seq<bool>) -> bool {
    forall|j: int| 0 <= j < d.len() && #[trigger] st.resolved[j] && !st.resolving[j] && !base[j]
        ==> evaluated(st.steps, j)
}

/// `b` extends `a`: more variables have values, and the steps of `a` come
/// first in `b`.
pub open spec fn grows(a: PlanState, b: PlanState) -> bool {
    &&& forall|j: int| 0 <= j < a.resolved.len() && #[trigger] a.resolved[j] ==> b.resolved[j]
    &&& a.steps.len() <= b.steps.len()
    &&& b.steps.take(a.steps.len() as int) == a.steps
}

proof fn lemma_grows_evaluated(a: PlanState, b: PlanState, j: int)
    requires
        grows(a, b),
        evaluated(a.steps, j),
    ensures
        evaluated(b.steps, j),
{
    let i = choose|i: int| 0 <= i < a.steps.len() && a.steps[i] == ResolveStep::Evaluate(j as usize);
    assert(b.steps.take(a.steps.len() as int)[i] == b.steps[i]);
}

proof fn lemma_grows_trans(a: PlanState, b: PlanState, c: PlanState)
    requires
        grows(a, b),
        grows(b, c),
        a.resolved.len() == b.resolved.len(),
    ensures
        grows(a, c),
{
    assert(c.steps.take(a.steps.len() as int) =~= c.steps.take(b.steps.len() as int).take(a.steps.len() as int));
}


/// Variable `j` got a value in `steps`: it was evaluated or found circular.
pub open spec fn has_value(steps: Seq<ResolveStep>, j: int) -> bool {
    steps.contains(ResolveStep::Evaluate(j as usize)) || steps.contains(ResolveStep::Circular(j as usize))
}

/// The `i`-th name that variable `k` refers to, when it is another declared
/// variable.
pub open spec fn dep_target(d: Seq<VarSource>, k: int, i: int) -> Option<int> {
    let dep = deps_of(d, k)[i];
    match index_of(d, dep, 0) {
        Some(j) => if dep != var_name(d, k) && 0 <= j < d.len() { Some(j) } else { None },
        None => None,
    }
}

/// Every variable that `k` refers to had a value (to begin with, or from
/// `steps`).
pub open spec fn deps_ready(d: Seq<VarSource>, k: int, steps: Seq<ResolveStep>, base: Seq<bool>) -> bool {
    forall|i: int| 0 <= i < deps_of(d, k).len() && #[trigger] dep_target(d, k, i) is Some
        ==> base[dep_target(d, k, i)->0] || has_value(steps, dep_target(d, k, i)->0)
}

/// Each evaluation comes after the variables it refers to got a value.
pub open spec fn ordered(d: Seq<VarSource>, steps: Seq<ResolveStep>, base: Seq<bool>) -> bool {
    forall|p: int| 0 <= p < steps.len() && #[trigger] steps[p] is Evaluate
        ==> deps_ready(d, steps[p]->Evaluate_0 as int, steps.take(p), base)
}

/// Every variable with a value had it to begin with or got it in a step.
pub open spec fn accounted(d: Seq<VarSource>, st: PlanState, base: Seq<bool>) -> bool {
    forall|j: int| 0 <= j < d.len() && #[trigger] st.resolved[j] ==> base[j] || has_value(st.steps, j)
}

/// Extending the steps keeps every earlier evaluation ordered.
proof fn lemma_grows_ordered(d: Seq<VarSource>, a: PlanState, b: PlanState, base: Seq<bool>)
    requires
        grows(a, b),
        ordered(d, a.steps, base),
        forall|p: int| a.steps.len() <= p < b.steps.len() && #[trigger] b.steps[p] is Evaluate
            ==> deps_ready(d, b.steps[p]->Evaluate_0 as int, b.steps.take(p), base),
    ensures
        ordered(d, b.steps, base),
{
    assert forall|p: int| 0 <= p < b.steps.len() && #[trigger] b.steps[p] is Evaluate
        implies deps_ready(d, b.steps[p]->Evaluate_0 as int, b.steps.take(p), base) by {
        if p < a.steps.len() {
            assert(b.steps[p] == a.steps[p]) by {
                assert(b.steps.take(a.steps.len() as int)[p] == b.steps[p]);
            }
            assert(b.steps.take(p) =~= a.steps.take(p)) by {
                assert forall|q: int| 0 <= q < p implies b.steps.take(p)[q] == a.steps.take(p)[q] by {
                    assert(b.steps.take(a.steps.len() as int)[q] == b.steps[q]);
                }
            }
        }
    }
}

proof fn lemma_visit(d: Seq<VarSource>, k: int, st: PlanState, base: Seq<bool>)
    requires
        d.len() <= usize::MAX,
        state_wf(d, st),
        base.len() == d.len(),
        settled(d, st, base),
        accounted(d, st, base),
        ordered(d, st.steps, base),
    ensures
        accounted(d, visit(d, k, st), base),
        ordered(d, visit(d, k, st).steps, base),
        state_wf(d, visit(d, k, st)),
        visit(d, k, st).resolving == st.resolving,
        grows(st, visit(d, k, st)),
        settled(d, visit(d, k, st), base),
        0 <= k < d.len() ==> visit(d, k, st).resolved[k],
    decreases d.len() - count_true(st.resolving), 0int, 0int,
{
    let r = visit(d, k, st);
    if !(0 <= k < d.len()) || st.resolved[k] {
        assert(st.steps.take(st.steps.len() as int) =~= st.steps);
    } else if st.resolving[k] {
        assert(r.steps.take(st.steps.len() as int) =~= st.steps);
        lemma_grows_ordered(d, st, r, base);
        assert forall|j: int| 0 <= j < d.len() && #[trigger] r.resolved[j] && !r.resolving[j] && !base[j]
            implies evaluated(r.steps, j) by {
            assert(j != k);
            assert(evaluated(st.steps, j));
            lemma_grows_evaluated(st, r, j);
        }
    } else {
        let st1 = PlanState { resolving: st.resolving.update(k, true), ..st };
        lemma_count_set(st.resolving, k);
        lemma_count_bound(st1.resolving);
        assert(settled(d, st1, base));
        lemma_visit_deps(d, k, 0, st1, base);
        let st2 = visit_deps(d, k, 0, st1);
        assert(r.steps.take(st2.steps.len() as int) =~= st2.steps);
        assert(grows(st2, r));
        lemma_grows_trans(st1, st2, r);
        assert(deps_ready(d, k, st2.steps, base)) by {
            assert forall|i: int| 0 <= i < deps_of(d, k).len() && #[trigger] dep_target(d, k, i) is Some
                implies base[dep_target(d, k, i)->0] || has_value(st2.steps, dep_target(d, k, i)->0) by {
                assert(st2.resolved[dep_target(d, k, i)->0]);
            }
        }
        assert(r.steps.take(st2.steps.len() as int) =~= st2.steps);
        assert(r.steps[st2.steps.len() as int] == ResolveStep::Evaluate(k as usize));
        lemma_grows_ordered(d, st2, r, base);
        assert forall|j: int| 0 <= j < d.len() && #[trigger] r.resolved[j] && !r.resolving[j] && !base[j]
            implies evaluated(r.steps, j) by {
            if j == k {
                assert(r.steps[r.steps.len() - 1] == ResolveStep::Evaluate(k as usize));
            } else {
                assert(st2.resolved[j] && !st2.resolving[j]);
                lemma_grows_evaluated(st2, r, j);
            }
        }
    }
}

proof fn lemma_visit_deps(d: Seq<VarSource>, k: int, i: int, st: PlanState, base: Seq<bool>)
    requires
        0 <= i,
        d.len() <= usize::MAX,
        state_wf(d, st),
        base.len() == d.len(),
        settled(d, st, base),
        accounted(d, st, base),
        ordered(d, st.steps, base),
    ensures
        accounted(d, visit_deps(d, k, i, st), base),
        ordered(d, visit_deps(d, k, i, st).steps, base),
        0 <= k < d.len() ==> forall|i2: int| i <= i2 < deps_of(d, k).len() && #[trigger] dep_target(d, k, i2) is Some
            ==> visit_deps(d, k, i, st).resolved[dep_target(d, k, i2)->0],
        state_wf(d, visit_deps(d, k, i, st)),
        visit_deps(d, k, i, st).resolving == st.resolving,
        grows(st, visit_deps(d, k, i, st)),
        settled(d, visit_deps(d, k, i, st), base),
    decreases d.len() - count_true(st.resolving), 1int, deps_of(d, k).len() - i,
{
    if !(0 <= k < d.len() && 0 <= i < deps_of(d, k).len()) {
        assert(st.steps.take(st.steps.len() as int) =~= st.steps);
    } else {
        let dep = deps_of(d, k)[i];
        let next = match index_of(d, dep, 0) {
            Some(j) => if dep != var_name(d, k) && 0 <= j < d.len() {
                let st1 = PlanState { used: st.used.update(j, true), ..st };
                let st2 = if !st1.resolved[j] { visit(d, j, st1) } else { st1 };
                PlanState { resolving: st.resolving, ..st2 }
            } else {
                st
            },
            None => st,
        };
        match dep_target(d, k, i) {
            Some(j) => {
                let st1 = PlanState { used: st.used.update(j, true), ..st };
                assert(st1.steps.take(st1.steps.len() as int) =~= st1.steps);
                if !st1.resolved[j] {
                    lemma_visit(d, j, st1, base);
                    assert(next == visit(d, j, st1));
                } else {
                    assert(next == st1);
                }
                assert(grows(st, next));
                assert(next.resolved[j]);
            },
            None => {
                assert(next == st);
                assert(st.steps.take(st.steps.len() as int) =~= st.steps);
            },
        }
        lemma_visit_deps(d, k, i + 1, next, base);
        let res = visit_deps(d, k, i + 1, next);
        assert(visit_deps(d, k, i, st) == res);
        lemma_grows_trans(st, next, res);
        assert forall|i2: int| i <= i2 < deps_of(d, k).len() && #[trigger] dep_target(d, k, i2) is Some
            implies res.resolved[dep_target(d, k, i2)->0] by {
            if i2 == i {
                assert(next.resolved[dep_target(d, k, i)->0]);
            }
        }
    }
}

proof fn lemma_visit_all(d: Seq<VarSource>, k: int, st: PlanState, base: Seq<bool>)
    requires
        d.len() <= usize::MAX,
        state_wf(d, st),
        base.len() == d.len(),
        settled(d, st, base),
        accounted(d, st, base),
        ordered(d, st.steps, base),
        0 <= k <= d.len(),
        forall|j: int| 0 <= j < k ==> #[trigger] st.resolved[j],
        forall|j: int| 0 <= j < d.len() ==> !#[trigger] st.resolving[j],
    ensures
        settled(d, visit_all(d, k, st), base),
        ordered(d, visit_all(d, k, st).steps, base),
        forall|j: int| 0 <= j < d.len() ==> #[trigger] visit_all(d, k, st).resolved[j],
        forall|j: int| 0 <= j < d.len() ==> !#[trigger] visit_all(d, k, st).resolving[j],
    decreases d.len() - k,
{
    if k < d.len() {
        lemma_visit(d, k, st, base);
        let v = visit(d, k, st);
        assert forall|j: int| 0 <= j < k + 1 implies #[trigger] v.resolved[j] by {
            if j < k {
                assert(st.resolved[j]);
            }
        }
        lemma_visit_all(d, k + 1, v, base);
    }
}

/// Resolution evaluates every declared variable that did not have a value
/// to begin with.
pub proof fn law_every_variable_evaluated(d: Seq<VarSource>, preset: Seq<Seq<u8>>)
    requires
        d.len() <= usize::MAX,
    ensures
        forall|k: int| 0 <= k < d.len() && !preset.contains(var_name(d, k))
            ==> evaluated(spec_plan(d, preset).steps, k),
{
    let st = initial_state(d, preset);
    let base = st.resolved;
    assert(settled(d, st, base));
    lemma_visit_all(d, 0, st, base);
    let r = spec_plan(d, preset);
    assert forall|k: int| 0 <= k < d.len() && !preset.contains(var_name(d, k)) implies evaluated(r.steps, k) by {
        assert(r.resolved[k]);
        assert(!r.resolving[k]);
        assert(!base[k]);
    }
}


/// A variable is evaluated only once every declared variable it refers to
/// has a value: one it had to begin with, or one evaluated (or found
/// circular) in an earlier step.
pub proof fn law_dependencies_first(d: Seq<VarSource>, preset: Seq<Seq<u8>>)
    requires
        d.len() <= usize::MAX,
    ensures
        ordered(d, spec_plan(d, preset).steps, initial_state(d, preset).resolved),
{
    let st = initial_state(d, preset);
    lemma_visit_all(d, 0, st, st.resolved);
}

} // verus!
