pub mod coerce;
pub mod refs;
pub mod table;
pub mod vars;

use vstd::prelude::*;
use crate::config::ConfigErrorKind;
use crate::text::{owned, push_str, str_eq};

verus! {

/// The warning for a definition that nothing uses: a variable, or an
/// element.
pub open spec fn unused_message(id: Seq<char>, is_var: bool) -> (ConfigErrorKind, Seq<char>) {
    if is_var {
        (ConfigErrorKind::UnusedVariable, "variable \""@ + id + "\" is defined but never used"@)
    } else {
        (ConfigErrorKind::UnusedElement, "element \""@ + id + "\" is defined but never used"@)
    }
}

/// The warnings for the definitions `decls` (each an id and whether it is
/// a variable), in order, that are not among the ids `used`.
pub open spec fn unused_report(decls: Seq<(Seq<char>, bool)>, used: Seq<Seq<char>>) -> Seq<(ConfigErrorKind, Seq<char>)>
    decreases decls.len(),
{
    if decls.len() == 0 {
        seq![]
    } else {
        let before = unused_report(decls.drop_last(), used);
        let (id, is_var) = decls.last();
        if used.contains(id) { before } else { before.push(unused_message(id, is_var)) }
    }
}

fn is_used(used: &[String], id: &str) -> (r: bool)
    ensures
        r == used@.map_values(|u: String| u@).contains(id@),
{
    let ghost uv = used@.map_values(|u: String| u@);
    let mut i: usize = 0;
    while i < used.len()
        invariant
            i <= used@.len(),
            uv == used@.map_values(|u: String| u@),
            forall|k: int| 0 <= k < i ==> uv[k] != id@,
        decreases used@.len() - i,
    {
        if str_eq(used[i].as_str(), id) {
            proof {
                assert(uv[i as int] == id@);
            }
            return true;
        }
        i = i + 1;
    }
    false
}

/// The warnings that resolution gives about definitions nothing used:
/// for each definition of `decls` (an id, and whether it is a variable),
/// in order, whose id is not in `used`, `variable "<id>" is defined but
/// never used` or `element "<id>" is defined but never used`.
pub fn unused_warnings(decls: &[(String, bool)], used: &[String]) -> (r: Vec<(ConfigErrorKind, String)>)
    ensures
        r@.len() == unused_report(decls@.map_values(|d: (String, bool)| (d.0@, d.1)), used@.map_values(|u: String| u@)).len(),
        forall|k: int| 0 <= k < r@.len() ==> ((#[trigger] r@[k]).0, r@[k].1@)
            == unused_report(decls@.map_values(|d: (String, bool)| (d.0@, d.1)), used@.map_values(|u: String| u@))[k],
{
    let ghost dv = decls@.map_values(|d: (String, bool)| (d.0@, d.1));
    let ghost uv = used@.map_values(|u: String| u@);
    let mut out: Vec<(ConfigErrorKind, String)> = Vec::new();
    let mut i: usize = 0;
    while i < decls.len()
        invariant
            i <= decls@.len(),
            dv == decls@.map_values(|d: (String, bool)| (d.0@, d.1)),
            uv == used@.map_values(|u: String| u@),
            out@.len() == unused_report(dv.take(i as int), uv).len(),
            forall|k: int| 0 <= k < out@.len() ==> ((#[trigger] out@[k]).0, out@[k].1@) == unused_report(dv.take(i as int), uv)[k],
        decreases decls@.len() - i,
    {
        proof {
            assert(dv.take(i + 1).drop_last() =~= dv.take(i as int));
            assert(dv.take(i + 1).last() == dv[i as int]);
        }
        let id = decls[i].0.as_str();
        if !is_used(used, id) {
            let (kind, mut m) = if decls[i].1 {
                (ConfigErrorKind::UnusedVariable, owned("variable \""))
            } else {
                (ConfigErrorKind::UnusedElement, owned("element \""))
            };
            push_str(&mut m, id);
            push_str(&mut m, "\" is defined but never used");
            out.push((kind, m));
        }
        i = i + 1;
    }
    proof {
        assert(dv.take(i as int) =~= dv);
    }
    out
}

} // verus!
