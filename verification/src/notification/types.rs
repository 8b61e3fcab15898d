//! A desktop notification as received over the bus, and its action list.

use vstd::prelude::*;
use crate::text::str_eq;

verus! {

/// A notification as the notification server received it.
#[derive(Debug, Clone, PartialEq, Eq)]
pub struct Notification {
    pub app_name: String,
    pub app_icon: String,
    pub replaces_id: u32,
    pub summary: String,
    pub body: String,
    pub actions: Vec<String>,
    pub expire_timeout: i32,
    pub notification_id: u32,
    pub desktop_entry: String,
    pub image_path: Option<String>,
}

/// The actions of a flat `[id, label, id, label, ...]` list as
/// `(id, label)` pairs; an unpaired last entry is dropped.
pub open spec fn spec_action_pairs(actions: Seq<String>) -> Seq<(Seq<char>, Seq<char>)> {
    Seq::new(actions.len() / 2, |i: int| (actions[2 * i]@, actions[2 * i + 1]@))
}

/// Whether some action has the id `default`.
pub open spec fn has_default_action(actions: Seq<String>) -> bool {
    exists|i: int| 0 <= i < actions.len() / 2 && (#[trigger] actions[2 * i])@ == "default"@
}

/// Splits a flat action list into `(id, label)` pairs.
pub fn action_pairs(actions: &[String]) -> (r: Vec<(String, String)>)
    ensures
        r@.len() == spec_action_pairs(actions@).len(),
        forall|i: int| 0 <= i < r@.len() ==> (#[trigger] r@[i]).0@ == spec_action_pairs(actions@)[i].0
            && r@[i].1@ == spec_action_pairs(actions@)[i].1,
{
    let mut out: Vec<(String, String)> = Vec::new();
    let len = actions.len();
    let n = len / 2;
    let mut i: usize = 0;
    while i < n
        invariant
            len == actions@.len(),
            n == len / 2,
            i <= n,
            out@.len() == i,
            forall|k: int| 0 <= k < i ==> (#[trigger] out@[k]).0@ == actions@[2 * k]@
                && out@[k].1@ == actions@[2 * k + 1]@,
        decreases n - i,
    {
        let id = actions[2 * i].clone();
        let label = actions[2 * i + 1].clone();
        out.push((id, label));
        i = i + 1;
    }
    out
}

/// The id `default` when some action carries it.
pub fn default_action_key(actions: &[String]) -> (r: Option<String>)
    ensures
        r is Some <==> has_default_action(actions@),
        r matches Some(k) ==> k@ == "default"@,
{
    let pairs = action_pairs(actions);
    let mut i: usize = 0;
    while i < pairs.len()
        invariant
            pairs@.len() == actions@.len() / 2,
            forall|k: int| 0 <= k < pairs@.len() ==> (#[trigger] pairs@[k]).0@ == actions@[2 * k]@,
            i <= pairs@.len(),
            forall|k: int| 0 <= k < i ==> (#[trigger] actions@[2 * k])@ != "default"@,
        decreases pairs@.len() - i,
    {
        if str_eq(pairs[i].0.as_str(), "default") {
            proof {
                assert(pairs@[i as int].0@ == actions@[2 * i]@);
            }
            return Some(pairs[i].0.clone());
        }
        proof {
            assert(pairs@[i as int].0@ == actions@[2 * i]@);
        }
        i = i + 1;
    }
    proof {
        assert forall|k: int| 0 <= k < actions@.len() / 2 implies (#[trigger] actions@[2 * k])@ != "default"@ by {
            assert(pairs@[k].0@ == actions@[2 * k]@);
        }
    }
    None
}


/// The ids the notification server hands out: a new notification gets the
/// next number (starting at 1), one that replaces another keeps its id.
pub struct NotificationIds {
    count: u32,
}

impl NotificationIds {
    pub closed spec fn last(&self) -> u32 {
        self.count
    }

    pub fn new() -> (r: NotificationIds)
        ensures
            r.last() == 0,
    {
        NotificationIds { count: 0 }
    }

    /// The id of a notification that replaces `replaces_id` (0: none).
    pub fn assign(&mut self, replaces_id: u32) -> (id: u32)
        requires
            replaces_id == 0 ==> old(self).last() < u32::MAX,
        ensures
            replaces_id != 0 ==> id == replaces_id && final(self).last() == old(self).last(),
            replaces_id == 0 ==> id == old(self).last() + 1 && final(self).last() == id,
    {
        if replaces_id == 0 {
            self.count = self.count + 1;
            self.count
        } else {
            replaces_id
        }
    }
}

/// A number sent as a notification hint, by the width and sign it was
/// sent with; `Other` for a hint of another type.
#[derive(Debug, Clone, Copy, PartialEq, Eq, Structural)]
pub enum HintNumber {
    U8(u8),
    U16(u16),
    U32(u32),
    U64(u64),
    I16(i16),
    I32(i32),
    I64(i64),
    Other,
}

/// `n` clamped to the urgency levels 0 (low), 1 (normal) and 2 (critical).
pub open spec fn clamp_urgency(n: int) -> u8 {
    if n < 0 { 0 } else if n > 2 { 2 } else { n as u8 }
}

/// The urgency that an `urgency` hint asks for: normal (1) without the hint
/// or with one that is not a number; otherwise the number, read as an
/// `i64` (a `u64` above `i64::MAX` wraps to a negative value), clamped to
/// 0..=2.
pub open spec fn spec_urgency(hint: Option<HintNumber>) -> u8 {
    match hint {
        None => 1,
        Some(HintNumber::U8(n)) => clamp_urgency(n as int),
        Some(HintNumber::U16(n)) => clamp_urgency(n as int),
        Some(HintNumber::U32(n)) => clamp_urgency(n as int),
        Some(HintNumber::U64(n)) => if n > i64::MAX { 0 } else { clamp_urgency(n as int) },
        Some(HintNumber::I16(n)) => clamp_urgency(n as int),
        Some(HintNumber::I32(n)) => clamp_urgency(n as int),
        Some(HintNumber::I64(n)) => clamp_urgency(n as int),
        Some(HintNumber::Other) => 1,
    }
}

fn clamp_level(n: i64) -> (r: u8)
    ensures
        r == clamp_urgency(n as int),
{
    if n < 0 {
        0
    } else if n > 2 {
        2
    } else {
        n as u8
    }
}

/// The urgency of a notification from its `urgency` hint, if it has one.
pub fn hint_urgency(hint: Option<HintNumber>) -> (r: u8)
    ensures
        r == spec_urgency(hint),
        r <= 2,
{
    match hint {
        None => 1,
        Some(HintNumber::U8(n)) => clamp_level(n as i64),
        Some(HintNumber::U16(n)) => clamp_level(n as i64),
        Some(HintNumber::U32(n)) => clamp_level(n as i64),
        Some(HintNumber::U64(n)) => if n > 0x7fff_ffff_ffff_ffffu64 { 0 } else { clamp_level(n as i64) },
        Some(HintNumber::I16(n)) => clamp_level(n as i64),
        Some(HintNumber::I32(n)) => clamp_level(n as i64),
        Some(HintNumber::I64(n)) => clamp_level(n),
        Some(HintNumber::Other) => 1,
    }
}


/// The number a hint carries, where it carries one that fits an `i64`.
pub open spec fn hint_value(h: HintNumber) -> Option<int> {
    match h {
        HintNumber::U8(n) => Some(n as int),
        HintNumber::U16(n) => Some(n as int),
        HintNumber::U32(n) => Some(n as int),
        HintNumber::U64(n) => if n <= i64::MAX { Some(n as int) } else { None },
        HintNumber::I16(n) => Some(n as int),
        HintNumber::I32(n) => Some(n as int),
        HintNumber::I64(n) => Some(n as int),
        HintNumber::Other => None,
    }
}

/// An urgency hint that is already a level (0 low, 1 normal, 2 critical)
/// is kept as it is; a lower number gives low and a higher one critical;
/// no hint, or one that is not a number, gives normal.
pub proof fn law_urgency_levels(h: HintNumber)
    ensures
        hint_value(h) matches Some(n) ==> (0 <= n <= 2 ==> spec_urgency(Some(h)) as int == n),
        hint_value(h) matches Some(n) ==> (n < 0 ==> spec_urgency(Some(h)) == 0),
        hint_value(h) matches Some(n) ==> (n > 2 ==> spec_urgency(Some(h)) == 2),
        h matches HintNumber::U64(n) ==> (n > i64::MAX ==> spec_urgency(Some(h)) == 0),
        h is Other ==> spec_urgency(Some(h)) == 1,
        spec_urgency(None) == 1,
        spec_urgency(Some(h)) <= 2,
{
}


/// The pairs written out again, id then label.
pub open spec fn flatten_pairs(ps: Seq<(Seq<char>, Seq<char>)>) -> Seq<Seq<char>>
    decreases ps.len(),
{
    if ps.len() == 0 { seq![] } else { flatten_pairs(ps.drop_last()) + seq![ps.last().0, ps.last().1] }
}

/// Reading an action list as `(id, label)` pairs loses nothing but an
/// unpaired last entry: the pairs, written out id then label, are the list
/// without that entry.
pub proof fn law_action_pairs_flatten(actions: Seq<String>)
    ensures
        flatten_pairs(spec_action_pairs(actions)) == actions.take((2 * (actions.len() / 2)) as int).map_values(|a: String| a@),
    decreases actions.len(),
{
    let n = actions.len() / 2;
    if n == 0 {
        assert(spec_action_pairs(actions).len() == 0);
        assert(actions.take(0).map_values(|a: String| a@) =~= Seq::<Seq<char>>::empty());
    } else {
        let shorter = actions.take(2 * n - 2);
        law_action_pairs_flatten(shorter);
        assert(shorter.len() / 2 == n - 1);
        assert(spec_action_pairs(actions).drop_last() =~= spec_action_pairs(shorter));
        assert(shorter.take(2 * (n - 1)) =~= shorter);
        let full = actions.take((2 * n) as int).map_values(|a: String| a@);
        assert(full =~= shorter.map_values(|a: String| a@) + seq![actions[2 * n - 2]@, actions[2 * n - 1]@]);
    }
}

} // verus!
