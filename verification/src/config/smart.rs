//! Smart variables: the names the daemon fills in itself (`iwwc.ram.*`,
//! `iwwc.cpu.*`, `iwwc.activesong`) and the parsing of `/proc/meminfo`.

use vstd::prelude::*;
use vstd::string::StrSliceExecFns;
use core::time::Duration;
use crate::config::primitives::duration_of_millis;
use crate::number::{parse_i128, spec_parse_i128};
use vstd::string::StringSliceAdditionalSpecFns;
use crate::config::math::evaluator::{Operand, OperandView};
use crate::text::{
    chars_of, has_prefix, is_prefix, is_ws, char_is_ws, split_chars, lemma_split_nonempty, str_eq,
    lemma_utf8_injective, owned, push_str, utf8,
};

verus! {

// ------------------------------------------------------------ namespaces

/// `name` lies below the namespace `ns`: it starts with `ns.`.
pub open spec fn in_namespace(name: Seq<char>, ns: Seq<char>) -> bool {
    is_prefix(ns, name) && name.len() > ns.len() && name[ns.len() as int] == '.'
}

/// The polling namespace a variable name belongs to.
pub open spec fn spec_namespace_of(name: Seq<char>) -> Option<Seq<char>> {
    if name == "iwwc.activesong"@ {
        Some("iwwc.activesong"@)
    } else if in_namespace(name, "iwwc.ram"@) {
        Some("iwwc.ram"@)
    } else if in_namespace(name, "iwwc.cpu"@) {
        Some("iwwc.cpu"@)
    } else {
        None
    }
}

/// The interval at which a namespace is polled.
pub open spec fn spec_poll_interval(ns: Seq<char>) -> Option<Duration> {
    if ns == "iwwc.ram"@ || ns == "iwwc.cpu"@ { Some(duration_of_millis(1000)) } else { None }
}

/// The namespaces of the smart variables `keys` that an evaluation looked
/// up, each once, in the order they first appear.
pub open spec fn polled_namespaces(keys: Seq<Seq<char>>) -> Seq<Seq<char>>
    decreases keys.len(),
{
    if keys.len() == 0 {
        seq![]
    } else {
        let before = polled_namespaces(keys.drop_last());
        match spec_namespace_of(keys.last()) {
            Some(ns) => if before.contains(ns) { before } else { before.push(ns) },
            None => before,
        }
    }
}

/// Each namespace is polled once, however often its variables were
/// looked up; and every namespace polled is that of a looked-up variable.
pub proof fn law_each_namespace_polled_once(keys: Seq<Seq<char>>)
    ensures
        forall|i: int, j: int| 0 <= i < j < polled_namespaces(keys).len() ==>
            #[trigger] polled_namespaces(keys)[i] != #[trigger] polled_namespaces(keys)[j],
        forall|i: int| 0 <= i < polled_namespaces(keys).len() ==>
            exists|k: int| 0 <= k < keys.len() && spec_namespace_of(#[trigger] keys[k]) == Some(#[trigger] polled_namespaces(keys)[i]),
    decreases keys.len(),
{
    if keys.len() > 0 {
        let before = keys.drop_last();
        law_each_namespace_polled_once(before);
        let p = polled_namespaces(keys);
        let b = polled_namespaces(before);
        assert forall|i: int| 0 <= i < p.len() implies
            exists|k: int| 0 <= k < keys.len() && spec_namespace_of(#[trigger] keys[k]) == Some(#[trigger] p[i]) by {
            if i < b.len() {
                assert(p[i] == b[i]);
                let k = choose|k: int| 0 <= k < before.len() && spec_namespace_of(#[trigger] before[k]) == Some(#[trigger] b[i]);
                assert(keys[k] == before[k]);
            } else {
                assert(spec_namespace_of(keys[keys.len() - 1]) == Some(p[i]));
            }
        }
        assert forall|i: int, j: int| 0 <= i < j < p.len() implies #[trigger] p[i] != #[trigger] p[j] by {
            if j < b.len() {
                assert(p[i] == b[i] && p[j] == b[j]);
            } else {
                assert(p[i] == b[i]);
                assert(!b.contains(p[j]));
            }
        }
    }
}

/// The namespaces to poll after an evaluation looked up the smart
/// variables `keys` (in the order given), each with its interval.
pub fn smart_polls(keys: &[String]) -> (r: Vec<(String, Option<Duration>)>)
    ensures
        r@.len() == polled_namespaces(keys@.map_values(|k: String| k@)).len(),
        forall|i: int| 0 <= i < r@.len() ==> (#[trigger] r@[i]).0@ == polled_namespaces(keys@.map_values(|k: String| k@))[i]
            && r@[i].1 == spec_poll_interval(r@[i].0@),
{
    let ghost ks = keys@.map_values(|k: String| k@);
    let mut out: Vec<(String, Option<Duration>)> = Vec::new();
    let mut i: usize = 0;
    while i < keys.len()
        invariant
            i <= keys@.len(),
            ks == keys@.map_values(|k: String| k@),
            out@.len() == polled_namespaces(ks.take(i as int)).len(),
            forall|j: int| 0 <= j < out@.len() ==> (#[trigger] out@[j]).0@ == polled_namespaces(ks.take(i as int))[j]
                && out@[j].1 == spec_poll_interval(out@[j].0@),
        decreases keys@.len() - i,
    {
        proof {
            assert(ks.take(i + 1).drop_last() =~= ks.take(i as int));
            assert(ks.take(i + 1).last() == keys@[i as int]@);
        }
        let ghost before = polled_namespaces(ks.take(i as int));
        match namespace_of(keys[i].as_str()) {
            Some(ns) => {
                let mut seen = false;
                let mut j: usize = 0;
                while j < out.len()
                    invariant
                        j <= out@.len(),
                        out@.len() == before.len(),
                        forall|q: int| 0 <= q < out@.len() ==> (#[trigger] out@[q]).0@ == before[q],
                        seen == (exists|q: int| 0 <= q < j && before[q] == ns@),
                    decreases out@.len() - j,
                {
                    if str_eq(out[j].0.as_str(), ns) {
                        seen = true;
                    }
                    j = j + 1;
                }
                proof {
                    if before.contains(ns@) {
                        let q = choose|q: int| 0 <= q < before.len() && before[q] == ns@;
                        assert(out@[q].0@ == before[q]);
                    }
                }
                if !seen {
                    out.push((owned(ns), poll_interval(ns)));
                }
            },
            None => {},
        }
        i = i + 1;
    }
    proof {
        assert(ks.take(i as int) =~= ks);
    }
    out
}

fn below(name: &[char], ns: &str) -> (r: bool)
    ensures
        r == in_namespace(name@, ns@),
{
    let p = chars_of(ns);
    has_prefix(name, p.as_slice()) && name.len() > p.len() && name[p.len()] == '.'
}

pub fn namespace_of(name: &str) -> (r: Option<&'static str>)
    ensures
        match spec_namespace_of(name@) {
            Some(ns) => r matches Some(x) && x@ == ns,
            None => r is None,
        },
{
    if str_eq(name, "iwwc.activesong") {
        return Some("iwwc.activesong");
    }
    let v = chars_of(name);
    if below(v.as_slice(), "iwwc.ram") {
        Some("iwwc.ram")
    } else if below(v.as_slice(), "iwwc.cpu") {
        Some("iwwc.cpu")
    } else {
        None
    }
}

/// How often a namespace is refreshed: RAM and CPU every second, the
/// active song only on change.
pub fn poll_interval(namespace: &str) -> (r: Option<Duration>)
    ensures
        (namespace@ == "iwwc.ram"@ || namespace@ == "iwwc.cpu"@) ==> r == Some(duration_of_millis(1000)),
        !(namespace@ == "iwwc.ram"@ || namespace@ == "iwwc.cpu"@) ==> r is None,
{
    if str_eq(namespace, "iwwc.ram") || str_eq(namespace, "iwwc.cpu") {
        Some(Duration::from_millis(1000))
    } else {
        None
    }
}

// ----------------------------------------------------------- active song

/// Two optional strings hold the same text.
pub open spec fn same_title(a: Option<String>, b: Option<String>) -> bool {
    match (a, b) {
        (None, None) => true,
        (Some(x), Some(y)) => x@ == y@,
        _ => false,
    }
}

/// Records the title of the song now playing; returns whether it changed.
pub fn set_activesong(current: &mut Option<String>, title: Option<String>) -> (changed: bool)
    ensures
        changed == !same_title(*old(current), title),
        changed ==> *final(current) == title,
        !changed ==> *final(current) == *old(current),
{
    let same = match (&*current, &title) {
        (None, None) => true,
        (Some(x), Some(y)) => str_eq(x.as_str(), y.as_str()),
        _ => false,
    };
    if same {
        return false;
    }
    *current = title;
    true
}

/// Setting the same title a second time changes nothing: whatever the
/// first call did, the recorded title then equals the new one.
pub proof fn law_same_title_twice(old: Option<String>, title: Option<String>)
    ensures
        same_title(if same_title(old, title) { old } else { title }, title),
{
}

// --------------------------------------------------------------- meminfo

/// The text up to the first whitespace, after leading whitespace.
pub open spec fn word_at(s: Seq<char>) -> Seq<char>
    decreases s.len(),
{
    if s.len() == 0 || is_ws(s[0]) {
        seq![]
    } else {
        seq![s[0]] + word_at(s.drop_first())
    }
}

/// The first whitespace-separated word.
pub open spec fn first_word(s: Seq<char>) -> Option<Seq<char>>
    decreases s.len(),
{
    if s.len() == 0 {
        None
    } else if is_ws(s[0]) {
        first_word(s.drop_first())
    } else {
        Some(word_at(s))
    }
}

/// The first word read as an `i128`.
pub open spec fn spec_parse_kb(s: Seq<char>) -> Option<i128> {
    match first_word(s) {
        Some(w) => spec_parse_i128(w),
        None => None,
    }
}

proof fn lemma_word_at(s: Seq<char>, j: int)
    requires
        0 <= j <= s.len(),
        forall|k: int| 0 <= k < j ==> !is_ws(#[trigger] s[k]),
        j == s.len() || is_ws(s[j]),
    ensures
        word_at(s) == s.take(j),
    decreases s.len(),
{
    if j == 0 {
        assert(s.take(0) =~= Seq::<char>::empty());
    } else {
        lemma_word_at(s.drop_first(), j - 1);
        assert(seq![s[0]] + s.drop_first().take(j - 1) =~= s.take(j));
    }
}

proof fn lemma_first_word(s: Seq<char>, i: int)
    requires
        0 <= i <= s.len(),
        forall|k: int| 0 <= k < i ==> is_ws(#[trigger] s[k]),
    ensures
        first_word(s) == first_word(s.skip(i)),
    decreases i,
{
    if i > 0 {
        assert(s.skip(i) =~= s.drop_first().skip(i - 1));
        lemma_first_word(s.drop_first(), i - 1);
    } else {
        assert(s.skip(0) =~= s);
    }
}

/// The leading number of a `/proc/meminfo` value, such as ` 8000 kB`.
pub fn parse_kb(s: &str) -> (r: Option<i128>)
    ensures
        r == spec_parse_kb(s@),
{
    let v = chars_of(s);
    let n = v.len();
    let mut i: usize = 0;
    while i < n && char_is_ws(v[i])
        invariant
            v@ == s@,
            n == v@.len(),
            i <= n,
            forall|k: int| 0 <= k < i ==> is_ws(#[trigger] s@[k]),
        decreases n - i,
    {
        i = i + 1;
    }
    proof {
        lemma_first_word(s@, i as int);
    }
    if i == n {
        proof {
            assert(s@.skip(i as int).len() == 0);
        }
        return None;
    }
    let mut j: usize = i;
    while j < n && !char_is_ws(v[j])
        invariant
            v@ == s@,
            n == v@.len(),
            i <= j <= n,
            forall|k: int| i <= k < j ==> !is_ws(#[trigger] s@[k]),
        decreases n - j,
    {
        j = j + 1;
    }
    proof {
        let t = s@.skip(i as int);
        assert forall|k: int| 0 <= k < j - i implies !is_ws(#[trigger] t[k]) by {
            assert(t[k] == s@[i + k]);
        }
        if j < n {
            assert(t[j - i] == s@[j as int]);
        }
        lemma_word_at(t, j - i);
        assert(t.take(j - i) =~= s@.subrange(i as int, j as int));
    }
    let w = s.substring_char(i, j);
    parse_i128(w)
}

/// A line that ended in `\n` loses a trailing `\r`.
pub open spec fn strip_cr(l: Seq<char>) -> Seq<char> {
    if l.len() > 0 && l[l.len() - 1] == '\r' { l.drop_last() } else { l }
}

/// `str::lines`: the text split at `\n`, the line ending `\r\n` counting as
/// one, and no empty line after a final line ending.
pub open spec fn lines_of(s: Seq<char>) -> Seq<Seq<char>> {
    let ps = split_chars(s, '\n');
    let full = ps.drop_last().map_values(|l: Seq<char>| strip_cr(l));
    if ps[ps.len() - 1].len() == 0 { full } else { full.push(ps[ps.len() - 1]) }
}

/// The `MemTotal:` and `MemAvailable:` values seen in a run of lines; a
/// later line of the same key replaces the earlier value.
pub open spec fn meminfo_fields(ls: Seq<Seq<char>>) -> (Option<i128>, Option<i128>)
    decreases ls.len(),
{
    if ls.len() == 0 {
        (None, None)
    } else {
        let (t, a) = meminfo_fields(ls.drop_last());
        let l = ls[ls.len() - 1];
        if is_prefix("MemTotal:"@, l) {
            (spec_parse_kb(l.skip("MemTotal:"@.len() as int)), a)
        } else if is_prefix("MemAvailable:"@, l) {
            (t, spec_parse_kb(l.skip("MemAvailable:"@.len() as int)))
        } else {
            (t, a)
        }
    }
}

/// Total and used memory in bytes; used is total minus available, not below zero.
pub open spec fn spec_meminfo(text: Seq<char>) -> Option<(int, int)> {
    match meminfo_fields(lines_of(text)) {
        (Some(t), Some(a)) => Some((t * 1024, if t - a > 0 { (t - a) * 1024 } else { 0 })),
        _ => None,
    }
}

/// The arithmetic of the result stays within `i128`.
pub open spec fn meminfo_in_range(text: Seq<char>) -> bool {
    match meminfo_fields(lines_of(text)) {
        (Some(t), Some(a)) => i128::MIN <= t * 1024 <= i128::MAX && i128::MIN <= t - a <= i128::MAX
            && (t - a) * 1024 <= i128::MAX,
        _ => true,
    }
}

fn meminfo_line(line: &str, total: Option<i128>, avail: Option<i128>) -> (r: (Option<i128>, Option<i128>))
    ensures
        r == (if is_prefix("MemTotal:"@, line@) {
            (spec_parse_kb(line@.skip("MemTotal:"@.len() as int)), avail)
        } else if is_prefix("MemAvailable:"@, line@) {
            (total, spec_parse_kb(line@.skip("MemAvailable:"@.len() as int)))
        } else {
            (total, avail)
        }),
{
    let v = chars_of(line);
    let pt = chars_of("MemTotal:");
    let pa = chars_of("MemAvailable:");
    if has_prefix(v.as_slice(), pt.as_slice()) {
        let rest = line.substring_char(pt.len(), v.len());
        proof {
            assert(rest@ =~= line@.skip("MemTotal:"@.len() as int));
        }
        (parse_kb(rest), avail)
    } else if has_prefix(v.as_slice(), pa.as_slice()) {
        let rest = line.substring_char(pa.len(), v.len());
        proof {
            assert(rest@ =~= line@.skip("MemAvailable:"@.len() as int));
        }
        (total, parse_kb(rest))
    } else {
        (total, avail)
    }
}

/// The `MemTotal:` and `MemAvailable:` values of the text, line by line.
fn meminfo_scan(text: &str) -> (r: (Option<i128>, Option<i128>))
    ensures
        r == meminfo_fields(lines_of(text@)),
{
    let v = chars_of(text);
    let n = v.len();
    let mut total: Option<i128> = None;
    let mut avail: Option<i128> = None;
    let mut start: usize = 0;
    let mut i: usize = 0;
    proof {
        assert(text@.take(0) =~= Seq::<char>::empty());
        assert(split_chars(text@.take(0), '\n').drop_last() =~= Seq::<Seq<char>>::empty());
        assert(split_chars(text@.take(0), '\n').drop_last().map_values(|l: Seq<char>| strip_cr(l))
            =~= Seq::<Seq<char>>::empty());
    }
    while i < n
        invariant
            v@ == text@,
            n == v@.len(),
            start <= i <= n,
            split_chars(text@.take(i as int), '\n').len() >= 1,
            split_chars(text@.take(i as int), '\n').last() == text@.subrange(start as int, i as int),
            (total, avail) == meminfo_fields(
                split_chars(text@.take(i as int), '\n').drop_last().map_values(|l: Seq<char>| strip_cr(l)),
            ),
        decreases n - i,
    {
        let ghost prev = split_chars(text@.take(i as int), '\n');
        proof {
            assert(text@.take(i + 1).drop_last() =~= text@.take(i as int));
            assert(text@.take(i + 1)[i as int] == text@[i as int]);
            lemma_split_nonempty(text@.take(i + 1), '\n');
        }
        if v[i] == '\n' {
            let mut end = i;
            if end > start && v[end - 1] == '\r' {
                end = end - 1;
            }
            let line = text.substring_char(start, end);
            let ghost piece = text@.subrange(start as int, i as int);
            proof {
                assert(line@ =~= strip_cr(piece));
            }
            let (t2, a2) = meminfo_line(line, total, avail);
            proof {
                let f = |l: Seq<char>| strip_cr(l);
                let next = split_chars(text@.take(i + 1), '\n');
                assert(next == prev.push(seq![]));
                assert(next.drop_last() =~= prev);
                let m = prev.map_values(f);
                assert(m.drop_last() =~= prev.drop_last().map_values(f));
                assert(m[m.len() - 1] == strip_cr(piece));
                assert(text@.subrange(i + 1, i + 1) =~= Seq::<char>::empty());
            }
            total = t2;
            avail = a2;
            start = i + 1;
        } else {
            proof {
                let next = split_chars(text@.take(i + 1), '\n');
                assert(next.drop_last() =~= prev.drop_last());
                assert(next.last() =~= text@.subrange(start as int, i + 1));
            }
        }
        i = i + 1;
    }
    proof {
        assert(text@.take(n as int) =~= text@);
    }
    if start < n {
        let line = text.substring_char(start, n);
        let (t2, a2) = meminfo_line(line, total, avail);
        proof {
            let ps = split_chars(text@, '\n');
            let full = ps.drop_last().map_values(|l: Seq<char>| strip_cr(l));
            assert(full.push(ps.last()).drop_last() =~= full);
        }
        total = t2;
        avail = a2;
    }
    (total, avail)
}

/// Reads total and used memory, in bytes, from the text of `/proc/meminfo`.
pub fn read_meminfo(text: &str) -> (r: Option<(i128, i128)>)
    requires
        meminfo_in_range(text@),
    ensures
        match spec_meminfo(text@) {
            Some((t, u)) => r == Some((t as i128, u as i128)),
            None => r is None,
        },
{
    let (total, avail) = meminfo_scan(text);
    let t = match total {
        Some(t) => t,
        None => return None,
    };
    let a = match avail {
        Some(a) => a,
        None => return None,
    };
    let used = if t - a > 0 { t - a } else { 0 };
    Some((t * 1024, used * 1024))
}

/// `read_meminfo` on any text: no result where the sizes in bytes do not
/// fit in an `i128`.
pub fn read_meminfo_checked(text: &str) -> (r: Option<(i128, i128)>)
    ensures
        meminfo_in_range(text@) ==> match spec_meminfo(text@) {
            Some((t, u)) => r == Some((t as i128, u as i128)),
            None => r is None,
        },
        !meminfo_in_range(text@) ==> r is None,
{
    let (total, avail) = meminfo_scan(text);
    let t = match total {
        Some(t) => t,
        None => return None,
    };
    let a = match avail {
        Some(a) => a,
        None => return None,
    };
    let bytes = match t.checked_mul(1024) {
        Some(b) => b,
        None => return None,
    };
    let diff = match t.checked_sub(a) {
        Some(d) => d,
        None => return None,
    };
    let used = if diff > 0 { diff } else { 0 };
    match used.checked_mul(1024) {
        Some(u) => Some((bytes, u)),
        None => None,
    }
}


/// Where the first `.` of `b` is, or its length when there is none.
pub open spec fn first_dot(b: Seq<u8>) -> int
    decreases b.len(),
{
    if b.len() == 0 {
        0
    } else if b[0] == 0x2eu8 {
        0
    } else {
        1 + first_dot(b.drop_first())
    }
}

/// The segment of `key` right below `prefix`: for `prefix.a.b` it is `a`.
pub open spec fn child_segment(key: Seq<u8>, dotted: Seq<u8>) -> Option<Seq<u8>> {
    if dotted.len() <= key.len() && key.take(dotted.len() as int) == dotted {
        let rest = key.skip(dotted.len() as int);
        Some(rest.take(first_dot(rest)))
    } else {
        None
    }
}

/// The distinct segments right below `prefix` among `keys`, in the order
/// they first appear.
pub open spec fn spec_children(keys: Seq<Seq<u8>>, dotted: Seq<u8>) -> Seq<Seq<u8>>
    decreases keys.len(),
{
    if keys.len() == 0 {
        seq![]
    } else {
        let acc = spec_children(keys.drop_last(), dotted);
        match child_segment(keys.last(), dotted) {
            Some(seg) => if acc.contains(seg) { acc } else { acc.push(seg) },
            None => acc,
        }
    }
}

proof fn lemma_first_dot(b: Seq<u8>)
    ensures
        0 <= first_dot(b) <= b.len(),
        first_dot(b) < b.len() ==> b[first_dot(b)] == 0x2eu8,
        forall|k: int| 0 <= k < first_dot(b) ==> #[trigger] b[k] != 0x2eu8,
    decreases b.len(),
{
    if b.len() > 0 && b[0] != 0x2eu8 {
        lemma_first_dot(b.drop_first());
        assert forall|k: int| 1 <= k < b.len() implies #[trigger] b[k] == b.drop_first()[k - 1] by {}
    }
}

proof fn lemma_first_dot_scan(b: Seq<u8>, j: int)
    requires
        0 <= j <= b.len(),
        forall|k: int| 0 <= k < j ==> #[trigger] b[k] != 0x2eu8,
        j == b.len() || b[j] == 0x2eu8,
    ensures
        first_dot(b) == j,
{
    lemma_first_dot(b);
    if first_dot(b) < j {
        assert(b[first_dot(b)] == 0x2eu8);
    }
}

/// Whether the bytes of `s` start with those of `p`.
fn bytes_start_with(s: &[u8], p: &[u8]) -> (r: bool)
    ensures
        r == (p@.len() <= s@.len() && s@.take(p@.len() as int) == p@),
{
    if p.len() > s.len() {
        return false;
    }
    let mut i: usize = 0;
    while i < p.len()
        invariant
            p@.len() <= s@.len(),
            i <= p@.len(),
            forall|k: int| 0 <= k < i ==> s@[k] == p@[k],
        decreases p@.len() - i,
    {
        if s[i] != p[i] {
            proof {
                assert(s@.take(p@.len() as int)[i as int] != p@[i as int]);
            }
            return false;
        }
        i = i + 1;
    }
    proof {
        assert(s@.take(p@.len() as int) =~= p@);
    }
    true
}

/// The segment of `key` right below the dotted prefix `dotted`.
fn child_of<'a>(key: &'a str, dotted: &str) -> (r: Option<&'a str>)
    requires
        dotted.spec_bytes().len() > 0,
        dotted.spec_bytes().last() == 0x2eu8,
    ensures
        match child_segment(key.spec_bytes(), dotted.spec_bytes()) {
            Some(seg) => r matches Some(x) && x.spec_bytes() == seg,
            None => r is None,
        },
{
    let kb = key.as_bytes();
    let db = dotted.as_bytes();
    if !bytes_start_with(kb, db) {
        return None;
    }
    let n = db.len();
    let ghost b = key.spec_bytes();
    proof {
        crate::text::lemma_str_valid(key);
        assert(b[n - 1] == 0x2eu8);
        crate::text::lemma_after_ascii(b, n - 1);
        crate::text::lemma_ends_at_boundary(b);
    }
    let rest = crate::text::sub_str(key, n, kb.len());
    let rb = rest.as_bytes();
    let mut j: usize = 0;
    while j < rb.len() && rb[j] != 0x2eu8
        invariant
            rb@ == rest.spec_bytes(),
            j <= rb@.len(),
            forall|k: int| 0 <= k < j ==> #[trigger] rb@[k] != 0x2eu8,
        decreases rb@.len() - j,
    {
        j = j + 1;
    }
    proof {
        lemma_first_dot_scan(rest.spec_bytes(), j as int);
        assert(rest.spec_bytes() =~= b.skip(n as int));
        crate::text::lemma_str_valid(rest);
        crate::text::lemma_ends_at_boundary(rest.spec_bytes());
    }
    let seg = crate::text::sub_str(rest, 0, j);
    proof {
        assert(seg.spec_bytes() =~= rest.spec_bytes().take(j as int));
    }
    Some(seg)
}

/// The distinct names right below `prefix` among `keys`, in the order they
/// first appear: for the keys `iwwc.cpu.0.usage` and `iwwc.cpu.1.usage`
/// and the prefix `iwwc.cpu`, they are `0` and `1`.
pub fn children(keys: &[String], prefix: &str) -> (r: Vec<String>)
    ensures
        r@.len() == spec_children(keys@.map_values(|k: String| utf8(k@)), utf8(prefix@) + seq![0x2eu8]).len(),
        forall|i: int| 0 <= i < r@.len() ==> utf8((#[trigger] r@[i])@)
            == spec_children(keys@.map_values(|k: String| utf8(k@)), utf8(prefix@) + seq![0x2eu8])[i],
{
    let mut dotted = owned(prefix);
    push_str(&mut dotted, ".");
    proof {
        reveal_strlit(".");
        assert((0x2eu32 & 0x7fu32) as u8 == 0x2eu8) by (bit_vector);
        assert("."@ =~= seq!['.']);
        assert("."@.drop_first() =~= Seq::<char>::empty());
        assert(vstd::utf8::encode_scalar('.' as u32) =~= seq![0x2eu8]);
        assert(utf8(Seq::<char>::empty()) =~= Seq::<u8>::empty());
        assert("."@[0] == '.');
        assert(utf8("."@) == vstd::utf8::encode_scalar("."@[0] as u32) + utf8("."@.drop_first()));
        assert(utf8("."@) =~= seq![0x2eu8]);
    }
    let ghost kv = keys@.map_values(|k: String| utf8(k@));
    let ghost d = utf8(prefix@) + seq![0x2eu8];
    let mut out: Vec<String> = Vec::new();
    let mut i: usize = 0;
    while i < keys.len()
        invariant
            kv == keys@.map_values(|k: String| utf8(k@)),
            d == utf8(prefix@) + seq![0x2eu8],
            utf8(dotted@) == d,
            i <= keys@.len(),
            out@.len() == spec_children(kv.take(i as int), d).len(),
            forall|k: int| 0 <= k < out@.len() ==> utf8((#[trigger] out@[k])@) == spec_children(kv.take(i as int), d)[k],
        decreases keys@.len() - i,
    {
        let ghost acc = spec_children(kv.take(i as int), d);
        proof {
            assert(kv.take(i + 1).drop_last() =~= kv.take(i as int));
            assert(kv.take(i + 1).last() == utf8(keys@[i as int]@));
        }
        let key = keys[i].as_str();
        match child_of(key, dotted.as_str()) {
            Some(seg) => {
                let mut found = false;
                let mut k: usize = 0;
                while k < out.len()
                    invariant
                        k <= out@.len(),
                        out@.len() == acc.len(),
                        forall|m: int| 0 <= m < out@.len() ==> utf8((#[trigger] out@[m])@) == acc[m],
                        found == (exists|m: int| 0 <= m < k && acc[m] == seg.spec_bytes()),
                    decreases out@.len() - k,
                {
                    if str_eq(out[k].as_str(), seg) {
                        found = true;
                    } else {
                        proof {
                            if acc[k as int] == seg.spec_bytes() {
                                lemma_utf8_injective(out@[k as int]@, seg@);
                            }
                        }
                    }
                    k = k + 1;
                }
                proof {
                    if found {
                        let m = choose|m: int| 0 <= m < k && acc[m] == seg.spec_bytes();
                        assert(acc.contains(seg.spec_bytes()));
                    } else {
                        assert(!acc.contains(seg.spec_bytes()));
                    }
                }
                if !found {
                    out.push(owned(seg));
                }
            },
            None => {},
        }
        i = i + 1;
    }
    proof {
        assert(kv.take(i as int) =~= kv);
    }
    out
}

/// The variables of the smart namespace that read as "no value yet":
/// an empty `iwwc.activesong`.
pub fn is_unset(key: &str, value: &Operand) -> (r: bool)
    ensures
        r == (key@ == "iwwc.activesong"@ && (value@ matches OperandView::Str(s) && s.len() == 0)),
{
    if !str_eq(key, "iwwc.activesong") {
        return false;
    }
    match value {
        Operand::Str(s) => s.as_str().is_empty(),
        _ => false,
    }
}


/// No name is listed twice by [`children`].
pub proof fn law_children_distinct(keys: Seq<Seq<u8>>, dotted: Seq<u8>)
    ensures
        forall|i: int, j: int| 0 <= i < j < spec_children(keys, dotted).len()
            ==> spec_children(keys, dotted)[i] != spec_children(keys, dotted)[j],
    decreases keys.len(),
{
    if keys.len() > 0 {
        law_children_distinct(keys.drop_last(), dotted);
        let acc = spec_children(keys.drop_last(), dotted);
        match child_segment(keys.last(), dotted) {
            Some(seg) => if !acc.contains(seg) {
                let r = acc.push(seg);
                assert forall|i: int, j: int| 0 <= i < j < r.len() implies r[i] != r[j] by {
                    if j == r.len() - 1 {
                        assert(r[j] == seg);
                        assert(r[i] == acc[i]);
                    }
                }
            },
            None => {},
        }
    }
}

/// Every name that [`children`] lists comes from one of the keys.
pub proof fn law_children_from_keys(keys: Seq<Seq<u8>>, dotted: Seq<u8>)
    ensures
        forall|i: int| 0 <= i < spec_children(keys, dotted).len() ==> exists|k: int| 0 <= k < keys.len()
            && child_segment(#[trigger] keys[k], dotted) == Some(#[trigger] spec_children(keys, dotted)[i]),
    decreases keys.len(),
{
    if keys.len() > 0 {
        let t = keys.drop_last();
        law_children_from_keys(t, dotted);
        let acc = spec_children(t, dotted);
        let r = spec_children(keys, dotted);
        assert forall|i: int| 0 <= i < r.len() implies exists|k: int| 0 <= k < keys.len()
            && child_segment(#[trigger] keys[k], dotted) == Some(#[trigger] r[i]) by {
            if i < acc.len() {
                assert(r[i] == acc[i]);
                let k = choose|k: int| 0 <= k < t.len() && child_segment(#[trigger] t[k], dotted) == Some(acc[i]);
                assert(keys[k] == t[k]);
            } else {
                assert(child_segment(keys[keys.len() - 1], dotted) == Some(r[i]));
            }
        }
    }
}

} // verus!
