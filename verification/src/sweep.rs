//! The annotation sweep: tracks which named address ranges are active as
//! the renderer advances monotonically through the address space.
//!
//! Construction derives two events from every range — an enter at its start
//! address and an exit one past its end — and keeps them sorted by
//! `(address, enters-before-exits, declaration index)`.  Advancing consumes
//! each due event exactly once, emitting a label and a line boundary into
//! the canvas as it goes; querying returns the highest declaration index
//! among the ranges whose interval contains the current address.

use vstd::prelude::*;
use vstd::string::StringExecFns;
use crate::blocks::Section;
use crate::hexfmt::{hex_addr, hex_bare, push_char, push_hex_addr, push_hex_bare};
use crate::hexprinter::{add_label_spec, bound_spec, set_addr_spec, CanvasModel, HexPrinter};
use crate::style::TextStyle;

verus! {

/// One enter or exit notification derived from a range.
#[derive(PartialEq, Eq, Structural, Clone, Copy, Debug)]
pub struct SweepEvent {
    pub addr: u64,
    pub index: usize,
    pub is_start: bool,
}

/// Well-formed range lists: lengths indexable, and no range runs past the
/// end of the address space.
pub open spec fn ranges_ok(s: Seq<Section>) -> bool {
    &&& s.len() <= usize::MAX as int
    &&& forall|i: int| 0 <= i < s.len() ==> (#[trigger] s[i].addr) + s[i].size <= u64::MAX
}

/// The enter event of range `i`.
pub open spec fn enter_event(s: Seq<Section>, i: int) -> SweepEvent {
    SweepEvent { addr: s[i].addr, index: i as usize, is_start: true }
}

/// The exit event of range `i`.
pub open spec fn exit_event(s: Seq<Section>, i: int) -> SweepEvent {
    SweepEvent { addr: (s[i].addr + s[i].size) as u64, index: i as usize, is_start: false }
}

/// `x` is one of the two events some range of `s` gives rise to.
pub open spec fn is_event_of(s: Seq<Section>, x: SweepEvent) -> bool {
    &&& (x.index as int) < s.len()
    &&& (x == enter_event(s, x.index as int) || x == exit_event(s, x.index as int))
}

/// The strict processing order on events: by address, enters before exits
/// at the same address, lower declaration index first among equals.
pub open spec fn event_lt(a: SweepEvent, b: SweepEvent) -> bool {
    ||| a.addr < b.addr
    ||| (a.addr == b.addr && a.is_start && !b.is_start)
    ||| (a.addr == b.addr && a.is_start == b.is_start && a.index < b.index)
}

pub open spec fn event_le(a: SweepEvent, b: SweepEvent) -> bool {
    event_lt(a, b) || a == b
}

pub open spec fn sorted_events(ev: Seq<SweepEvent>) -> bool {
    forall|i: int, j: int| #![trigger ev[i], ev[j]] 0 <= i < j < ev.len() ==> event_le(ev[i], ev[j])
}

/// `e` placed into `s` before the first element it precedes strictly.
pub open spec fn insert_event(s: Seq<SweepEvent>, e: SweepEvent) -> Seq<SweepEvent>
    decreases s.len(),
{
    if s.len() == 0 {
        seq![e]
    } else if event_lt(e, s[0]) {
        seq![e] + s
    } else {
        seq![s[0]] + insert_event(s.drop_first(), e)
    }
}

/// The sorted event list of the first `n` ranges.
pub open spec fn events_upto(s: Seq<Section>, n: int) -> Seq<SweepEvent>
    decreases n,
{
    if n <= 0 {
        Seq::empty()
    } else {
        insert_event(
            insert_event(events_upto(s, n - 1), enter_event(s, n - 1)),
            exit_event(s, n - 1),
        )
    }
}

/// The sorted event list of a range list.
pub open spec fn event_seq(s: Seq<Section>) -> Seq<SweepEvent> {
    events_upto(s, s.len() as int)
}

/// The number of events of `ev` whose kind matches `start`.
pub open spec fn count_matching(ev: Seq<SweepEvent>, start: bool) -> int
    decreases ev.len(),
{
    if ev.len() == 0 {
        0
    } else {
        (if ev[0].is_start == start { 1int } else { 0int }) + count_matching(ev.drop_first(), start)
    }
}

/// The position splitting events with address at most `a` from the rest.
pub open spec fn cut(ev: Seq<SweepEvent>, a: int) -> int
    decreases ev.len(),
{
    if ev.len() == 0 {
        0
    } else if ev[0].addr <= a {
        1 + cut(ev.drop_first(), a)
    } else {
        0
    }
}

/// Range `i` of `s` is active at address `a`.
pub open spec fn active_at(s: Seq<Section>, a: int, i: int) -> bool {
    0 <= i < s.len() && s[i].addr <= a && a < s[i].addr + s[i].size
}

proof fn lemma_contains_cons<T>(h: T, s: Seq<T>, x: T)
    ensures
        (seq![h] + s).contains(x) <==> (x == h || s.contains(x)),
{
    if (seq![h] + s).contains(x) {
        let k = choose|k: int| 0 <= k < (seq![h] + s).len() && (seq![h] + s)[k] == x;
        if k > 0 {
            assert(s[k - 1] == x);
        }
    }
    if x == h {
        assert((seq![h] + s)[0] == x);
    }
    if s.contains(x) {
        let k = choose|k: int| 0 <= k < s.len() && s[k] == x;
        assert((seq![h] + s)[k + 1] == x);
    }
}

proof fn lemma_sorted_drop_first(ev: Seq<SweepEvent>)
    requires
        sorted_events(ev),
        ev.len() > 0,
    ensures
        sorted_events(ev.drop_first()),
{
    assert forall|i: int, j: int|
        0 <= i < j < ev.drop_first().len() implies event_le(
        #[trigger] ev.drop_first()[i],
        #[trigger] ev.drop_first()[j],
    ) by {
        assert(ev.drop_first()[i] == ev[i + 1]);
        assert(ev.drop_first()[j] == ev[j + 1]);
    }
}

/// Inserting into a sorted event list keeps it sorted, grows it by one and
/// adds exactly the inserted element to its membership.
pub proof fn lemma_insert_event_props(s: Seq<SweepEvent>, e: SweepEvent)
    requires
        sorted_events(s),
    ensures
        insert_event(s, e).len() == s.len() + 1,
        sorted_events(insert_event(s, e)),
        forall|x: SweepEvent| #[trigger]
            insert_event(s, e).contains(x) <==> (s.contains(x) || x == e),
    decreases s.len(),
{
    let r = insert_event(s, e);
    if s.len() == 0 {
        assert forall|x: SweepEvent| #[trigger] r.contains(x) <==> (s.contains(x) || x == e) by {
            lemma_contains_cons(e, Seq::<SweepEvent>::empty(), x);
            assert(seq![e] + Seq::<SweepEvent>::empty() =~= seq![e]);
        }
    } else if event_lt(e, s[0]) {
        assert(r == seq![e] + s);
        assert forall|i: int, j: int| #![trigger r[i], r[j]]
            0 <= i < j < r.len() implies event_le(r[i], r[j]) by {
            if i == 0 {
                assert(r[j] == s[j - 1]);
                if j > 1 {
                    assert(event_le(s[0], s[j - 1]));
                }
            } else {
                assert(r[i] == s[i - 1]);
                assert(r[j] == s[j - 1]);
            }
        }
        assert forall|x: SweepEvent| #[trigger] r.contains(x) <==> (s.contains(x) || x == e) by {
            lemma_contains_cons(e, s, x);
        }
    } else {
        lemma_sorted_drop_first(s);
        lemma_insert_event_props(s.drop_first(), e);
        let rt = insert_event(s.drop_first(), e);
        assert(r == seq![s[0]] + rt);
        assert forall|k: int| 0 <= k < rt.len() implies event_le(s[0], #[trigger] rt[k]) by {
            assert(rt.contains(rt[k]));
            if rt[k] == e {
            } else {
                assert(s.drop_first().contains(rt[k]));
                let p = choose|p: int|
                    0 <= p < s.drop_first().len() && s.drop_first()[p] == rt[k];
                assert(s[p + 1] == rt[k]);
                assert(event_le(s[0], s[p + 1]));
            }
        }
        assert forall|i: int, j: int| #![trigger r[i], r[j]]
            0 <= i < j < r.len() implies event_le(r[i], r[j]) by {
            if i == 0 {
                assert(r[j] == rt[j - 1]);
            } else {
                assert(r[i] == rt[i - 1]);
                assert(r[j] == rt[j - 1]);
            }
        }
        assert forall|x: SweepEvent| #[trigger] r.contains(x) <==> (s.contains(x) || x == e) by {
            lemma_contains_cons(s[0], rt, x);
            lemma_contains_cons(s[0], s.drop_first(), x);
            assert(seq![s[0]] + s.drop_first() =~= s);
        }
    }
}

/// The event list of the first `n` ranges is sorted, holds two events per
/// range, and holds exactly those ranges' enter and exit events.
pub proof fn lemma_events_upto_props(s: Seq<Section>, n: int)
    requires
        ranges_ok(s),
        0 <= n <= s.len(),
    ensures
        events_upto(s, n).len() == 2 * n,
        sorted_events(events_upto(s, n)),
        forall|x: SweepEvent| #[trigger]
            events_upto(s, n).contains(x) ==> is_event_of(s, x) && (x.index as int) < n,
        forall|i: int| 0 <= i < n ==> events_upto(s, n).contains(#[trigger] enter_event(s, i)),
        forall|i: int| 0 <= i < n ==> events_upto(s, n).contains(#[trigger] exit_event(s, i)),
    decreases n,
{
    if n > 0 {
        lemma_events_upto_props(s, n - 1);
        let prev = events_upto(s, n - 1);
        let mid = insert_event(prev, enter_event(s, n - 1));
        let cur = insert_event(mid, exit_event(s, n - 1));
        lemma_insert_event_props(prev, enter_event(s, n - 1));
        lemma_insert_event_props(mid, exit_event(s, n - 1));
        assert(events_upto(s, n) == cur);
        assert forall|x: SweepEvent| #[trigger]
            cur.contains(x) implies is_event_of(s, x) && (x.index as int) < n by {
            assert(mid.contains(x) || x == exit_event(s, n - 1));
            if x == exit_event(s, n - 1) {
            } else if x == enter_event(s, n - 1) {
            } else {
                assert(prev.contains(x));
            }
        }
        assert forall|i: int| 0 <= i < n implies cur.contains(#[trigger] enter_event(s, i)) by {
            if i < n - 1 {
                assert(prev.contains(enter_event(s, i)));
                assert(mid.contains(enter_event(s, i)));
            } else {
                assert(mid.contains(enter_event(s, n - 1)));
            }
        }
        assert forall|i: int| 0 <= i < n implies cur.contains(#[trigger] exit_event(s, i)) by {
            if i < n - 1 {
                assert(prev.contains(exit_event(s, i)));
                assert(mid.contains(exit_event(s, i)));
            }
        }
    }
}

/// Counting enters or exits through an insertion.
proof fn lemma_count_insert(s: Seq<SweepEvent>, e: SweepEvent, start: bool)
    ensures
        count_matching(insert_event(s, e), start) == count_matching(s, start) + (
        if e.is_start == start { 1int } else { 0int }),
    decreases s.len(),
{
    let r = insert_event(s, e);
    if s.len() == 0 {
        assert(count_matching(Seq::<SweepEvent>::empty(), start) == 0);
        assert(r == seq![e]);
        assert(r.drop_first() =~= Seq::<SweepEvent>::empty());
        assert(r[0] == e);
        assert(count_matching(r, start) == (if r[0].is_start == start { 1int } else { 0int })
            + count_matching(r.drop_first(), start));
    } else if event_lt(e, s[0]) {
        assert(r == seq![e] + s);
        assert(r.drop_first() =~= s);
        assert(r[0] == e);
        assert(count_matching(r, start) == (if r[0].is_start == start { 1int } else { 0int })
            + count_matching(r.drop_first(), start));
    } else {
        lemma_count_insert(s.drop_first(), e, start);
        let rt = insert_event(s.drop_first(), e);
        assert(r == seq![s[0]] + rt);
        assert(r.drop_first() =~= rt);
        assert(r[0] == s[0]);
        assert(count_matching(r, start) == (if r[0].is_start == start { 1int } else { 0int })
            + count_matching(r.drop_first(), start));
        assert(count_matching(s, start) == (if s[0].is_start == start { 1int } else { 0int })
            + count_matching(s.drop_first(), start));
    }
}

/// Every range list yields one enter and one exit event per range: the
/// number of enter events, the number of exit events and the number of
/// ranges coincide.
pub proof fn lemma_event_counts(s: Seq<Section>, n: int)
    requires
        0 <= n <= s.len(),
    ensures
        count_matching(events_upto(s, n), true) == n,
        count_matching(events_upto(s, n), false) == n,
    decreases n,
{
    if n > 0 {
        lemma_event_counts(s, n - 1);
        let prev = events_upto(s, n - 1);
        let mid = insert_event(prev, enter_event(s, n - 1));
        lemma_count_insert(prev, enter_event(s, n - 1), true);
        lemma_count_insert(prev, enter_event(s, n - 1), false);
        lemma_count_insert(mid, exit_event(s, n - 1), true);
        lemma_count_insert(mid, exit_event(s, n - 1), false);
    }
}

/// At one address, the sorted event list never places an exit before an
/// enter: an event preceding an enter-kind event at the same address is
/// itself an enter.
pub proof fn lemma_enter_before_exit(s: Seq<Section>, k1: int, k2: int)
    requires
        ranges_ok(s),
        0 <= k1 < k2 < event_seq(s).len(),
        event_seq(s)[k1].addr == event_seq(s)[k2].addr,
        event_seq(s)[k2].is_start,
    ensures
        event_seq(s)[k1].is_start,
{
    lemma_events_upto_props(s, s.len() as int);
    let ev = event_seq(s);
    assert(event_le(ev[k1], ev[k2]));
}

/// The cut position splits a sorted event list into the events at or below
/// `a` and those above it.
pub proof fn lemma_cut_props(ev: Seq<SweepEvent>, a: int)
    requires
        sorted_events(ev),
    ensures
        0 <= cut(ev, a) <= ev.len(),
        forall|k: int| 0 <= k < cut(ev, a) ==> (#[trigger] ev[k]).addr <= a,
        forall|k: int| cut(ev, a) <= k < ev.len() ==> (#[trigger] ev[k]).addr > a,
    decreases ev.len(),
{
    if ev.len() > 0 {
        lemma_sorted_drop_first(ev);
        lemma_cut_props(ev.drop_first(), a);
        if ev[0].addr <= a {
            assert forall|k: int| 0 <= k < cut(ev, a) implies (#[trigger] ev[k]).addr <= a by {
                if k > 0 {
                    assert(ev.drop_first()[k - 1] == ev[k]);
                }
            }
            assert forall|k: int| cut(ev, a) <= k < ev.len() implies (#[trigger] ev[k]).addr
                > a by {
                assert(ev.drop_first()[k - 1] == ev[k]);
            }
        } else {
            assert forall|k: int| 0 <= k < ev.len() implies (#[trigger] ev[k]).addr > a by {
                if k > 0 {
                    assert(event_le(ev[0], ev[k]));
                }
            }
        }
    }
}

/// A position with the cut's splitting property is the cut.
pub proof fn lemma_cut_unique(ev: Seq<SweepEvent>, a: int, p: int)
    requires
        sorted_events(ev),
        0 <= p <= ev.len(),
        forall|k: int| 0 <= k < p ==> (#[trigger] ev[k]).addr <= a,
        p == ev.len() || ev[p].addr > a,
    ensures
        p == cut(ev, a),
{
    lemma_cut_props(ev, a);
    if p < cut(ev, a) {
        assert(ev[p].addr <= a);
    } else if p > cut(ev, a) {
        assert(ev[cut(ev, a)].addr <= a);
    }
}

/// An event of a sorted list lies in the prefix below the cut exactly when
/// its address is at most the cut address.
pub proof fn lemma_cut_membership(ev: Seq<SweepEvent>, a: int, e: SweepEvent)
    requires
        sorted_events(ev),
        ev.contains(e),
    ensures
        ev.subrange(0, cut(ev, a)).contains(e) <==> e.addr <= a,
{
    lemma_cut_props(ev, a);
    let pre = ev.subrange(0, cut(ev, a));
    if pre.contains(e) {
        let k = choose|k: int| 0 <= k < pre.len() && pre[k] == e;
        assert(ev[k] == e);
    }
    if e.addr <= a {
        let k = choose|k: int| 0 <= k < ev.len() && ev[k] == e;
        assert(k < cut(ev, a));
        assert(pre[k] == e);
    }
}

/// An exit event never stands before its own enter event in the sorted
/// list.
proof fn lemma_exit_not_in_prefix(s: Seq<Section>, ev: Seq<SweepEvent>, k: int, i0: int)
    requires
        ranges_ok(s),
        sorted_events(ev),
        0 <= i0 < s.len(),
        0 <= k < ev.len(),
        ev[k] == enter_event(s, i0),
    ensures
        !ev.subrange(0, k).contains(exit_event(s, i0)),
{
    if ev.subrange(0, k).contains(exit_event(s, i0)) {
        let q = choose|q: int| 0 <= q < k && ev.subrange(0, k)[q] == exit_event(s, i0);
        assert(ev[q] == exit_event(s, i0));
        assert(event_le(ev[q], ev[k]));
        assert(s[i0].addr + s[i0].size <= u64::MAX);
        assert(exit_event(s, i0).addr >= enter_event(s, i0).addr);
    }
}

/// Strictly ascending index lists, used for the active set.
pub open spec fn sorted_indices(v: Seq<usize>) -> bool {
    forall|i: int, j: int| #![trigger v[i], v[j]] 0 <= i < j < v.len() ==> v[i] < v[j]
}

#[verifier::rlimit(100)]
fn set_insert(v: &mut Vec<usize>, x: usize)
    requires
        sorted_indices(old(v)@),
    ensures
        sorted_indices(final(v)@),
        forall|y: usize| #[trigger]
            final(v)@.contains(y) <==> (old(v)@.contains(y) || y == x),
{
    let ghost v0 = v@;
    let n = v.len();
    let mut p: usize = 0;
    loop
        invariant_except_break
            v@ == v0,
            n == v0.len(),
            p <= n,
            forall|k: int| 0 <= k < p ==> (#[trigger] v0[k]) < x,
        ensures
            v@ == v0,
            0 <= p <= n,
            forall|k: int| 0 <= k < p ==> (#[trigger] v0[k]) < x,
            p == n || v0[p as int] >= x,
        decreases n - p,
    {
        if p == n {
            break ;
        }
        if v[p] >= x {
            break ;
        }
        p = p + 1;
    }
    if p < n && v[p] == x {
        proof {
            assert forall|y: usize| #[trigger] v@.contains(y) <==> (v0.contains(y) || y == x) by {
                if y == x {
                    assert(v0[p as int] == y);
                }
            }
        }
        return ;
    }
    v.insert(p, x);
    proof {
        v0.insert_ensures(p as int, x);
        let nv = v@;
        assert forall|y: usize| #[trigger] nv.contains(y) implies (v0.contains(y) || y == x) by {
            let k = choose|k: int| 0 <= k < nv.len() && nv[k] == y;
            if k < p {
                assert(v0[k] == y);
            } else if k > p {
                assert(nv[k] == v0[k - 1]);
            }
        }
        assert forall|y: usize| (v0.contains(y) || y == x) implies #[trigger] nv.contains(y) by {
            if y == x {
                assert(nv[p as int] == x);
            } else {
                let k = choose|k: int| 0 <= k < v0.len() && v0[k] == y;
                if k < p {
                    assert(nv[k] == y);
                } else {
                    assert(nv[k + 1] == y);
                }
            }
        }
        assert forall|i: int, j: int| #![trigger nv[i], nv[j]]
            0 <= i < j < nv.len() implies nv[i] < nv[j] by {
            if j < p {
                assert(nv[i] == v0[i]);
                assert(nv[j] == v0[j]);
            } else if i < p && j == p {
                assert(nv[i] == v0[i]);
            } else if i < p && j > p {
                assert(nv[i] == v0[i]);
                assert(nv[j] == v0[j - 1]);
                assert(v0[j - 1] >= x);
                assert(v0[j - 1] != x);
            } else if i == p {
                assert(nv[j] == v0[j - 1]);
                if j - 1 > p {
                    assert(v0[p as int] < v0[j - 1]);
                }
                assert(v0[j - 1] >= x);
                assert(v0[j - 1] != x);
            } else {
                assert(nv[i] == v0[i - 1]);
                assert(nv[j] == v0[j - 1]);
            }
        }
    }
}

fn set_remove(v: &mut Vec<usize>, x: usize)
    requires
        sorted_indices(old(v)@),
    ensures
        sorted_indices(final(v)@),
        forall|y: usize| #[trigger]
            final(v)@.contains(y) <==> (old(v)@.contains(y) && y != x),
{
    let ghost v0 = v@;
    let n = v.len();
    let mut p: usize = 0;
    loop
        invariant_except_break
            v@ == v0,
            n == v0.len(),
            p <= n,
            forall|k: int| 0 <= k < p ==> (#[trigger] v0[k]) != x,
        ensures
            v@ == v0,
            0 <= p <= n,
            forall|k: int| 0 <= k < p ==> (#[trigger] v0[k]) != x,
            p == n || v0[p as int] == x,
        decreases n - p,
    {
        if p == n {
            break ;
        }
        if v[p] == x {
            break ;
        }
        p = p + 1;
    }
    if p == n {
        proof {
            assert forall|y: usize| #[trigger] v@.contains(y) <==> (v0.contains(y) && y != x) by {
                if v0.contains(y) && y == x {
                    let k = choose|k: int| 0 <= k < v0.len() && v0[k] == y;
                }
            }
        }
        return ;
    }
    v.remove(p);
    proof {
        let nv = v@;
        assert(nv =~= v0.remove(p as int));
        assert forall|k: int| 0 <= k < v0.len() && k != p implies (#[trigger] v0[k]) != x by {
            if k > p {
                assert(v0[p as int] < v0[k]);
            }
        }
        assert forall|y: usize| #[trigger] nv.contains(y) implies (v0.contains(y) && y != x) by {
            let k = choose|k: int| 0 <= k < nv.len() && nv[k] == y;
            if k < p {
                assert(v0[k] == y);
            } else {
                assert(nv[k] == v0[k + 1]);
            }
        }
        assert forall|y: usize| (v0.contains(y) && y != x) implies #[trigger] nv.contains(y) by {
            let k = choose|k: int| 0 <= k < v0.len() && v0[k] == y;
            if k < p {
                assert(nv[k] == y);
            } else {
                assert(nv[k - 1] == y);
            }
        }
        assert forall|i: int, j: int| #![trigger nv[i], nv[j]]
            0 <= i < j < nv.len() implies nv[i] < nv[j] by {
            if j < p {
                assert(nv[i] == v0[i]);
                assert(nv[j] == v0[j]);
            } else if i < p {
                assert(nv[i] == v0[i]);
                assert(nv[j] == v0[j + 1]);
            } else {
                assert(nv[i] == v0[i + 1]);
                assert(nv[j] == v0[j + 1]);
            }
        }
    }
}

/// The foreground color index a range's declaration position maps to.
pub open spec fn fg_color(i: int) -> u8 {
    (1 + (i % 7)) as u8
}

/// The style of a range's label.
pub open spec fn label_style(i: int) -> TextStyle {
    TextStyle::spec_fg(fg_color(i))
}

/// The text of a range's label: the verbose `address+size: name` form, or
/// the compact `[name]` form.
pub open spec fn label_text(sec: Section, show_addr: bool) -> Seq<char> {
    if show_addr {
        hex_addr(sec.addr as int) + seq!['+'] + hex_bare(sec.size as int) + seq![':', ' ']
            + sec.name@
    } else {
        seq!['['] + sec.name@ + seq![']']
    }
}

/// One event's effect on the canvas: at each event address reached for
/// the first time during the call — address 0 like any other — first a
/// boundary request and an address reset; then, for an enter, the label.
pub open spec fn adv_step(
    m: CanvasModel,
    s: Seq<Section>,
    e: SweepEvent,
    lb: Option<u64>,
    show_addr: bool,
) -> (CanvasModel, Option<u64>) {
    let moved = if lb != Option::Some(e.addr) {
        (set_addr_spec(bound_spec(m), e.addr), Option::Some(e.addr))
    } else {
        (m, lb)
    };
    if e.is_start {
        (
            add_label_spec(
                moved.0,
                label_text(s[e.index as int], show_addr),
                label_style(e.index as int),
            ),
            moved.1,
        )
    } else {
        moved
    }
}

/// The canvas effect of processing events `lo..hi` in order, with `lb` the
/// last address that triggered a boundary, unset before the first one.
pub open spec fn adv_fold(
    m: CanvasModel,
    s: Seq<Section>,
    ev: Seq<SweepEvent>,
    lo: int,
    hi: int,
    lb: Option<u64>,
    show_addr: bool,
) -> (CanvasModel, Option<u64>)
    decreases hi - lo,
{
    if lo >= hi {
        (m, lb)
    } else {
        let step = adv_step(m, s, ev[lo], lb, show_addr);
        adv_fold(step.0, s, ev, lo + 1, hi, step.1, show_addr)
    }
}

/// Extending a fold by one event on the right.
pub proof fn lemma_adv_fold_snoc(
    m: CanvasModel,
    s: Seq<Section>,
    ev: Seq<SweepEvent>,
    lo: int,
    hi: int,
    lb: Option<u64>,
    show_addr: bool,
)
    requires
        lo <= hi < ev.len(),
    ensures
        adv_fold(m, s, ev, lo, hi + 1, lb, show_addr) == ({
            let part = adv_fold(m, s, ev, lo, hi, lb, show_addr);
            adv_step(part.0, s, ev[hi], part.1, show_addr)
        }),
    decreases hi - lo,
{
    reveal_with_fuel(adv_fold, 3);
    if lo < hi {
        let step = adv_step(m, s, ev[lo], lb, show_addr);
        lemma_adv_fold_snoc(step.0, s, ev, lo + 1, hi, step.1, show_addr);
    }
}

/// The sweep over one list of named ranges.
pub struct SectionEvents {
    pub symbols: Vec<Section>,
    pub events: Vec<SweepEvent>,
    pub idx: usize,
    pub cur_symbols: Vec<usize>,
    pub watermark: Ghost<Option<u64>>,
}

impl SectionEvents {
    /// The highest address this sweep has been advanced to, as an integer;
    /// one below zero before the first advance.
    pub open spec fn hi_val(self) -> int {
        match self.watermark@ {
            Option::None => -1,
            Option::Some(a) => a as int,
        }
    }

    /// The structure invariant: the event list is the sorted event list of
    /// the ranges, the cursor sits at the watermark's cut, and the active
    /// set holds exactly the ranges whose interval contains the watermark.
    pub open spec fn wf(self) -> bool {
        let s = self.symbols@;
        let ev = self.events@;
        &&& ranges_ok(s)
        &&& ev == event_seq(s)
        &&& self.idx == cut(ev, self.hi_val())
        &&& sorted_indices(self.cur_symbols@)
        &&& forall|k: int|
            0 <= k < self.cur_symbols@.len() ==> (#[trigger] self.cur_symbols@[k] as int)
                < s.len()
        &&& forall|i: int|
            0 <= i < s.len() ==> (self.cur_symbols@.contains(i as usize) <==> active_at(
                s,
                self.hi_val(),
                i,
            ))
    }

    /// Build the sweep: derive and sort the events of `symbols`.
    pub fn new(symbols: Vec<Section>) -> (r: SectionEvents)
        requires
            ranges_ok(symbols@),
        ensures
            r.wf(),
            r.symbols@ == symbols@,
            r.events@ == event_seq(symbols@),
            r.idx == 0,
            r.cur_symbols@.len() == 0,
            r.hi_val() == -1,
    {
        let ghost s = symbols@;
        let mut events: Vec<SweepEvent> = Vec::new();
        let n = symbols.len();
        let mut i: usize = 0;
        while i < n
            invariant
                n == s.len(),
                symbols@ == s,
                ranges_ok(s),
                i <= n,
                events@ == events_upto(s, i as int),
            decreases n - i,
        {
            let sec_addr = symbols[i].addr;
            let sec_size = symbols[i].size;
            insert_event_exec(&mut events, SweepEvent { addr: sec_addr, index: i, is_start: true });
            insert_event_exec(
                &mut events,
                SweepEvent { addr: sec_addr + sec_size, index: i, is_start: false },
            );
            i = i + 1;
        }
        let r = SectionEvents {
            symbols,
            events,
            idx: 0,
            cur_symbols: Vec::new(),
            watermark: Ghost(Option::None),
        };
        proof {
            assert(r.idx == cut(r.events@, -1));
        }
        r
    }

    /// Consume every pending event at or below `addr`, in order, exactly
    /// once, mirroring each into the canvas: a boundary and address reset
    /// once per distinct event address, a styled label per entered range.
    /// Advancing to an address not past the watermark changes nothing.
    #[verifier::rlimit(100)]
    pub fn advance(&mut self, addr: u64, printer: &mut HexPrinter, show_addr: bool)
        requires
            old(self).wf(),
            old(printer)@.cols_ok(),
            old(printer)@.tidy(),
        ensures
            final(self).wf(),
            final(self).symbols == old(self).symbols,
            final(self).events == old(self).events,
            final(self).hi_val() == (if addr as int > old(self).hi_val() {
                addr as int
            } else {
                old(self).hi_val()
            }),
            final(printer)@.cols_ok(),
            final(printer)@.tidy(),
            final(printer)@.cols == old(printer)@.cols,
            final(printer)@.break_on_bounds == old(printer)@.break_on_bounds,
            final(printer)@ == adv_fold(
                old(printer)@,
                old(self).symbols@,
                old(self).events@,
                old(self).idx as int,
                final(self).idx as int,
                Option::None,
                show_addr,
            ).0,
            final(printer)@.pos() <= (if old(printer)@.pos() > addr as int {
                old(printer)@.pos()
            } else {
                addr as int
            }),
            addr as int <= old(self).hi_val() ==> final(self).idx == old(self).idx
                && final(self).cur_symbols == old(self).cur_symbols && final(self).watermark
                == old(self).watermark && *final(printer) == *old(printer),
    {
        let ghost s = self.symbols@;
        let ghost ev = self.events@;
        let ghost idx0 = self.idx as int;
        let ghost hi0 = self.hi_val();
        let ghost m0 = printer@;
        proof {
            lemma_events_upto_props(s, s.len() as int);
            lemma_cut_props(ev, hi0);
            assert forall|i: int|
                0 <= i < s.len() implies (self.cur_symbols@.contains(i as usize) <==> (ev.subrange(
                0,
                idx0,
            ).contains(enter_event(s, i)) && !ev.subrange(0, idx0).contains(
                exit_event(s, i),
            ))) by {
                lemma_cut_membership(ev, hi0, enter_event(s, i));
                lemma_cut_membership(ev, hi0, exit_event(s, i));
                assert(s[i].addr + s[i].size <= u64::MAX);
                assert(self.cur_symbols@.contains(i as usize) <==> active_at(s, hi0, i));
            }
        }
        let mut last_break_addr: Option<u64> = Option::None;
        loop
            invariant_except_break
                self.symbols == old(self).symbols,
                self.events == old(self).events,
                self.watermark == old(self).watermark,
                self.symbols@ == s,
                self.events@ == ev,
                ranges_ok(s),
                ev == event_seq(s),
                sorted_events(ev),
                idx0 == cut(ev, hi0),
                idx0 <= self.idx as int <= ev.len(),
                forall|k: int| idx0 <= k < self.idx as int ==> (#[trigger] ev[k]).addr <= addr,
                sorted_indices(self.cur_symbols@),
                forall|k: int|
                    0 <= k < self.cur_symbols@.len() ==> (#[trigger] self.cur_symbols@[k] as int)
                        < s.len(),
                forall|i: int|
                    0 <= i < s.len() ==> (self.cur_symbols@.contains(i as usize) <==> (
                    ev.subrange(0, self.idx as int).contains(enter_event(s, i)) && !ev.subrange(
                        0,
                        self.idx as int,
                    ).contains(exit_event(s, i)))),
                printer@.cols_ok(),
                printer@.tidy(),
                printer@.cols == m0.cols,
                printer@.break_on_bounds == m0.break_on_bounds,
                (printer@, last_break_addr) == adv_fold(
                    m0,
                    s,
                    ev,
                    idx0,
                    self.idx as int,
                    Option::None,
                    show_addr,
                ),
                printer@.pos() <= (if m0.pos() > addr as int {
                    m0.pos()
                } else {
                    addr as int
                }),
                self.idx as int == idx0 ==> *printer == *old(printer) && self.cur_symbols
                    == old(self).cur_symbols,
            ensures
                self.symbols == old(self).symbols,
                self.events == old(self).events,
                self.watermark == old(self).watermark,
                self.symbols@ == s,
                self.events@ == ev,
                ranges_ok(s),
                ev == event_seq(s),
                sorted_events(ev),
                idx0 == cut(ev, hi0),
                idx0 <= self.idx as int <= ev.len(),
                forall|k: int| idx0 <= k < self.idx as int ==> (#[trigger] ev[k]).addr <= addr,
                self.idx as int == ev.len() || ev[self.idx as int].addr > addr,
                sorted_indices(self.cur_symbols@),
                forall|k: int|
                    0 <= k < self.cur_symbols@.len() ==> (#[trigger] self.cur_symbols@[k] as int)
                        < s.len(),
                forall|i: int|
                    0 <= i < s.len() ==> (self.cur_symbols@.contains(i as usize) <==> (
                    ev.subrange(0, self.idx as int).contains(enter_event(s, i)) && !ev.subrange(
                        0,
                        self.idx as int,
                    ).contains(exit_event(s, i)))),
                printer@.cols_ok(),
                printer@.tidy(),
                printer@.cols == m0.cols,
                printer@.break_on_bounds == m0.break_on_bounds,
                (printer@, last_break_addr) == adv_fold(
                    m0,
                    s,
                    ev,
                    idx0,
                    self.idx as int,
                    Option::None,
                    show_addr,
                ),
                printer@.pos() <= (if m0.pos() > addr as int {
                    m0.pos()
                } else {
                    addr as int
                }),
                self.idx as int == idx0 ==> *printer == *old(printer) && self.cur_symbols
                    == old(self).cur_symbols,
            decreases ev.len() - self.idx as int,
        {
            if self.idx >= self.events.len() {
                break ;
            }
            let e = self.events[self.idx];
            if e.addr > addr {
                break ;
            }
            let ghost k = self.idx as int;
            let ghost pre = ev.subrange(0, k);
            proof {
                lemma_events_upto_props(s, s.len() as int);
                assert(ev.contains(ev[k]));
                assert(is_event_of(s, e));
                lemma_adv_fold_snoc(m0, s, ev, idx0, k, Option::None, show_addr);
            }
            let fire = match last_break_addr {
                Option::Some(lb) => lb != e.addr,
                Option::None => true,
            };
            if fire {
                printer.bound();
                printer.set_addr(e.addr);
                last_break_addr = Option::Some(e.addr);
            }
            self.idx = self.idx + 1;
            proof {
                assert(ev.subrange(0, k + 1) =~= pre.push(e));
            }
            if e.is_start {
                let ghost cur0 = self.cur_symbols@;
                set_insert(&mut self.cur_symbols, e.index);
                let sec = &self.symbols[e.index];
                let mut label = String::new();
                if show_addr {
                    push_hex_addr(&mut label, sec.addr);
                    push_char(&mut label, '+');
                    push_hex_bare(&mut label, sec.size);
                    push_char(&mut label, ':');
                    push_char(&mut label, ' ');
                    label.append(sec.name.as_str());
                } else {
                    push_char(&mut label, '[');
                    label.append(sec.name.as_str());
                    push_char(&mut label, ']');
                }
                proof {
                    assert(label@ =~= label_text(s[e.index as int], show_addr));
                }
                let fgc = (e.index % 7 + 1) as u8;
                printer.add_label(label, TextStyle::with_fg(fgc));
                proof {
                    let i0 = e.index as int;
                    assert(e == enter_event(s, i0));
                    lemma_exit_not_in_prefix(s, ev, k, i0);
                    assert forall|i: int|
                        0 <= i < s.len() implies (self.cur_symbols@.contains(i as usize) <==> (
                    ev.subrange(0, k + 1).contains(enter_event(s, i)) && !ev.subrange(
                        0,
                        k + 1,
                    ).contains(exit_event(s, i)))) by {
                        vstd::seq_lib::lemma_seq_contains_after_push(pre, e, enter_event(s, i));
                        vstd::seq_lib::lemma_seq_contains_after_push(pre, e, exit_event(s, i));
                        if i != i0 {
                            assert(enter_event(s, i) != e);
                            assert(exit_event(s, i) != e);
                        }
                    }
                    assert forall|kk: int|
                        0 <= kk < self.cur_symbols@.len() implies (
                    #[trigger] self.cur_symbols@[kk] as int) < s.len() by {
                        assert(self.cur_symbols@.contains(self.cur_symbols@[kk]));
                        if self.cur_symbols@[kk] != e.index {
                            assert(cur0.contains(self.cur_symbols@[kk]));
                            let q = choose|q: int|
                                0 <= q < cur0.len() && cur0[q] == self.cur_symbols@[kk];
                        }
                    }
                }
            } else {
                let ghost cur0 = self.cur_symbols@;
                set_remove(&mut self.cur_symbols, e.index);
                proof {
                    let i0 = e.index as int;
                    assert(e == exit_event(s, i0));
                    assert forall|i: int|
                        0 <= i < s.len() implies (self.cur_symbols@.contains(i as usize) <==> (
                    ev.subrange(0, k + 1).contains(enter_event(s, i)) && !ev.subrange(
                        0,
                        k + 1,
                    ).contains(exit_event(s, i)))) by {
                        vstd::seq_lib::lemma_seq_contains_after_push(pre, e, enter_event(s, i));
                        vstd::seq_lib::lemma_seq_contains_after_push(pre, e, exit_event(s, i));
                        if i != i0 {
                            assert(enter_event(s, i) != e);
                            assert(exit_event(s, i) != e);
                        }
                    }
                    assert forall|kk: int|
                        0 <= kk < self.cur_symbols@.len() implies (
                    #[trigger] self.cur_symbols@[kk] as int) < s.len() by {
                        assert(self.cur_symbols@.contains(self.cur_symbols@[kk]));
                        assert(cur0.contains(self.cur_symbols@[kk]));
                        let q = choose|q: int|
                            0 <= q < cur0.len() && cur0[q] == self.cur_symbols@[kk];
                    }
                }
            }
        }
        let ghost new_hi: int = if addr as int > hi0 {
            addr as int
        } else {
            hi0
        };
        proof {
            lemma_events_upto_props(s, s.len() as int);
            assert forall|k: int| 0 <= k < self.idx as int implies (#[trigger] ev[k]).addr
                <= new_hi by {
                if k < idx0 {
                    lemma_cut_props(ev, hi0);
                }
            }
            if (self.idx as int) < ev.len() {
                lemma_cut_props(ev, hi0);
                assert(ev[self.idx as int].addr > new_hi);
            }
            lemma_cut_unique(ev, new_hi, self.idx as int);
            assert forall|i: int|
                0 <= i < s.len() implies (self.cur_symbols@.contains(i as usize) <==> active_at(
                s,
                new_hi,
                i,
            )) by {
                lemma_cut_membership(ev, new_hi, enter_event(s, i));
                lemma_cut_membership(ev, new_hi, exit_event(s, i));
            }
        }
        self.watermark = Ghost(
            if addr as int > hi0 {
                Option::Some(addr)
            } else {
                old(self).watermark@
            },
        );
    }

    /// The active range with the highest declaration index at the current
    /// watermark, if any range is active.
    pub fn get(&self) -> (r: Option<usize>)
        requires
            self.wf(),
        ensures
            match r {
                Option::Some(i) => active_at(self.symbols@, self.hi_val(), i as int)
                    && forall|j: int| active_at(self.symbols@, self.hi_val(), j) ==> j <= i as int,
                Option::None => forall|j: int| !active_at(self.symbols@, self.hi_val(), j),
            },
    {
        let n = self.cur_symbols.len();
        if n == 0 {
            proof {
                assert forall|j: int| !active_at(self.symbols@, self.hi_val(), j) by {
                    if active_at(self.symbols@, self.hi_val(), j) {
                        assert(self.cur_symbols@.contains(j as usize));
                    }
                }
            }
            Option::None
        } else {
            let top = self.cur_symbols[n - 1];
            proof {
                assert(self.cur_symbols@[n - 1] == top);
                assert(self.cur_symbols@.contains(top));
                assert forall|j: int|
                    active_at(self.symbols@, self.hi_val(), j) implies j <= top as int by {
                    assert(self.cur_symbols@.contains(j as usize));
                    let q = choose|q: int|
                        0 <= q < self.cur_symbols@.len() && self.cur_symbols@[q] == j as usize;
                    if q < n - 1 {
                        assert(self.cur_symbols@[q] < self.cur_symbols@[n - 1]);
                    }
                }
            }
            Option::Some(top)
        }
    }
}

/// A sweep advanced to the top of the address space holds no active range:
/// every range has been exited, so the active set is empty.
pub proof fn lemma_advance_to_end_empties(se: SectionEvents)
    requires
        se.wf(),
        se.hi_val() == u64::MAX,
    ensures
        se.cur_symbols@.len() == 0,
{
    if se.cur_symbols@.len() > 0 {
        let x = se.cur_symbols@[0];
        assert(se.cur_symbols@.contains(x));
        assert((x as int) < se.symbols@.len());
        assert(active_at(se.symbols@, se.hi_val(), x as int));
        assert(se.symbols@[x as int].addr + se.symbols@[x as int].size <= u64::MAX);
    }
}

fn event_lt_exec(a: &SweepEvent, b: &SweepEvent) -> (r: bool)
    ensures
        r == event_lt(*a, *b),
{
    if a.addr < b.addr {
        true
    } else if a.addr == b.addr && a.is_start && !b.is_start {
        true
    } else if a.addr == b.addr && a.is_start == b.is_start && a.index < b.index {
        true
    } else {
        false
    }
}

fn insert_event_exec(v: &mut Vec<SweepEvent>, e: SweepEvent)
    ensures
        final(v)@ == insert_event(old(v)@, e),
{
    let ghost v0 = v@;
    let n = v.len();
    let mut p: usize = 0;
    loop
        invariant_except_break
            v@ == v0,
            n == v0.len(),
            p <= n,
            forall|k: int| 0 <= k < p ==> !event_lt(e, #[trigger] v0[k]),
        ensures
            v@ == v0,
            0 <= p <= n,
            forall|k: int| 0 <= k < p ==> !event_lt(e, #[trigger] v0[k]),
            p == n || event_lt(e, v0[p as int]),
        decreases n - p,
    {
        if p == n {
            break ;
        }
        let cur = v[p];
        if event_lt_exec(&e, &cur) {
            break ;
        }
        p = p + 1;
    }
    v.insert(p, e);
    proof {
        lemma_insert_event_at(v0, e, p as int);
    }
}

/// Inserting at the first position whose element the new event strictly
/// precedes realizes `insert_event`.
proof fn lemma_insert_event_at(s: Seq<SweepEvent>, e: SweepEvent, p: int)
    requires
        0 <= p <= s.len(),
        forall|k: int| 0 <= k < p ==> !event_lt(e, #[trigger] s[k]),
        p == s.len() || event_lt(e, s[p]),
    ensures
        insert_event(s, e) == s.insert(p, e),
    decreases s.len(),
{
    s.insert_ensures(p, e);
    if s.len() == 0 {
        assert(insert_event(s, e) =~= s.insert(0, e));
    } else if event_lt(e, s[0]) {
        assert(p == 0);
        assert(insert_event(s, e) == seq![e] + s);
        assert(seq![e] + s =~= s.insert(0, e));
    } else {
        assert(p >= 1);
        assert forall|k: int| 0 <= k < p - 1 implies !event_lt(e, #[trigger] s.drop_first()[k]) by {
            assert(s.drop_first()[k] == s[k + 1]);
        }
        lemma_insert_event_at(s.drop_first(), e, p - 1);
        s.drop_first().insert_ensures(p - 1, e);
        assert(insert_event(s, e) == seq![s[0]] + s.drop_first().insert(p - 1, e));
        assert(seq![s[0]] + s.drop_first().insert(p - 1, e) =~= s.insert(p, e));
    }
}

} // verus!
