use std::collections::HashSet;
use vstd::prelude::*;
use vstd::std_specs::cmp::PartialEqSpec;
use vstd::string::StringExecFns;
use crate::dijkstra_find_path::fresh;
use crate::dijkstra_find_path::is_edge_of;
use crate::dijkstra_find_path::is_reverse_path;
use crate::dijkstra_find_path::is_simple_path;
use crate::dijkstra_find_path::lemma_path_extend;
use crate::graph::DirectedEdge;
use crate::graph::EdgeWeightedDigraph;

verus! {

/// Whether `x` equals some item of `xs`.
pub open spec fn holds<T: PartialEq>(xs: Seq<T>, x: T) -> bool {
    exists|i: int| 0 <= i < xs.len() && #[trigger] x.eq_spec(&xs[i])
}

/// Whether the item at position `i` of `xs` equals no item of `other` and no earlier item
/// of `xs`.
pub open spec fn kept<T: PartialEq>(xs: Seq<T>, other: Seq<T>, i: int) -> bool {
    !holds(other, xs[i]) && !holds(xs.take(i), xs[i])
}

/// Those of the first `n` items of `xs` that are kept, in their order.
pub open spec fn only_in<T: PartialEq>(xs: Seq<T>, other: Seq<T>, n: int) -> Seq<T>
    decreases n,
{
    if n <= 0 {
        Seq::empty()
    } else {
        let before = only_in(xs, other, n - 1);
        if kept(xs, other, n - 1) {
            before.push(xs[n - 1])
        } else {
            before
        }
    }
}

/// The items found in exactly one of `a` and `b`, each once: first those of `a`, then
/// those of `b`, in the order of their first occurrence.
pub open spec fn symmetric_difference_of<T: PartialEq>(a: Seq<T>, b: Seq<T>) -> Seq<T> {
    only_in(a, b, a.len() as int) + only_in(b, a, b.len() as int)
}

/// Whether equality of `T` goes both ways and carries over.
pub open spec fn equality_is_sound<T: PartialEq>() -> bool {
    &&& forall|x: T, y: T| #[trigger] x.eq_spec(&y) ==> y.eq_spec(&x)
    &&& forall|x: T, y: T, z: T| #[trigger] x.eq_spec(&y) && #[trigger] y.eq_spec(&z) ==> x.eq_spec(&z)
}

/// Whether no item of `xs` equals an earlier one.
pub open spec fn all_apart<T: PartialEq>(xs: Seq<T>) -> bool {
    forall|i: int, j: int| 0 <= i < j < xs.len() ==> !#[trigger] xs[j].eq_spec(&xs[i])
}

/// Whether `item` is one of the first `n` items of `xs`, and one that equals no item of
/// `other`.
pub open spec fn taken_from<T: PartialEq>(xs: Seq<T>, other: Seq<T>, n: int, item: T) -> bool {
    exists|i: int| 0 <= i < n && #[trigger] xs[i] == item && !holds(other, xs[i])
}

/// What `only_in` keeps: an item equals one of the kept items exactly if it equals one of
/// the first `n` items of `xs` and none of `other`. No kept item equals an earlier one,
/// and each is one of the first `n` items of `xs`.
pub proof fn lemma_only_in<T: PartialEq>(xs: Seq<T>, other: Seq<T>, n: int, x: T)
    requires
        0 <= n <= xs.len(),
        equality_is_sound::<T>(),
    ensures
        holds(only_in(xs, other, n), x) <==> holds(xs.take(n), x) && !holds(other, x),
        all_apart(only_in(xs, other, n)),
        forall|m: int|
            0 <= m < only_in(xs, other, n).len() ==> taken_from(
                xs,
                other,
                n,
                #[trigger] only_in(xs, other, n)[m],
            ),
    decreases n,
{
    let r = only_in(xs, other, n);
    if n <= 0 {
        assert(r.len() == 0);
        assert(xs.take(n).len() == 0);
    } else {
        let before = only_in(xs, other, n - 1);
        let last = xs[n - 1];
        lemma_only_in(xs, other, n - 1, x);
        lemma_only_in(xs, other, n - 1, last);
        assert(xs.take(n - 1).len() == n - 1);
        assert(xs.take(n).len() == n);
        assert forall|m: int| 0 <= m < r.len() implies taken_from(xs, other, n, #[trigger] r[m]) by {
            if m < before.len() {
                assert(r[m] == before[m]);
                assert(taken_from(xs, other, n - 1, before[m]));
                let i = choose|i: int|
                    0 <= i < n - 1 && #[trigger] xs[i] == before[m] && !holds(other, xs[i]);
                assert(0 <= i < n && xs[i] == r[m]);
            } else {
                assert(r[m] == xs[n - 1]);
            }
        }
        if kept(xs, other, n - 1) {
            assert forall|i: int, j: int| 0 <= i < j < r.len() implies !#[trigger] r[j].eq_spec(
                &r[i],
            ) by {
                if j < before.len() {
                    assert(r[i] == before[i] && r[j] == before[j]);
                } else {
                    assert(r[i] == before[i]);
                    assert(taken_from(xs, other, n - 1, before[i]));
                    let k = choose|k: int|
                        0 <= k < n - 1 && #[trigger] xs[k] == before[i] && !holds(other, xs[k]);
                    assert(xs.take(n - 1)[k] == xs[k]);
                    if r[j].eq_spec(&r[i]) {
                        assert(last.eq_spec(&xs.take(n - 1)[k]));
                        assert(holds(xs.take(n - 1), last));
                    }
                }
            }
        }
        if holds(r, x) {
            let m = choose|m: int| 0 <= m < r.len() && #[trigger] x.eq_spec(&r[m]);
            if m < before.len() {
                assert(x.eq_spec(&before[m]));
                assert(holds(before, x));
                let i = choose|i: int| 0 <= i < n - 1 && #[trigger] x.eq_spec(&xs.take(n - 1)[i]);
                assert(x.eq_spec(&xs.take(n)[i]));
            } else {
                assert(x.eq_spec(&xs.take(n)[n - 1]));
                if holds(other, x) {
                    let o = choose|o: int| 0 <= o < other.len() && #[trigger] x.eq_spec(&other[o]);
                    assert(last.eq_spec(&x));
                    assert(last.eq_spec(&other[o]));
                    assert(holds(other, last));
                }
            }
        }
        if holds(xs.take(n), x) && !holds(other, x) {
            let i = choose|i: int| 0 <= i < n && #[trigger] x.eq_spec(&xs.take(n)[i]);
            if i < n - 1 {
                assert(x.eq_spec(&xs.take(n - 1)[i]));
                assert(holds(before, x));
                let m = choose|m: int| 0 <= m < before.len() && #[trigger] x.eq_spec(&before[m]);
                assert(x.eq_spec(&r[m]));
            } else if kept(xs, other, n - 1) {
                assert(x.eq_spec(&r[r.len() - 1]));
            } else {
                assert(x.eq_spec(&last));
                if holds(other, last) {
                    let o = choose|o: int| 0 <= o < other.len() && #[trigger] last.eq_spec(&other[o]);
                    assert(x.eq_spec(&other[o]));
                } else {
                    assert(holds(xs.take(n - 1), last));
                    let j = choose|j: int|
                        0 <= j < xs.take(n - 1).len() && #[trigger] last.eq_spec(&xs.take(n - 1)[j]);
                    assert(x.eq_spec(&xs.take(n - 1)[j]));
                    assert(holds(before, x));
                    let m = choose|m: int| 0 <= m < before.len() && #[trigger] x.eq_spec(&before[m]);
                    assert(x.eq_spec(&r[m]));
                }
            }
        }
    }
}

/// The symmetric difference holds what exactly one of the two sequences holds, and holds
/// nothing twice.
pub proof fn lemma_symmetric_difference<T: PartialEq>(a: Seq<T>, b: Seq<T>, x: T)
    requires
        equality_is_sound::<T>(),
    ensures
        holds(symmetric_difference_of(a, b), x) <==> (holds(a, x) != holds(b, x)),
        all_apart(symmetric_difference_of(a, b)),
{
    let first = only_in(a, b, a.len() as int);
    let second = only_in(b, a, b.len() as int);
    let r = symmetric_difference_of(a, b);
    lemma_only_in(a, b, a.len() as int, x);
    lemma_only_in(b, a, b.len() as int, x);
    assert(a.take(a.len() as int) =~= a);
    assert(b.take(b.len() as int) =~= b);
    if holds(r, x) {
        let m = choose|m: int| 0 <= m < r.len() && #[trigger] x.eq_spec(&r[m]);
        if m < first.len() {
            assert(x.eq_spec(&first[m]));
        } else {
            assert(x.eq_spec(&second[m - first.len()]));
        }
    }
    if holds(first, x) {
        let m = choose|m: int| 0 <= m < first.len() && #[trigger] x.eq_spec(&first[m]);
        assert(x.eq_spec(&r[m]));
    }
    if holds(second, x) {
        let m = choose|m: int| 0 <= m < second.len() && #[trigger] x.eq_spec(&second[m]);
        assert(x.eq_spec(&r[m + first.len()]));
    }
    assert forall|i: int, j: int| 0 <= i < j < r.len() implies !#[trigger] r[j].eq_spec(&r[i]) by {
        if j < first.len() {
            assert(r[i] == first[i] && r[j] == first[j]);
        } else if i >= first.len() {
            assert(r[i] == second[i - first.len()] && r[j] == second[j - first.len()]);
        } else {
            let y = second[j - first.len()];
            assert(r[j] == y && r[i] == first[i]);
            assert(taken_from(a, b, a.len() as int, first[i]));
            assert(taken_from(b, a, b.len() as int, y));
            let ia = choose|ia: int|
                0 <= ia < a.len() && #[trigger] a[ia] == first[i] && !holds(b, a[ia]);
            let ib = choose|ib: int| 0 <= ib < b.len() && #[trigger] b[ib] == y && !holds(a, b[ib]);
            if y.eq_spec(&first[i]) {
                assert(y.eq_spec(&a[ia]));
                assert(holds(a, y));
            }
        }
    }
}

fn among_first<T: Eq>(xs: &Vec<T>, n: usize, x: &T) -> (b: bool)
    requires
        n <= xs@.len(),
    ensures
        T::obeys_eq_spec() ==> b == holds(xs@.take(n as int), *x),
{
    let mut i: usize = 0;
    while i < n
        invariant
            i <= n <= xs@.len(),
            T::obeys_eq_spec() ==> !holds(xs@.take(i as int), *x),
        decreases n - i,
    {
        if *x == xs[i] {
            assert(T::obeys_eq_spec() ==> x.eq_spec(&xs@.take(n as int)[i as int]));
            return true;
        }
        proof {
            if T::obeys_eq_spec() {
                assert forall|k: int| 0 <= k < i + 1 implies !#[trigger] x.eq_spec(
                    &xs@.take(i + 1)[k],
                ) by {
                    if k < i {
                        assert(xs@.take(i + 1)[k] == xs@.take(i as int)[k]);
                    }
                }
            }
        }
        i = i + 1;
    }
    false
}

fn keep_flags<T: Eq>(xs: &Vec<T>, other: &Vec<T>) -> (flags: Vec<bool>)
    ensures
        flags@.len() == xs@.len(),
        T::obeys_eq_spec() ==> forall|i: int|
            0 <= i < xs@.len() ==> #[trigger] flags@[i] == kept(xs@, other@, i),
{
    let mut flags: Vec<bool> = Vec::new();
    let mut i: usize = 0;
    while i < xs.len()
        invariant
            i <= xs@.len(),
            flags@.len() == i,
            T::obeys_eq_spec() ==> forall|k: int|
                0 <= k < i ==> #[trigger] flags@[k] == kept(xs@, other@, k),
        decreases xs@.len() - i,
    {
        let x = &xs[i];
        let elsewhere = among_first(other, other.len(), x);
        let earlier = among_first(xs, i, x);
        assert(other@.take(other@.len() as int) =~= other@);
        flags.push(!elsewhere && !earlier);
        i = i + 1;
    }
    flags
}

/// The items found in exactly one of the two vectors, each once: first those of `vec1`,
/// then those of `vec2`, in the order of their first occurrence.
pub fn symmetric_difference<T: Eq>(vec1: Vec<T>, vec2: Vec<T>) -> (r: Vec<T>)
    ensures
        T::obeys_eq_spec() ==> r@ == symmetric_difference_of(vec1@, vec2@),
{
    let flags1 = keep_flags(&vec1, &vec2);
    let flags2 = keep_flags(&vec2, &vec1);
    let ghost a = vec1@;
    let ghost b = vec2@;
    let mut v1 = vec1;
    let mut v2 = vec2;
    let mut r: Vec<T> = Vec::new();
    let mut i: usize = 0;
    while i < flags1.len()
        invariant
            i <= a.len(),
            flags1@.len() == a.len(),
            v1@ == a.skip(i as int),
            T::obeys_eq_spec() ==> forall|k: int|
                0 <= k < a.len() ==> #[trigger] flags1@[k] == kept(a, b, k),
            T::obeys_eq_spec() ==> r@ == only_in(a, b, i as int),
        decreases a.len() - i,
    {
        let x = v1.remove(0);
        assert(v1@ =~= a.skip(i + 1));
        if flags1[i] {
            r.push(x);
        }
        i = i + 1;
    }
    let mut j: usize = 0;
    while j < flags2.len()
        invariant
            j <= b.len(),
            flags2@.len() == b.len(),
            v2@ == b.skip(j as int),
            T::obeys_eq_spec() ==> forall|k: int|
                0 <= k < b.len() ==> #[trigger] flags2@[k] == kept(b, a, k),
            T::obeys_eq_spec() ==> r@ == only_in(a, b, a.len() as int) + only_in(b, a, j as int),
        decreases b.len() - j,
    {
        let x = v2.remove(0);
        assert(v2@ =~= b.skip(j + 1));
        if flags2[j] {
            r.push(x);
            assert(T::obeys_eq_spec() ==> r@ =~= only_in(a, b, a.len() as int) + only_in(
                b,
                a,
                j + 1,
            ));
        }
        j = j + 1;
    }
    r
}

/// `a + b`, capped at `u64::MAX`.
pub open spec fn capped(total: nat) -> u64 {
    if total > u64::MAX {
        u64::MAX
    } else {
        total as u64
    }
}

/// The flow of one commodity on one edge: `x` is the flow routed there now, `y` the flow
/// that would be there if the whole demand went along the commodity's shortest path.
#[derive(Debug, Clone, Copy)]
pub struct CommodityFlow {
    pub commodity: i32,
    pub x: u64,
    pub y: u64,
}

/// The position of the first entry for commodity `k`, or the length of `entries` if
/// there is none.
pub open spec fn entry_position(entries: Seq<CommodityFlow>, k: int) -> int
    decreases entries.len(),
{
    if entries.len() == 0 {
        0
    } else if entries[0].commodity == k {
        0
    } else {
        1 + entry_position(entries.drop_first(), k)
    }
}

/// Whether no commodity has two entries.
pub open spec fn distinct_commodities(entries: Seq<CommodityFlow>) -> bool {
    forall|i: int, j: int|
        0 <= i < j < entries.len() ==> (#[trigger] entries[i]).commodity != (
        #[trigger] entries[j]).commodity
}

/// The sum of the routed flows of the entries.
pub open spec fn sum_x(entries: Seq<CommodityFlow>) -> nat
    decreases entries.len(),
{
    if entries.len() == 0 {
        0
    } else {
        sum_x(entries.drop_last()) + entries.last().x as nat
    }
}

/// The sum of the shortest-path flows of the entries.
pub open spec fn sum_y(entries: Seq<CommodityFlow>) -> nat
    decreases entries.len(),
{
    if entries.len() == 0 {
        0
    } else {
        sum_y(entries.drop_last()) + entries.last().y as nat
    }
}

/// Whether `entries` holds an entry for commodity `k`.
pub open spec fn has_entry(entries: Seq<CommodityFlow>, k: int) -> bool {
    entry_position(entries, k) < entries.len()
}

/// The routed flow that `entries` holds for commodity `k`; zero if it holds none.
pub open spec fn flow_x_of(entries: Seq<CommodityFlow>, k: int) -> u64 {
    if has_entry(entries, k) {
        entries[entry_position(entries, k)].x
    } else {
        0
    }
}

/// The shortest-path flow that `entries` holds for commodity `k`; zero if it holds none.
pub open spec fn flow_y_of(entries: Seq<CommodityFlow>, k: int) -> u64 {
    if has_entry(entries, k) {
        entries[entry_position(entries, k)].y
    } else {
        0
    }
}

/// The entries after commodity `k` got the flows `x` and `y`: its entry is replaced, or
/// a new one is put at the end.
pub open spec fn flows_with(entries: Seq<CommodityFlow>, k: int, x: u64, y: u64) -> Seq<
    CommodityFlow,
> {
    let e = CommodityFlow { commodity: k as i32, x: x, y: y };
    if has_entry(entries, k) {
        entries.update(entry_position(entries, k), e)
    } else {
        entries.push(e)
    }
}

/// What `entry_position` finds: the first entry of the commodity, if there is one.
pub proof fn lemma_entry_position(entries: Seq<CommodityFlow>, k: int)
    ensures
        0 <= entry_position(entries, k) <= entries.len(),
        entry_position(entries, k) < entries.len() ==> entries[entry_position(
            entries,
            k,
        )].commodity == k,
        forall|j: int| 0 <= j < entry_position(entries, k) ==> (#[trigger] entries[j]).commodity != k,
    decreases entries.len(),
{
    if entries.len() > 0 && entries[0].commodity != k {
        let rest = entries.drop_first();
        lemma_entry_position(rest, k);
        assert forall|j: int| 0 <= j < entry_position(entries, k) implies (
        #[trigger] entries[j]).commodity != k by {
            if j > 0 {
                assert(entries[j] == rest[j - 1]);
            }
        }
    }
}

/// What `flows_with` gives: the commodity has the new flows, every other commodity the
/// flows it had, and still no commodity has two entries.
pub proof fn lemma_flows_with(entries: Seq<CommodityFlow>, k: i32, x: u64, y: u64, other: int)
    requires
        distinct_commodities(entries),
    ensures
        distinct_commodities(flows_with(entries, k as int, x, y)),
        has_entry(flows_with(entries, k as int, x, y), k as int),
        flow_x_of(flows_with(entries, k as int, x, y), k as int) == x,
        flow_y_of(flows_with(entries, k as int, x, y), k as int) == y,
        other != k ==> has_entry(flows_with(entries, k as int, x, y), other) == has_entry(
            entries,
            other,
        ),
        other != k ==> flow_x_of(flows_with(entries, k as int, x, y), other) == flow_x_of(
            entries,
            other,
        ),
        other != k ==> flow_y_of(flows_with(entries, k as int, x, y), other) == flow_y_of(
            entries,
            other,
        ),
        sum_x(flows_with(entries, k as int, x, y)) == sum_x(entries) - flow_x_of(entries, k as int)
            + x,
        sum_y(flows_with(entries, k as int, x, y)) == sum_y(entries) - flow_y_of(entries, k as int)
            + y,
{
    let after = flows_with(entries, k as int, x, y);
    lemma_entry_position(entries, k as int);
    lemma_entry_position(entries, other);
    lemma_entry_position(after, k as int);
    lemma_entry_position(after, other);
    let i = entry_position(entries, k as int);
    if i < entries.len() {
        lemma_sum_update(entries, i, CommodityFlow { commodity: k, x: x, y: y });
        assert(after[i].commodity == k);
        if other != k {
            let j = entry_position(entries, other);
            if j < entries.len() {
                assert(after[j].commodity == other);
            }
            let j2 = entry_position(after, other);
            if j2 < after.len() {
                assert(entries[j2].commodity == other);
            }
        }
    } else {
        assert(after.drop_last() =~= entries);
        assert(after[i].commodity == k);
        if other != k {
            let j = entry_position(entries, other);
            if j < entries.len() {
                assert(after[j].commodity == other);
            }
            let j2 = entry_position(after, other);
            if j2 < after.len() {
                assert(j2 != i);
                assert(entries[j2].commodity == other);
            }
        }
    }
}

/// Replacing one entry changes the sums by the difference of the flows.
pub proof fn lemma_sum_update(entries: Seq<CommodityFlow>, i: int, e: CommodityFlow)
    requires
        0 <= i < entries.len(),
    ensures
        sum_x(entries.update(i, e)) == sum_x(entries) - entries[i].x + e.x,
        sum_y(entries.update(i, e)) == sum_y(entries) - entries[i].y + e.y,
    decreases entries.len(),
{
    let after = entries.update(i, e);
    if i == entries.len() - 1 {
        assert(after.drop_last() =~= entries.drop_last());
    } else {
        lemma_sum_update(entries.drop_last(), i, e);
        assert(after.drop_last() =~= entries.drop_last().update(i, e));
    }
}

/// The ledger entry of one edge: a copy of the edge and, for each commodity that was
/// ever recorded on it, the flows of that commodity.
#[derive(Debug)]
pub struct EdgeFlowCommodities {
    edge: DirectedEdge,
    commodities: Vec<CommodityFlow>,
}

impl EdgeFlowCommodities {
    /// The recorded flows, in the order in which the commodities were first recorded.
    pub closed spec fn entries(&self) -> Seq<CommodityFlow> {
        self.commodities@
    }

    /// The copy of the edge.
    pub closed spec fn spec_edge(&self) -> DirectedEdge {
        self.edge
    }

    /// No commodity is recorded twice.
    pub open spec fn wf(&self) -> bool {
        distinct_commodities(self.entries())
    }

    /// Whether commodity `k` was recorded on the edge.
    pub open spec fn recorded(&self, k: int) -> bool {
        has_entry(self.entries(), k)
    }

    /// The routed flow of commodity `k`; zero if it was never recorded.
    pub open spec fn flow_x(&self, k: int) -> u64 {
        flow_x_of(self.entries(), k)
    }

    /// The shortest-path flow of commodity `k`; zero if it was never recorded.
    pub open spec fn flow_y(&self, k: int) -> u64 {
        flow_y_of(self.entries(), k)
    }

    /// The sum, over the first `n` recorded commodities, of the routed flow of each.
    pub open spec fn sum_of_flows_x(&self, n: int) -> nat
        decreases n,
    {
        if n <= 0 {
            0
        } else {
            self.sum_of_flows_x(n - 1) + self.flow_x(self.entries()[n - 1].commodity as int) as nat
        }
    }

    /// The sum, over the first `n` recorded commodities, of the shortest-path flow of each.
    pub open spec fn sum_of_flows_y(&self, n: int) -> nat
        decreases n,
    {
        if n <= 0 {
            0
        } else {
            self.sum_of_flows_y(n - 1) + self.flow_y(self.entries()[n - 1].commodity as int) as nat
        }
    }

    /// The commodity at position `i` is found at that position, with the flows held there.
    pub proof fn lemma_flow_at(&self, i: int)
        requires
            self.wf(),
            0 <= i < self.entries().len(),
        ensures
            entry_position(self.entries(), self.entries()[i].commodity as int) == i,
            self.recorded(self.entries()[i].commodity as int),
            self.flow_x(self.entries()[i].commodity as int) == self.entries()[i].x,
            self.flow_y(self.entries()[i].commodity as int) == self.entries()[i].y,
    {
        lemma_entry_position(self.entries(), self.entries()[i].commodity as int);
    }

    proof fn lemma_prefix_sums(&self, n: int)
        requires
            self.wf(),
            0 <= n <= self.entries().len(),
        ensures
            sum_x(self.entries().take(n)) == self.sum_of_flows_x(n),
            sum_y(self.entries().take(n)) == self.sum_of_flows_y(n),
        decreases n,
    {
        if n > 0 {
            self.lemma_prefix_sums(n - 1);
            self.lemma_flow_at(n - 1);
            assert(self.entries().take(n).drop_last() =~= self.entries().take(n - 1));
        }
    }

    /// The total flow on the edge is the sum, over the recorded commodities, of the flow
    /// of each.
    pub proof fn lemma_total_is_sum_of_flows(&self)
        requires
            self.wf(),
        ensures
            sum_x(self.entries()) == self.sum_of_flows_x(self.entries().len() as int),
            sum_y(self.entries()) == self.sum_of_flows_y(self.entries().len() as int),
    {
        self.lemma_prefix_sums(self.entries().len() as int);
        assert(self.entries().take(self.entries().len() as int) =~= self.entries());
    }

    /// The ledger entry of `edge` with the flows of one commodity.
    pub fn new(edge: DirectedEdge, commodity: i32, x: u64, y: u64) -> (r: EdgeFlowCommodities)
        ensures
            r.wf(),
            r.spec_edge() == edge,
            r.entries() == seq![CommodityFlow { commodity: commodity, x: x, y: y }],
    {
        let mut commodities: Vec<CommodityFlow> = Vec::new();
        commodities.push(CommodityFlow { commodity, x, y });
        EdgeFlowCommodities { edge, commodities }
    }

    /// A copy of the edge.
    pub fn get_edge(&self) -> (e: DirectedEdge)
        ensures
            e == self.spec_edge(),
    {
        self.edge
    }

    /// Exclusive access to the copy of the edge.
    pub fn get_edge_mut(&mut self) -> (e: &mut DirectedEdge)
        ensures
            *e == old(self).spec_edge(),
            final(self).spec_edge() == *final(e),
            final(self).entries() == old(self).entries(),
    {
        &mut self.edge
    }

    fn position(&self, commodity: i32) -> (i: usize)
        ensures
            i == entry_position(self.entries(), commodity as int),
            i <= self.entries().len(),
    {
        let mut i: usize = 0;
        proof {
            lemma_entry_position(self.entries(), commodity as int);
        }
        while i < self.commodities.len()
            invariant
                i <= self.commodities@.len(),
                forall|j: int| 0 <= j < i ==> (#[trigger] self.commodities@[j]).commodity != commodity,
                0 <= entry_position(self.entries(), commodity as int) <= self.entries().len(),
                entry_position(self.entries(), commodity as int) < self.entries().len()
                    ==> self.entries()[entry_position(
                    self.entries(),
                    commodity as int,
                )].commodity == commodity,
                forall|j: int|
                    0 <= j < entry_position(self.entries(), commodity as int) ==> (
                    #[trigger] self.entries()[j]).commodity != commodity,
            ensures
                i == entry_position(self.entries(), commodity as int),
                i <= self.entries().len(),
            decreases self.commodities@.len() - i,
        {
            if self.commodities[i].commodity == commodity {
                break ;
            }
            i = i + 1;
        }
        i
    }

    /// Sets the routed flow of `commodity` to `flow`. A commodity that was not recorded
    /// yet is recorded with no shortest-path flow.
    pub fn update_commodity_flow_x(&mut self, commodity: &i32, flow: u64)
        requires
            old(self).wf(),
        ensures
            final(self).wf(),
            final(self).spec_edge() == old(self).spec_edge(),
            final(self).entries() == flows_with(
                old(self).entries(),
                *commodity as int,
                flow,
                old(self).flow_y(*commodity as int),
            ),
    {
        let i = self.position(*commodity);
        proof {
            lemma_entry_position(self.entries(), *commodity as int);
        }
        if i < self.commodities.len() {
            let y = self.commodities[i].y;
            self.commodities[i] = CommodityFlow { commodity: *commodity, x: flow, y };
        } else {
            self.commodities.push(CommodityFlow { commodity: *commodity, x: flow, y: 0 });
        }
    }

    /// Sets the shortest-path flow of `commodity` to `flow`. A commodity that was not
    /// recorded yet is recorded with no routed flow.
    pub fn update_commodity_flow_y(&mut self, commodity: &i32, flow: u64)
        requires
            old(self).wf(),
        ensures
            final(self).wf(),
            final(self).spec_edge() == old(self).spec_edge(),
            final(self).entries() == flows_with(
                old(self).entries(),
                *commodity as int,
                old(self).flow_x(*commodity as int),
                flow,
            ),
    {
        let i = self.position(*commodity);
        proof {
            lemma_entry_position(self.entries(), *commodity as int);
        }
        if i < self.commodities.len() {
            let x = self.commodities[i].x;
            self.commodities[i] = CommodityFlow { commodity: *commodity, x, y: flow };
        } else {
            self.commodities.push(CommodityFlow { commodity: *commodity, x: 0, y: flow });
        }
    }

    /// Whether `commodity` was recorded on the edge.
    pub fn is_recorded(&self, commodity: &i32) -> (b: bool)
        ensures
            b == self.recorded(*commodity as int),
    {
        let i = self.position(*commodity);
        i < self.commodities.len()
    }

    /// The routed flow of `commodity` on the edge; zero if it was never recorded.
    pub fn get_total_flow_by_commodity(&self, commodity: &i32) -> (flow: u64)
        ensures
            flow == self.flow_x(*commodity as int),
    {
        let i = self.position(*commodity);
        if i < self.commodities.len() {
            self.commodities[i].x
        } else {
            0
        }
    }

    /// The routed flow of all commodities together, capped at `u64::MAX`.
    pub fn get_total_flow_x(&self) -> (total: u64)
        ensures
            total == capped(sum_x(self.entries())),
    {
        let mut total: u64 = 0;
        let mut i: usize = 0;
        while i < self.commodities.len()
            invariant
                i <= self.commodities@.len(),
                total == capped(sum_x(self.commodities@.take(i as int))),
            decreases self.commodities@.len() - i,
        {
            assert(self.commodities@.take(i + 1).drop_last() =~= self.commodities@.take(i as int));
            total = total.saturating_add(self.commodities[i].x);
            i = i + 1;
        }
        assert(self.commodities@.take(i as int) =~= self.commodities@);
        total
    }

    /// The shortest-path flow of all commodities together, capped at `u64::MAX`.
    pub fn get_total_flow_y(&self) -> (total: u64)
        ensures
            total == capped(sum_y(self.entries())),
    {
        let mut total: u64 = 0;
        let mut i: usize = 0;
        while i < self.commodities.len()
            invariant
                i <= self.commodities@.len(),
                total == capped(sum_y(self.commodities@.take(i as int))),
            decreases self.commodities@.len() - i,
        {
            assert(self.commodities@.take(i + 1).drop_last() =~= self.commodities@.take(i as int));
            total = total.saturating_add(self.commodities[i].y);
            i = i + 1;
        }
        assert(self.commodities@.take(i as int) =~= self.commodities@);
        total
    }
}

/// The character of the decimal digit `d`.
pub open spec fn digit_char(d: int) -> char {
    if d == 0 {
        '0'
    } else if d == 1 {
        '1'
    } else if d == 2 {
        '2'
    } else if d == 3 {
        '3'
    } else if d == 4 {
        '4'
    } else if d == 5 {
        '5'
    } else if d == 6 {
        '6'
    } else if d == 7 {
        '7'
    } else if d == 8 {
        '8'
    } else {
        '9'
    }
}

/// The decimal digits of `n`, without leading zeros.
pub open spec fn digits_of(n: nat) -> Seq<char>
    decreases n,
{
    if n < 10 {
        seq![digit_char(n as int)]
    } else {
        digits_of(n / 10).push(digit_char((n % 10) as int))
    }
}

/// `n` written in decimal, with a minus sign in front if it is negative.
pub open spec fn decimal_of(n: int) -> Seq<char> {
    if n < 0 {
        seq!['-'] + digits_of((-n) as nat)
    } else {
        digits_of(n as nat)
    }
}

/// The vertices that a path passes, from its source to its target; `edges` lists the
/// edges of the path last edge first.
pub open spec fn path_vertices_of(edges: Seq<DirectedEdge>) -> Seq<int> {
    if edges.len() == 0 {
        Seq::empty()
    } else {
        seq![edges.last().v as int] + Seq::new(
            edges.len(),
            |i: int| edges[edges.len() - 1 - i].w as int,
        )
    }
}

/// The first `n` of `vertices` written in decimal, with an underscore between one and
/// the next.
pub open spec fn joined(vertices: Seq<int>, n: int) -> Seq<char>
    decreases n,
{
    if n <= 0 {
        Seq::empty()
    } else if n == 1 {
        decimal_of(vertices[0])
    } else {
        joined(vertices, n - 1) + seq!['_'] + decimal_of(vertices[n - 1])
    }
}

/// Whether `text` holds no underscore.
pub open spec fn no_underscore(text: Seq<char>) -> bool {
    forall|i: int| 0 <= i < text.len() ==> #[trigger] text[i] != '_'
}

proof fn lemma_digit_char(a: int, b: int)
    requires
        0 <= a <= 9,
        0 <= b <= 9,
    ensures
        digit_char(a) != '_',
        digit_char(a) != '-',
        digit_char(a) == digit_char(b) ==> a == b,
{
}

proof fn lemma_digits(n: nat)
    ensures
        digits_of(n).len() >= 1,
        n >= 10 ==> digits_of(n).len() >= 2,
        no_underscore(digits_of(n)),
        digits_of(n)[0] != '-',
    decreases n,
{
    lemma_digit_char((n % 10) as int, 0);
    if n >= 10 {
        lemma_digits(n / 10);
        let d = digits_of(n / 10);
        assert(digits_of(n) == d.push(digit_char((n % 10) as int)));
        assert(digits_of(n)[0] == d[0]);
    }
}

proof fn lemma_digits_differ(a: nat, b: nat)
    requires
        digits_of(a) == digits_of(b),
    ensures
        a == b,
    decreases a,
{
    lemma_digits(a);
    lemma_digits(b);
    lemma_digit_char((a % 10) as int, (b % 10) as int);
    if a >= 10 && b >= 10 {
        let da = digits_of(a / 10);
        let db = digits_of(b / 10);
        let ca = digit_char((a % 10) as int);
        let cb = digit_char((b % 10) as int);
        assert(da.push(ca) == db.push(cb));
        assert(da.push(ca).last() == ca);
        assert(db.push(cb).last() == cb);
        assert(da.push(ca).drop_last() =~= da);
        assert(db.push(cb).drop_last() =~= db);
        lemma_digits_differ(a / 10, b / 10);
    } else if a < 10 && b < 10 {
        assert(digits_of(a)[0] == digit_char(a as int));
        assert(digits_of(b)[0] == digit_char(b as int));
        lemma_digit_char(a as int, b as int);
    }
}

/// A number written in decimal is not empty and holds no underscore, and two numbers that
/// are written alike are the same.
pub proof fn lemma_decimal(x: int, y: int)
    ensures
        decimal_of(x).len() >= 1,
        no_underscore(decimal_of(x)),
        decimal_of(x) == decimal_of(y) ==> x == y,
{
    let nx = if x < 0 {
        (-x) as nat
    } else {
        x as nat
    };
    let ny = if y < 0 {
        (-y) as nat
    } else {
        y as nat
    };
    lemma_digits(nx);
    lemma_digits(ny);
    if x < 0 {
        assert forall|i: int| 0 <= i < decimal_of(x).len() implies #[trigger] decimal_of(x)[i]
            != '_' by {
            if i > 0 {
                assert(decimal_of(x)[i] == digits_of(nx)[i - 1]);
            }
        }
    }
    if decimal_of(x) == decimal_of(y) {
        if x < 0 && y < 0 {
            assert(decimal_of(x).drop_first() =~= digits_of(nx));
            assert(decimal_of(y).drop_first() =~= digits_of(ny));
            lemma_digits_differ(nx, ny);
        } else if x < 0 {
            assert(decimal_of(x)[0] == '-');
            assert(decimal_of(y)[0] == digits_of(ny)[0]);
        } else if y < 0 {
            assert(decimal_of(y)[0] == '-');
            assert(decimal_of(x)[0] == digits_of(nx)[0]);
        } else {
            lemma_digits_differ(nx, ny);
        }
    }
}

proof fn lemma_split_at_last_underscore(
    a1: Seq<char>,
    d1: Seq<char>,
    a2: Seq<char>,
    d2: Seq<char>,
)
    requires
        a1 + seq!['_'] + d1 == a2 + seq!['_'] + d2,
        no_underscore(d1),
        no_underscore(d2),
    ensures
        a1 == a2,
        d1 == d2,
{
    let t1 = a1 + seq!['_'] + d1;
    let t2 = a2 + seq!['_'] + d2;
    assert(t1.len() == a1.len() + 1 + d1.len());
    assert(t2.len() == a2.len() + 1 + d2.len());
    if a1.len() < a2.len() {
        assert(t1[a1.len() as int] == '_');
        assert(t2[a1.len() as int] == a2[a1.len() as int]);
        assert(t1[a2.len() as int] == d1[a2.len() - a1.len() - 1]);
        assert(t2[a2.len() as int] == '_');
    } else if a2.len() < a1.len() {
        assert(t2[a2.len() as int] == '_');
        assert(t1[a1.len() as int] == '_');
        assert(t2[a1.len() as int] == d2[a1.len() - a2.len() - 1]);
    }
    assert(a1.len() == a2.len());
    assert forall|i: int| 0 <= i < a1.len() implies a1[i] == a2[i] by {
        assert(t1[i] == a1[i]);
        assert(t2[i] == a2[i]);
    }
    assert(a1 =~= a2);
    assert forall|i: int| 0 <= i < d1.len() implies d1[i] == d2[i] by {
        assert(t1[a1.len() + 1 + i] == d1[i]);
        assert(t2[a2.len() + 1 + i] == d2[i]);
    }
    assert(d1 =~= d2);
}

proof fn lemma_joined_shape(vertices: Seq<int>, n: int)
    requires
        1 <= n,
    ensures
        joined(vertices, n).len() >= 1,
        n == 1 ==> no_underscore(joined(vertices, n)),
        n >= 2 ==> !no_underscore(joined(vertices, n)),
{
    lemma_decimal(vertices[n - 1], 0);
    lemma_decimal(vertices[0], 0);
    if n >= 2 {
        let t = joined(vertices, n);
        let head = joined(vertices, n - 1);
        assert(t == head + seq!['_'] + decimal_of(vertices[n - 1]));
        assert(t[head.len() as int] == '_');
    }
}

/// Two sequences of vertices that are written alike are the same sequence.
pub proof fn lemma_joined_names_vertices(a: Seq<int>, n: int, b: Seq<int>, m: int)
    requires
        0 <= n <= a.len(),
        0 <= m <= b.len(),
        joined(a, n) == joined(b, m),
    ensures
        n == m,
        forall|i: int| 0 <= i < n ==> a[i] == b[i],
    decreases n,
{
    if n >= 1 {
        lemma_joined_shape(a, n);
    }
    if m >= 1 {
        lemma_joined_shape(b, m);
    }
    if n == 1 && m == 1 {
        lemma_decimal(a[0], b[0]);
    } else if n >= 2 && m >= 2 {
        lemma_decimal(a[n - 1], b[m - 1]);
        lemma_decimal(b[m - 1], 0);
        lemma_split_at_last_underscore(
            joined(a, n - 1),
            decimal_of(a[n - 1]),
            joined(b, m - 1),
            decimal_of(b[m - 1]),
        );
        lemma_joined_names_vertices(a, n - 1, b, m - 1);
    }
}

/// Whether each edge of `path`, which lists its edges last edge first, ends where the
/// edge listed before it starts.
pub open spec fn is_chain(path: Seq<DirectedEdge>) -> bool {
    forall|i: int| 0 <= i < path.len() - 1 ==> (#[trigger] path[i]).v == path[i + 1].w
}

/// The edges of a walk form a chain.
pub proof fn lemma_path_is_chain(adj: Seq<Seq<DirectedEdge>>, p: Seq<DirectedEdge>, s: int, t: int)
    requires
        is_reverse_path(adj, p, s, t),
    ensures
        is_chain(p),
    decreases p.len(),
{
    if p.len() > 0 {
        let rest = p.drop_first();
        lemma_path_is_chain(adj, rest, s, p[0].v as int);
        assert forall|i: int| 0 <= i < p.len() - 1 implies (#[trigger] p[i]).v == p[i + 1].w by {
            if i == 0 {
                assert(rest[0] == p[1]);
            } else {
                assert(rest[i - 1] == p[i]);
                assert(rest[i] == p[i + 1]);
            }
        }
    }
}

/// The key of a path names its vertices: two chains of edges have the same key exactly if
/// they pass the same vertices in the same order, that is, if their edges join the same
/// vertices one by one.
pub proof fn lemma_key_names_path(p: Seq<DirectedEdge>, q: Seq<DirectedEdge>)
    requires
        is_chain(p),
        is_chain(q),
    ensures
        joined(path_vertices_of(p), path_vertices_of(p).len() as int) == joined(
            path_vertices_of(q),
            path_vertices_of(q).len() as int,
        ) <==> p.len() == q.len() && forall|i: int|
            0 <= i < p.len() ==> (#[trigger] p[i]).v == q[i].v && p[i].w == q[i].w,
{
    let vp = path_vertices_of(p);
    let vq = path_vertices_of(q);
    if joined(vp, vp.len() as int) == joined(vq, vq.len() as int) {
        lemma_joined_names_vertices(vp, vp.len() as int, vq, vq.len() as int);
        if p.len() > 0 {
            assert(vp.len() == p.len() + 1);
        }
        if q.len() > 0 {
            assert(vq.len() == q.len() + 1);
        }
        assert(p.len() == q.len());
        assert forall|i: int| 0 <= i < p.len() implies (#[trigger] p[i]).v == q[i].v && p[i].w
            == q[i].w by {
            let n = p.len() as int;
            assert(vp[n - i] == p[i].w);
            assert(vq[n - i] == q[i].w);
            if i < n - 1 {
                assert(vp[n - i - 1] == p[i + 1].w);
                assert(vq[n - i - 1] == q[i + 1].w);
            } else {
                assert(vp[0] == p[i].v);
                assert(vq[0] == q[i].v);
            }
        }
    }
    if p.len() == q.len() && forall|i: int|
        0 <= i < p.len() ==> (#[trigger] p[i]).v == q[i].v && p[i].w == q[i].w {
        if p.len() > 0 {
            assert(p[p.len() - 1].v == q[p.len() - 1].v);
            assert forall|i: int| 0 <= i < vp.len() implies vp[i] == vq[i] by {
                if i > 0 {
                    assert(p[p.len() - i].w == q[p.len() - i].w);
                }
            }
        }
        assert(vp =~= vq);
    }
}

/// Whether `c` is a character that the text of a key is made of: a decimal digit, the
/// underscore or the minus sign.
pub open spec fn is_key_char(c: char) -> bool {
    c == '0' || c == '1' || c == '2' || c == '3' || c == '4' || c == '5' || c == '6' || c == '7'
        || c == '8' || c == '9' || c == '_' || c == '-'
}

proof fn lemma_digits_are_key_chars(n: nat)
    ensures
        forall|i: int| 0 <= i < digits_of(n).len() ==> is_key_char(#[trigger] digits_of(n)[i]),
    decreases n,
{
    if n >= 10 {
        lemma_digits_are_key_chars(n / 10);
        let d = digits_of(n / 10);
        assert forall|i: int| 0 <= i < digits_of(n).len() implies is_key_char(
            #[trigger] digits_of(n)[i],
        ) by {
            if i < d.len() {
                assert(digits_of(n)[i] == d[i]);
            }
        }
    }
}

proof fn lemma_decimal_chars(x: int)
    ensures
        forall|i: int| 0 <= i < decimal_of(x).len() ==> is_key_char(#[trigger] decimal_of(x)[i]),
{
    if x < 0 {
        lemma_digits_are_key_chars((-x) as nat);
        assert forall|i: int| 0 <= i < decimal_of(x).len() implies is_key_char(
            #[trigger] decimal_of(x)[i],
        ) by {
            if i > 0 {
                assert(decimal_of(x)[i] == digits_of((-x) as nat)[i - 1]);
            }
        }
    } else {
        lemma_digits_are_key_chars(x as nat);
    }
}

fn push_char(s: &mut String, c: char)
    requires
        is_key_char(c),
    ensures
        final(s)@ == old(s)@.push(c),
{
    if c == '0' {
        proof {
            reveal_strlit("0");
        }
        s.append("0");
        assert(s@ =~= old(s)@.push('0'));
    } else if c == '1' {
        proof {
            reveal_strlit("1");
        }
        s.append("1");
        assert(s@ =~= old(s)@.push('1'));
    } else if c == '2' {
        proof {
            reveal_strlit("2");
        }
        s.append("2");
        assert(s@ =~= old(s)@.push('2'));
    } else if c == '3' {
        proof {
            reveal_strlit("3");
        }
        s.append("3");
        assert(s@ =~= old(s)@.push('3'));
    } else if c == '4' {
        proof {
            reveal_strlit("4");
        }
        s.append("4");
        assert(s@ =~= old(s)@.push('4'));
    } else if c == '5' {
        proof {
            reveal_strlit("5");
        }
        s.append("5");
        assert(s@ =~= old(s)@.push('5'));
    } else if c == '6' {
        proof {
            reveal_strlit("6");
        }
        s.append("6");
        assert(s@ =~= old(s)@.push('6'));
    } else if c == '7' {
        proof {
            reveal_strlit("7");
        }
        s.append("7");
        assert(s@ =~= old(s)@.push('7'));
    } else if c == '8' {
        proof {
            reveal_strlit("8");
        }
        s.append("8");
        assert(s@ =~= old(s)@.push('8'));
    } else if c == '9' {
        proof {
            reveal_strlit("9");
        }
        s.append("9");
        assert(s@ =~= old(s)@.push('9'));
    } else if c == '_' {
        proof {
            reveal_strlit("_");
        }
        s.append("_");
        assert(s@ =~= old(s)@.push('_'));
    } else {
        proof {
            reveal_strlit("-");
        }
        s.append("-");
        assert(s@ =~= old(s)@.push('-'));
    }
}

fn digit(d: u32) -> (c: char)
    requires
        d < 10,
    ensures
        c == digit_char(d as int),
{
    if d == 0 {
        '0'
    } else if d == 1 {
        '1'
    } else if d == 2 {
        '2'
    } else if d == 3 {
        '3'
    } else if d == 4 {
        '4'
    } else if d == 5 {
        '5'
    } else if d == 6 {
        '6'
    } else if d == 7 {
        '7'
    } else if d == 8 {
        '8'
    } else {
        '9'
    }
}

fn append_decimal(out: &mut Vec<char>, n: i32)
    ensures
        final(out)@ == old(out)@ + decimal_of(n as int),
{
    let mut m: u32 = if n < 0 {
        out.push('-');
        (-(n as i64)) as u32
    } else {
        n as u32
    };
    let ghost start = out@;
    let ghost whole = m as nat;
    let mut rev: Vec<char> = Vec::new();
    loop
        invariant_except_break
            digits_of(whole) == digits_of(m as nat) + rev@.reverse(),
        ensures
            digits_of(whole) == rev@.reverse(),
            rev@.len() > 0,
        decreases m,
    {
        let ghost before = rev@;
        rev.push(digit(m % 10));
        proof {
            assert(rev@.reverse() =~= seq![digit_char((m % 10) as int)] + before.reverse());
            if m >= 10 {
                assert(digits_of(m as nat) == digits_of((m / 10) as nat).push(
                    digit_char((m % 10) as int),
                ));
                assert(digits_of(whole) =~= digits_of((m / 10) as nat) + rev@.reverse());
            } else {
                assert(digits_of(whole) =~= rev@.reverse());
            }
        }
        if m < 10 {
            break ;
        }
        m = m / 10;
    }
    let mut i: usize = rev.len();
    while i > 0
        invariant
            i <= rev@.len(),
            out@ == start + rev@.reverse().take(rev@.len() - i),
        decreases i,
    {
        i = i - 1;
        out.push(rev[i]);
        assert(out@ =~= start + rev@.reverse().take(rev@.len() - i));
    }
    assert(rev@.reverse().take(rev@.len() as int) =~= rev@.reverse());
    assert(out@ =~= old(out)@ + decimal_of(n as int));
}

fn push_decimal(s: &mut String, n: i32)
    ensures
        final(s)@ == old(s)@ + decimal_of(n as int),
{
    let mut text: Vec<char> = Vec::new();
    append_decimal(&mut text, n);
    assert(text@ =~= decimal_of(n as int));
    let mut i: usize = 0;
    proof {
        lemma_decimal_chars(n as int);
    }
    while i < text.len()
        invariant
            i <= text@.len(),
            s@ == old(s)@ + text@.take(i as int),
            forall|j: int| 0 <= j < text@.len() ==> is_key_char(#[trigger] text@[j]),
        decreases text@.len() - i,
    {
        push_char(s, text[i]);
        assert(s@ =~= old(s)@ + text@.take(i + 1));
        i = i + 1;
    }
    assert(text@.take(i as int) =~= text@);
}

/// The key of the edge from `v` to `w` as text: the two vertices in decimal with an
/// underscore between them.
pub open spec fn edge_key(v: int, w: int) -> Seq<char> {
    decimal_of(v) + seq!['_'] + decimal_of(w)
}

/// Whether the text `a` comes before the text `b` in the order of strings: at the first
/// place where they differ `a` has the smaller character, or `a` ends there and `b` goes
/// on.
pub open spec fn text_before(a: Seq<char>, b: Seq<char>) -> bool
    decreases a.len(),
{
    if b.len() == 0 {
        false
    } else if a.len() == 0 {
        true
    } else if a[0] != b[0] {
        (a[0] as int) < (b[0] as int)
    } else {
        text_before(a.drop_first(), b.drop_first())
    }
}

/// The order of strings is strict: of two texts at most one comes before the other, and
/// exactly one does unless they are the same text.
pub proof fn lemma_text_order_strict(a: Seq<char>, b: Seq<char>)
    ensures
        !(text_before(a, b) && text_before(b, a)),
        !text_before(a, b) && !text_before(b, a) ==> a == b,
    decreases a.len(),
{
    if a.len() > 0 && b.len() > 0 && a[0] == b[0] {
        lemma_text_order_strict(a.drop_first(), b.drop_first());
        if !text_before(a, b) && !text_before(b, a) {
            assert(a =~= seq![a[0]] + a.drop_first());
            assert(b =~= seq![b[0]] + b.drop_first());
        }
    } else if a.len() == 0 && b.len() == 0 {
        assert(a =~= b);
    }
}

/// The order of strings carries over: a text that comes before another comes before
/// every third text or has that third text before the other.
pub proof fn lemma_text_order_carries(a: Seq<char>, b: Seq<char>, c: Seq<char>)
    requires
        text_before(a, c),
    ensures
        text_before(a, b) || text_before(b, c),
    decreases a.len(),
{
    if a.len() > 0 && b.len() > 0 && c.len() > 0 {
        if a[0] == c[0] && a[0] == b[0] {
            lemma_text_order_carries(a.drop_first(), b.drop_first(), c.drop_first());
        } else {
            assert(a[0] == b[0] <==> a[0] as int == b[0] as int);
            assert(b[0] == c[0] <==> b[0] as int == c[0] as int);
            assert(a[0] == c[0] <==> a[0] as int == c[0] as int);
        }
    }
}

/// The key of the edge from `v` to `w` as text.
pub fn edge_key_text(v: i32, w: i32) -> (r: Vec<char>)
    ensures
        r@ == edge_key(v as int, w as int),
{
    let mut r: Vec<char> = Vec::new();
    append_decimal(&mut r, v);
    r.push('_');
    append_decimal(&mut r, w);
    assert(r@ =~= edge_key(v as int, w as int));
    r
}

/// Whether the text `a` comes before the text `b` in the order of strings.
pub fn is_text_before(a: &Vec<char>, b: &Vec<char>) -> (r: bool)
    ensures
        r == text_before(a@, b@),
{
    let mut i: usize = 0;
    assert(a@.skip(0) =~= a@ && b@.skip(0) =~= b@);
    while i < a.len() && i < b.len()
        invariant
            i <= a@.len(),
            i <= b@.len(),
            text_before(a@, b@) == text_before(a@.skip(i as int), b@.skip(i as int)),
        decreases a@.len() - i,
    {
        let x = a[i];
        let y = b[i];
        proof {
            assert(a@.skip(i as int)[0] == x);
            assert(b@.skip(i as int)[0] == y);
            assert(a@.skip(i as int).drop_first() =~= a@.skip(i + 1));
            assert(b@.skip(i as int).drop_first() =~= b@.skip(i + 1));
        }
        if x != y {
            return x < y;
        }
        i = i + 1;
    }
    proof {
        assert(a@.skip(i as int).len() == a@.len() - i);
        assert(b@.skip(i as int).len() == b@.len() - i);
    }
    i < b.len()
}

/// The vertices that a path passes, from its source to its target. The path is given by
/// its edges, last edge first.
pub fn path_vertices(edges: &Vec<DirectedEdge>) -> (r: Vec<i32>)
    ensures
        r@.len() == path_vertices_of(edges@).len(),
        forall|i: int| 0 <= i < r@.len() ==> #[trigger] r@[i] as int == path_vertices_of(edges@)[i],
{
    let mut r: Vec<i32> = Vec::new();
    let n = edges.len();
    if n == 0 {
        return r;
    }
    r.push(edges[n - 1].v);
    let mut i: usize = 0;
    while i < n
        invariant
            i <= n,
            n == edges@.len(),
            r@.len() == i + 1,
            forall|j: int|
                0 <= j < r@.len() ==> #[trigger] r@[j] as int == path_vertices_of(edges@)[j],
        decreases n - i,
    {
        r.push(edges[n - 1 - i].w);
        i = i + 1;
    }
    r
}

/// The key of a path as text: the vertices it passes, from its source to its target, in
/// decimal with an underscore between one and the next. The path is given by its edges,
/// last edge first; a path without edges has the empty key.
pub fn vec_edge_to_str(edges: &Vec<DirectedEdge>) -> (r: String)
    ensures
        r@ == joined(path_vertices_of(edges@), path_vertices_of(edges@).len() as int),
{
    let vertices = path_vertices(edges);
    let ghost vs = path_vertices_of(edges@);
    let mut r = String::new();
    let mut i: usize = 0;
    while i < vertices.len()
        invariant
            i <= vertices@.len(),
            vertices@.len() == vs.len(),
            forall|j: int| 0 <= j < vertices@.len() ==> #[trigger] vertices@[j] as int == vs[j],
            r@ == joined(vs, i as int),
        decreases vertices@.len() - i,
    {
        if i > 0 {
            push_char(&mut r, '_');
        }
        push_decimal(&mut r, vertices[i]);
        proof {
            if i == 0 {
                assert(r@ =~= joined(vs, 1));
            } else {
                assert(r@ =~= joined(vs, i + 1));
            }
        }
        i = i + 1;
    }
    r
}

/// The vertices of `visited`, as integers.
pub open spec fn marked(visited: Set<i32>) -> Set<int> {
    Set::new(|v: int| i32::MIN <= v <= i32::MAX && visited.contains(v as i32))
}

/// The vertices of a graph of `n` vertices that are not in `visited`.
pub open spec fn unmarked(visited: Set<i32>, n: int) -> Set<int> {
    Set::new(|v: int| 0 <= v < n && !visited.contains(v as i32))
}

proof fn lemma_mark(visited: Set<i32>, n: int, v: int)
    requires
        0 <= v < n <= i32::MAX,
        !visited.contains(v as i32),
    ensures
        unmarked(visited.insert(v as i32), n).len() + 1 == unmarked(visited, n).len(),
        marked(visited.insert(v as i32)) == marked(visited).insert(v),
        visited.insert(v as i32).remove(v as i32) == visited,
{
    let all = vstd::set_lib::set_int_range(0, n);
    vstd::set_lib::lemma_int_range(0, n);
    vstd::set_lib::lemma_len_subset(unmarked(visited, n), all);
    assert(unmarked(visited.insert(v as i32), n) =~= unmarked(visited, n).remove(v));
    vstd::set::axiom_set_remove_len(unmarked(visited, n), v);
    assert(marked(visited.insert(v as i32)) =~= marked(visited).insert(v));
    assert(visited.insert(v as i32).remove(v as i32) =~= visited);
}

/// A path with at least one edge starts with its first edge, which is listed last, and
/// goes on from where that edge ends.
pub proof fn lemma_path_first_edge(adj: Seq<Seq<DirectedEdge>>, p: Seq<DirectedEdge>, s: int, t: int)
    requires
        is_reverse_path(adj, p, s, t),
        p.len() > 0,
    ensures
        is_edge_of(adj, p.last()),
        p.last().v == s,
        is_reverse_path(adj, p.drop_last(), p.last().w as int, t),
    decreases p.len(),
{
    if p.len() == 1 {
        assert(p.drop_first() =~= Seq::<DirectedEdge>::empty());
        assert(is_reverse_path(adj, p.drop_first(), s, p[0].v as int));
        assert(p.drop_last() =~= Seq::<DirectedEdge>::empty());
        assert(is_reverse_path(adj, p.drop_last(), p.last().w as int, t));
    } else {
        let rest = p.drop_first();
        lemma_path_first_edge(adj, rest, s, p[0].v as int);
        assert(rest.last() == p.last());
        assert(p.drop_last().drop_first() =~= rest.drop_last());
        assert(p.drop_last()[0] == p[0]);
    }
}

fn reversed(path: &Vec<DirectedEdge>) -> (r: Vec<DirectedEdge>)
    ensures
        r@ == path@.reverse(),
{
    let mut r: Vec<DirectedEdge> = Vec::new();
    let mut i: usize = path.len();
    while i > 0
        invariant
            i <= path@.len(),
            r@ == path@.reverse().take(path@.len() - i),
        decreases i,
    {
        i = i - 1;
        r.push(path[i]);
        assert(r@ =~= path@.reverse().take(path@.len() - i));
    }
    assert(path@.reverse().take(path@.len() as int) =~= path@.reverse());
    r
}

/// Whether `q` lists, last edge first, the edges of a path from `v` to `end` that enters
/// no vertex of `banned` and no vertex twice.
pub open spec fn is_leg(
    adj: Seq<Seq<DirectedEdge>>,
    q: Seq<DirectedEdge>,
    v: int,
    end: int,
    banned: Set<int>,
) -> bool {
    is_reverse_path(adj, q, v, end) && fresh(q, banned)
}

/// Whether `whole` is such a path from `v` to `end` followed by the edges of `tail`.
pub open spec fn extends_to(
    adj: Seq<Seq<DirectedEdge>>,
    v: int,
    end: int,
    banned: Set<int>,
    tail: Seq<DirectedEdge>,
    whole: Seq<DirectedEdge>,
) -> bool {
    exists|q: Seq<DirectedEdge>| #[trigger] is_leg(adj, q, v, end, banned) && whole == q + tail
}

/// Whether `whole` is one of `paths` from position `lo` on.
pub open spec fn listed(paths: Seq<Vec<DirectedEdge>>, lo: int, whole: Seq<DirectedEdge>) -> bool {
    exists|i: int| lo <= i < paths.len() && (#[trigger] paths[i])@ == whole
}

/// Whether `e` is one of the first `j` edges of `row`.
pub open spec fn seen(row: Seq<DirectedEdge>, j: int, e: DirectedEdge) -> bool {
    exists|k: int| 0 <= k < j && #[trigger] row[k] == e
}

proof fn lemma_leg_grows(
    adj: Seq<Seq<DirectedEdge>>,
    q1: Seq<DirectedEdge>,
    e: DirectedEdge,
    end: int,
    banned: Set<int>,
    tail: Seq<DirectedEdge>,
)
    requires
        is_edge_of(adj, e),
        !banned.contains(e.w as int),
        is_leg(adj, q1, e.w as int, end, banned.insert(e.w as int)),
    ensures
        is_leg(adj, q1.push(e), e.v as int, end, banned),
        q1.push(e) + tail == q1 + (seq![e] + tail),
{
    let q = q1.push(e);
    lemma_path_extend(adj, q1, e.w as int, end, e);
    assert(q + tail =~= q1 + (seq![e] + tail));
    assert forall|a: int| 0 <= a < q.len() implies !banned.contains((#[trigger] q[a]).w as int) by {
        if a < q1.len() {
            assert(q[a] == q1[a]);
            assert(!banned.insert(e.w as int).contains(q1[a].w as int));
        }
    }
    assert forall|a: int, b: int| 0 <= a < b < q.len() implies (#[trigger] q[a]).w != (
    #[trigger] q[b]).w by {
        assert(q[a] == q1[a]);
        if b < q1.len() {
            assert(q[b] == q1[b]);
        } else {
            assert(!banned.insert(e.w as int).contains(q1[a].w as int));
        }
    }
}

proof fn lemma_leg_peels(adj: Seq<Seq<DirectedEdge>>, q: Seq<DirectedEdge>, v: int, end: int, banned: Set<int>)
    requires
        is_leg(adj, q, v, end, banned),
        q.len() > 0,
    ensures
        is_edge_of(adj, q.last()),
        q.last().v == v,
        !banned.contains(q.last().w as int),
        is_leg(adj, q.drop_last(), q.last().w as int, end, banned.insert(q.last().w as int)),
        q == q.drop_last().push(q.last()),
{
    lemma_path_first_edge(adj, q, v, end);
    let q1 = q.drop_last();
    let e = q.last();
    assert(q =~= q1.push(e));
    assert forall|a: int| 0 <= a < q1.len() implies !banned.insert(e.w as int).contains(
        (#[trigger] q1[a]).w as int,
    ) by {
        assert(q1[a] == q[a]);
        assert(!banned.contains(q[a].w as int));
        assert(q[a].w != q[q.len() - 1].w);
    }
    assert forall|a: int, b: int| 0 <= a < b < q1.len() implies (#[trigger] q1[a]).w != (
    #[trigger] q1[b]).w by {
        assert(q1[a] == q[a] && q1[b] == q[b]);
    }
}

proof fn lemma_only_empty_leg(adj: Seq<Seq<DirectedEdge>>, q: Seq<DirectedEdge>, v: int, banned: Set<int>)
    requires
        is_leg(adj, q, v, v, banned),
        banned.contains(v),
    ensures
        q == Seq::<DirectedEdge>::empty(),
{
    if q.len() > 0 {
        assert(q[0].w == v);
    }
    assert(q =~= Seq::<DirectedEdge>::empty());
}

proof fn lemma_listed_grows(
    before: Seq<Vec<DirectedEdge>>,
    after: Seq<Vec<DirectedEdge>>,
    lo: int,
    mid: int,
    whole: Seq<DirectedEdge>,
)
    requires
        0 <= lo <= mid <= before.len() <= after.len(),
        after.take(before.len() as int) == before,
        listed(before, lo, whole) || listed(after, mid, whole),
    ensures
        listed(after, lo, whole),
{
    if listed(before, lo, whole) {
        let i = choose|i: int| lo <= i < before.len() && (#[trigger] before[i])@ == whole;
        assert(after.take(before.len() as int)[i] == after[i]);
        assert(after[i]@ == whole);
    } else {
        let i = choose|i: int| mid <= i < after.len() && (#[trigger] after[i])@ == whole;
        assert(after[i]@ == whole);
    }
}

fn dfs(
    graph: &EdgeWeightedDigraph,
    v: usize,
    end: usize,
    visited: &mut HashSet<i32>,
    current_path: &mut Vec<DirectedEdge>,
    paths: &mut Vec<Vec<DirectedEdge>>,
)
    requires
        graph.wf(),
        graph@.len() <= i32::MAX,
        v < graph@.len(),
        end < graph@.len(),
        !old(visited)@.contains(v as i32),
    ensures
        final(visited)@ == old(visited)@,
        final(current_path)@ == old(current_path)@,
        final(paths)@.len() >= old(paths)@.len(),
        final(paths)@.take(old(paths)@.len() as int) == old(paths)@,
        forall|i: int|
            old(paths)@.len() <= i < final(paths)@.len() ==> extends_to(
                graph@,
                v as int,
                end as int,
                marked(old(visited)@).insert(v as int),
                old(current_path)@.reverse(),
                (#[trigger] final(paths)@[i])@,
            ),
        forall|q: Seq<DirectedEdge>|
            #[trigger] is_leg(
                graph@,
                q,
                v as int,
                end as int,
                marked(old(visited)@).insert(v as int),
            ) ==> listed(
                final(paths)@,
                old(paths)@.len() as int,
                q + old(current_path)@.reverse(),
            ),
    decreases unmarked(old(visited)@, graph@.len() as int).len(),
{
    broadcast use vstd::std_specs::hash::group_hash_axioms;

    let ghost adj = graph@;
    let ghost before = paths@;
    let ghost lo = paths@.len() as int;
    let ghost stack = current_path@;
    let ghost tail = current_path@.reverse();
    let ghost banned = marked(visited@).insert(v as int);
    if v == end {
        let found = reversed(current_path);
        paths.push(found);
        proof {
            let empty = Seq::<DirectedEdge>::empty();
            assert(paths@.take(lo) =~= before);
            assert(is_reverse_path(adj, empty, v as int, end as int));
            assert(is_leg(adj, empty, v as int, end as int, banned));
            assert(empty + tail =~= tail);
            assert(paths@[lo]@ == tail);
            assert forall|q: Seq<DirectedEdge>| #[trigger]
                is_leg(adj, q, v as int, end as int, banned) implies listed(paths@, lo, q + tail) by {
                lemma_only_empty_leg(adj, q, v as int, banned);
            }
        }
        return ;
    }
    let newly: bool = visited.insert(v as i32);
    proof {
        lemma_mark(old(visited)@, adj.len() as int, v as int);
    }
    let bag = graph.edge_list(v);
    let n = bag.size();
    let mut j: usize = 0;
    while j < n
        invariant
            j <= n,
            graph.wf(),
            adj == graph@,
            lo == before.len(),
            tail == stack.reverse(),
            n == adj[v as int].len(),
            bag@ == adj[v as int],
            v < adj.len(),
            end < adj.len(),
            v != end,
            adj.len() <= i32::MAX,
            !old(visited)@.contains(v as i32),
            visited@ == old(visited)@.insert(v as i32),
            unmarked(visited@, adj.len() as int).len() + 1 == unmarked(
                old(visited)@,
                adj.len() as int,
            ).len(),
            marked(visited@) == banned,
            current_path@ == stack,
            paths@.len() >= before.len(),
            paths@.take(lo) == before,
            forall|i: int|
                lo <= i < paths@.len() ==> extends_to(
                    adj,
                    v as int,
                    end as int,
                    banned,
                    tail,
                    (#[trigger] paths@[i])@,
                ),
            forall|q: Seq<DirectedEdge>|
                #[trigger] is_leg(adj, q, v as int, end as int, banned) && q.len() > 0 && seen(
                    adj[v as int],
                    j as int,
                    q.last(),
                ) ==> listed(paths@, lo, q + tail),
        decreases n - j,
    {
        let e = *bag.item(j);
        assert(e == adj[v as int][j as int]);
        assert(e.v == v && 0 <= e.w < adj.len());
        assert(adj[v as int].contains(e));
        let w = e.w as usize;
        let ghost so_far = paths@;
        if !visited.contains(&e.w) {
            current_path.push(e);
            let ghost inner_banned = banned.insert(w as int);
            let ghost inner_tail = current_path@.reverse();
            dfs(graph, w, end, visited, current_path, paths);
            current_path.pop();
            proof {
                assert(current_path@ =~= stack);
                assert(inner_tail =~= seq![e] + tail);
                assert(paths@.take(lo) =~= before) by {
                    assert forall|i: int| 0 <= i < lo implies paths@.take(lo)[i] == before[i] by {
                        assert(paths@.take(so_far.len() as int)[i] == so_far[i]);
                        assert(so_far.take(lo)[i] == so_far[i]);
                    }
                }
                assert forall|i: int| lo <= i < paths@.len() implies extends_to(
                    adj,
                    v as int,
                    end as int,
                    banned,
                    tail,
                    (#[trigger] paths@[i])@,
                ) by {
                    if i < so_far.len() {
                        assert(paths@.take(so_far.len() as int)[i] == so_far[i]);
                    } else {
                        assert(extends_to(adj, w as int, end as int, inner_banned, inner_tail, paths@[i]@));
                        let q1 = choose|q1: Seq<DirectedEdge>| #[trigger]
                            is_leg(adj, q1, w as int, end as int, inner_banned) && paths@[i]@ == q1
                                + inner_tail;
                        lemma_leg_grows(adj, q1, e, end as int, banned, tail);
                        assert(is_leg(adj, q1.push(e), v as int, end as int, banned));
                    }
                }
                assert forall|q: Seq<DirectedEdge>| #[trigger]
                    is_leg(adj, q, v as int, end as int, banned) && q.len() > 0 && seen(
                        adj[v as int],
                        j + 1,
                        q.last(),
                    ) implies listed(paths@, lo, q + tail) by {
                    let k = choose|k: int| 0 <= k < j + 1 && #[trigger] adj[v as int][k] == q.last();
                    if k < j {
                        assert(seen(adj[v as int], j as int, q.last()));
                        lemma_listed_grows(so_far, paths@, lo, so_far.len() as int, q + tail);
                    } else {
                        lemma_leg_peels(adj, q, v as int, end as int, banned);
                        let q1 = q.drop_last();
                        assert(is_leg(adj, q1, w as int, end as int, inner_banned));
                        assert(listed(paths@, so_far.len() as int, q1 + inner_tail));
                        assert(q + tail =~= q1 + inner_tail);
                        lemma_listed_grows(so_far, paths@, lo, so_far.len() as int, q + tail);
                    }
                }
            }
        } else {
            proof {
                assert forall|q: Seq<DirectedEdge>| #[trigger]
                    is_leg(adj, q, v as int, end as int, banned) && q.len() > 0 && seen(
                        adj[v as int],
                        j + 1,
                        q.last(),
                    ) implies listed(paths@, lo, q + tail) by {
                    let k = choose|k: int| 0 <= k < j + 1 && #[trigger] adj[v as int][k] == q.last();
                    if k < j {
                        assert(seen(adj[v as int], j as int, q.last()));
                    } else {
                        lemma_leg_peels(adj, q, v as int, end as int, banned);
                        assert(banned.contains(w as int));
                    }
                }
            }
        }
        j = j + 1;
    }
    let was_in: bool = visited.remove(&(v as i32));
    proof {
        assert forall|q: Seq<DirectedEdge>| #[trigger]
            is_leg(adj, q, v as int, end as int, banned) implies listed(paths@, lo, q + tail) by {
            assert(q.len() > 0);
            lemma_leg_peels(adj, q, v as int, end as int, banned);
            let k = choose|k: int| 0 <= k < adj[v as int].len() && adj[v as int][k] == q.last();
            assert(adj[v as int][k] == q.last());
            assert(seen(adj[v as int], n as int, q.last()));
        }
    }
}

/// Every path from `from` to `to` that passes no vertex twice, each listed last edge
/// first, with the costs that the edges have now.
pub fn find_all_path(graph: &EdgeWeightedDigraph, from: i32, to: i32) -> (paths: Vec<
    Vec<DirectedEdge>,
>)
    requires
        graph.wf(),
        0 <= from < graph@.len(),
        0 <= to < graph@.len(),
    ensures
        forall|i: int|
            0 <= i < paths@.len() ==> is_simple_path(
                graph@,
                (#[trigger] paths@[i])@,
                from as int,
                to as int,
            ),
        forall|q: Seq<DirectedEdge>|
            #![trigger is_simple_path(graph@, q, from as int, to as int)]
            is_simple_path(graph@, q, from as int, to as int) ==> exists|i: int|
                0 <= i < paths@.len() && (#[trigger] paths@[i])@ == q,
{
    let n = graph.get_v_count();
    let mut visited: HashSet<i32> = HashSet::new();
    let mut current_path: Vec<DirectedEdge> = Vec::new();
    let mut paths: Vec<Vec<DirectedEdge>> = Vec::new();
    proof {
        assert(marked(visited@).insert(from as int) =~= set![from as int]);
        assert(current_path@.reverse() =~= Seq::<DirectedEdge>::empty());
    }
    dfs(graph, from as usize, to as usize, &mut visited, &mut current_path, &mut paths);
    proof {
        let empty = Seq::<DirectedEdge>::empty();
        let banned = set![from as int];
        assert forall|i: int| 0 <= i < paths@.len() implies is_simple_path(
            graph@,
            (#[trigger] paths@[i])@,
            from as int,
            to as int,
        ) by {
            assert(extends_to(graph@, from as int, to as int, banned, empty, paths@[i]@));
            let q = choose|q: Seq<DirectedEdge>| #[trigger]
                is_leg(graph@, q, from as int, to as int, banned) && paths@[i]@ == q + empty;
            assert(q + empty =~= q);
        }
        assert forall|q: Seq<DirectedEdge>|
            #![trigger is_simple_path(graph@, q, from as int, to as int)]
            is_simple_path(graph@, q, from as int, to as int) implies exists|i: int|
            0 <= i < paths@.len() && (#[trigger] paths@[i])@ == q by {
            assert(is_leg(graph@, q, from as int, to as int, banned));
            assert(q + empty =~= q);
            assert(listed(paths@, 0, q + empty));
        }
    }
    paths
}

} // verus!
