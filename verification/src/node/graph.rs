//! Graph topology: node storage, directed port-to-port links kept in a
//! forward and a reverse index, the designated output node, topological
//! ordering with cycle detection, and dirtiness propagation.

use crate::node::node::Node;
use crate::util::{BSMap, ExactEq, SingleValue, TotalOrdered, ValueSet};
use vstd::prelude::*;

verus! {

/// A reference to a node in a graph.
#[derive(Debug, Clone, Copy, PartialEq, Eq, Hash, Structural)]
pub struct NodeRef(pub(crate) u64);

impl NodeRef {
    /// The underlying id.
    pub closed spec fn id(self) -> u64 {
        self.0
    }
}

impl TotalOrdered for NodeRef {
    closed spec fn le_spec(self, other: Self) -> bool {
        self.0 <= other.0
    }

    proof fn lemma_le_total(a: Self, b: Self) {
    }

    proof fn lemma_le_antisymmetric(a: Self, b: Self) {
    }

    proof fn lemma_le_transitive(a: Self, b: Self, c: Self) {
    }

    fn le(&self, other: &Self) -> (r: bool) {
        self.0 <= other.0
    }
}

/// Link metadata: which output port feeds which input port.
#[derive(Debug, Clone, Copy, PartialEq, Eq, Hash, Structural)]
pub struct Link {
    pub out_prop: usize,
    pub in_prop: usize,
}

impl ExactEq for Link {
    fn exact_eq(&self, other: &Self) -> (r: bool) {
        self.out_prop == other.out_prop && self.in_prop == other.in_prop
    }
}

/// A key for the link map, sorted by `to_in` first and `from_out` second.
#[derive(Debug, Clone, Copy, PartialEq, Eq, Hash, Structural)]
pub struct LinkKey {
    pub from_out: NodeRef,
    pub to_in: NodeRef,
}

impl LinkKey {
    /// Swapped `to_in` and `from_out`, at the specification level.
    pub open spec fn swap_spec(self) -> LinkKey {
        LinkKey { from_out: self.to_in, to_in: self.from_out }
    }

    /// Swaps `to_in` and `from_out` for the reverse link map.
    #[verifier::when_used_as_spec(swap_spec)]
    pub fn swap(self) -> (r: LinkKey)
        ensures
            r == self.swap_spec(),
    {
        LinkKey { from_out: self.to_in, to_in: self.from_out }
    }
}

impl TotalOrdered for LinkKey {
    closed spec fn le_spec(self, other: Self) -> bool {
        self.to_in.id() < other.to_in.id() || (self.to_in.id() == other.to_in.id()
            && self.from_out.id() <= other.from_out.id())
    }

    proof fn lemma_le_total(a: Self, b: Self) {
    }

    proof fn lemma_le_antisymmetric(a: Self, b: Self) {
    }

    proof fn lemma_le_transitive(a: Self, b: Self, c: Self) {
    }

    fn le(&self, other: &Self) -> (r: bool) {
        self.to_in.0 < other.to_in.0 || (self.to_in.0 == other.to_in.0 && self.from_out.0
            <= other.from_out.0)
    }
}

/// Contains links, indexed in both directions.
pub struct Links {
    fwd: BSMap<LinkKey, Link, ValueSet>,
    rev: BSMap<LinkKey, (), SingleValue>,
}

impl Links {
    /// The forward index: an entry per link, keyed by destination.
    pub closed spec fn fwd_view(self) -> Seq<(LinkKey, Link)> {
        self.fwd@
    }

    /// The reverse index: an entry per linked node pair, keyed by source.
    pub closed spec fn rev_view(self) -> Seq<(LinkKey, ())> {
        self.rev@
    }

    /// The forward entries, one per link, in key order.
    pub fn iter(&self) -> (r: &Vec<(LinkKey, Link)>)
        ensures
            r@ == self.fwd_view(),
    {
        self.fwd.iter()
    }

    /// The number of links.
    pub fn len(&self) -> (r: usize)
        ensures
            r == self.fwd_view().len(),
    {
        self.fwd.len()
    }

    /// The number of entries in the reverse index: linked node pairs.
    pub fn node_pair_count(&self) -> (r: usize)
        ensures
            r == self.rev_view().len(),
    {
        self.rev.len()
    }

    /// Whether this exact link is present.
    pub open spec fn has_link(self, from_out: NodeRef, to_in: NodeRef, link: Link) -> bool {
        self.fwd_view().contains(((LinkKey { from_out, to_in }), link))
    }

    /// Whether some link goes from `from_out` to `to_in`.
    pub open spec fn has_edge(self, from_out: NodeRef, to_in: NodeRef) -> bool {
        exists|link: Link| self.has_link(from_out, to_in, link)
    }

    /// Some forward entry has this key.
    pub open spec fn fwd_has_key(self, k: LinkKey) -> bool {
        exists|i: int| 0 <= i < self.fwd_view().len() && (#[trigger] self.fwd_view()[i]).0 == k
    }

    /// Some reverse entry has this key.
    pub open spec fn rev_has_key(self, k: LinkKey) -> bool {
        exists|i: int| 0 <= i < self.rev_view().len() && (#[trigger] self.rev_view()[i]).0 == k
    }

    /// Both indices are sorted and agree in membership.
    pub open spec fn wf(self) -> bool {
        &&& crate::util::entries_sorted(self.fwd_view())
        &&& crate::util::entries_distinct(self.fwd_view())
        &&& crate::util::entries_sorted(self.rev_view())
        &&& crate::util::keys_distinct(self.rev_view())
        &&& forall|i: int|
            0 <= i < self.fwd_view().len() ==> self.rev_has_key(
                (#[trigger] self.fwd_view()[i]).0.swap_spec(),
            )
        &&& forall|i: int|
            0 <= i < self.rev_view().len() ==> self.fwd_has_key(
                (#[trigger] self.rev_view()[i]).0.swap_spec(),
            )
    }

    pub fn new() -> (r: Links)
        ensures
            r.wf(),
            r.fwd_view() =~= Seq::<(LinkKey, Link)>::empty(),
            r.rev_view() =~= Seq::<(LinkKey, ())>::empty(),
    {
        Links { fwd: BSMap::new(), rev: BSMap::new() }
    }

    /// Returns all inputs to a node: one entry per link that ends at an input
    /// port of that node, as (source node, link).
    pub fn get_ins(&self, key: NodeRef) -> (r: Vec<(NodeRef, Link)>)
        requires
            self.wf(),
        ensures
            forall|i: int|
                0 <= i < r@.len() ==> self.has_link((#[trigger] r@[i]).0, key, r@[i].1),
            forall|n: NodeRef, l: Link| self.has_link(n, key, l) ==> r@.contains((n, l)),
            crate::util::entries_distinct(r@),
    {
        let lo = LinkKey { from_out: NodeRef(0), to_in: key };
        let hi = LinkKey { from_out: NodeRef(u64::MAX), to_in: key };
        let band = self.fwd.range_by(&lo, &hi);
        let ghost fv = self.fwd_view();
        proof {
            let (a, b) = choose|a: int, b: int|
                {
                    &&& 0 <= a <= b <= fv.len()
                    &&& band@ == fv.subrange(a, b)
                    &&& forall|i: int| 0 <= i < a ==> !lo.le_spec((#[trigger] fv[i]).0)
                    &&& forall|i: int|
                        a <= i < b ==> lo.le_spec((#[trigger] fv[i]).0) && fv[i].0.le_spec(hi)
                    &&& forall|i: int| b <= i < fv.len() ==> !(#[trigger] fv[i]).0.le_spec(hi)
                };
            assert forall|i: int| 0 <= i < band@.len() implies fv.contains(#[trigger] band@[i])
                && band@[i].0.to_in == key by {
                assert(band@[i] == fv[a + i]);
            }
            assert forall|i: int|
                0 <= i < fv.len() && (#[trigger] fv[i]).0.to_in == key implies band@.contains(
                fv[i],
            ) by {
                assert(a <= i < b);
                assert(fv[i] == band@[i - a]);
            }
            assert forall|i: int, j: int| 0 <= i < j < band@.len() implies #[trigger] band@[i]
                != #[trigger] band@[j] by {
                assert(band@[i] == fv[a + i]);
                assert(band@[j] == fv[a + j]);
            }
        }
        let mut r: Vec<(NodeRef, Link)> = Vec::new();
        let mut j: usize = 0;
        while j < band.len()
            invariant
                j <= band@.len(),
                r@.len() == j,
                forall|i: int|
                    0 <= i < j ==> #[trigger] r@[i] == ((#[trigger] band@[i]).0.from_out,
                    band@[i].1),
                forall|i: int|
                    0 <= i < band@.len() ==> fv.contains(#[trigger] band@[i]) && band@[i].0.to_in
                        == key,
                crate::util::entries_distinct(band@),
                fv == self.fwd_view(),
            decreases band@.len() - j,
        {
            let (k, l) = band[j];
            r.push((k.from_out, l));
            j += 1;
        }
        proof {
            assert forall|i: int| 0 <= i < r@.len() implies self.has_link(
                (#[trigger] r@[i]).0,
                key,
                r@[i].1,
            ) by {
                assert(r@[i] == (band@[i].0.from_out, band@[i].1));
                assert(band@[i].0 == (LinkKey { from_out: band@[i].0.from_out, to_in: key }));
            }
            assert forall|n: NodeRef, l: Link| self.has_link(n, key, l) implies r@.contains(
                (n, l),
            ) by {
                let e = ((LinkKey { from_out: n, to_in: key }), l);
                let i = choose|i: int| 0 <= i < fv.len() && fv[i] == e;
                assert(band@.contains(fv[i]));
                let t = choose|t: int| 0 <= t < band@.len() && band@[t] == e;
                assert(r@[t] == (n, l));
            }
            assert forall|i: int, j2: int| 0 <= i < j2 < r@.len() implies #[trigger] r@[i]
                != #[trigger] r@[j2] by {
                assert(r@[i] == (band@[i].0.from_out, band@[i].1));
                assert(r@[j2] == (band@[j2].0.from_out, band@[j2].1));
                assert(band@[i].0.to_in == key && band@[j2].0.to_in == key);
                if r@[i] == r@[j2] {
                    assert(band@[i].0 == band@[j2].0);
                    assert(band@[i] == band@[j2]);
                }
            }
        }
        r
    }

    /// Returns all outputs from a node: one entry per link that starts at an
    /// output port of that node, as (destination node, link).
    pub fn get_outs(&self, key: NodeRef) -> (r: Vec<(NodeRef, Link)>)
        requires
            self.wf(),
        ensures
            forall|i: int|
                0 <= i < r@.len() ==> self.has_link(key, (#[trigger] r@[i]).0, r@[i].1),
            forall|n: NodeRef, l: Link| self.has_link(key, n, l) ==> r@.contains((n, l)),
            crate::util::entries_distinct(r@),
    {
        let lo = LinkKey { from_out: NodeRef(0), to_in: key };
        let hi = LinkKey { from_out: NodeRef(u64::MAX), to_in: key };
        let rband = self.rev.range_by(&lo, &hi);
        let ghost rv = self.rev_view();
        let ghost fv = self.fwd_view();
        proof {
            let (a, b) = choose|a: int, b: int|
                {
                    &&& 0 <= a <= b <= rv.len()
                    &&& rband@ == rv.subrange(a, b)
                    &&& forall|i: int| 0 <= i < a ==> !lo.le_spec((#[trigger] rv[i]).0)
                    &&& forall|i: int|
                        a <= i < b ==> lo.le_spec((#[trigger] rv[i]).0) && rv[i].0.le_spec(hi)
                    &&& forall|i: int| b <= i < rv.len() ==> !(#[trigger] rv[i]).0.le_spec(hi)
                };
            assert forall|i: int| 0 <= i < rband@.len() implies rv.contains(#[trigger] rband@[i])
                && rband@[i].0.to_in == key by {
                assert(rband@[i] == rv[a + i]);
            }
            assert forall|i: int|
                0 <= i < rv.len() && (#[trigger] rv[i]).0.to_in == key implies rband@.contains(
                rv[i],
            ) by {
                assert(a <= i < b);
                assert(rv[i] == rband@[i - a]);
            }
            assert forall|i: int, j: int| 0 <= i < j < rband@.len() implies (
            #[trigger] rband@[i]).0 != (#[trigger] rband@[j]).0 by {
                assert(rband@[i] == rv[a + i]);
                assert(rband@[j] == rv[a + j]);
            }
        }
        let mut r: Vec<(NodeRef, Link)> = Vec::new();
        let mut j: usize = 0;
        while j < rband.len()
            invariant
                j <= rband@.len(),
                self.wf(),
                rv == self.rev_view(),
                fv == self.fwd_view(),
                forall|i: int|
                    0 <= i < rband@.len() ==> rv.contains(#[trigger] rband@[i]) && rband@[i].0.to_in
                        == key,
                forall|i: int, t: int|
                    0 <= i < t < rband@.len() ==> (#[trigger] rband@[i]).0 != (
                    #[trigger] rband@[t]).0,
                // everything gathered so far is a link out of `key`, found
                // under one of the processed reverse keys
                forall|i: int|
                    0 <= i < r@.len() ==> self.has_link(key, (#[trigger] r@[i]).0, r@[i].1) && (
                    exists|t: int| 0 <= t < j && (#[trigger] rband@[t]).0.from_out == r@[i].0),
                // every link under a processed reverse key has been gathered
                forall|t: int, x: int|
                    #![trigger rband@[t], fv[x]]
                    0 <= t < j && 0 <= x < fv.len() && fv[x].0 == rband@[t].0.swap_spec()
                        ==> r@.contains(((rband@[t].0.from_out), fv[x].1)),
                crate::util::entries_distinct(r@),
            decreases rband@.len() - j,
        {
            let rk = rband[j].0;
            let fkey = rk.swap();
            let fband = self.fwd.range(fkey);
            let ghost r0 = r@;
            let mut t: usize = 0;
            while t < fband.len()
                invariant
                    t <= fband@.len(),
                    j < rband@.len(),
                    self.wf(),
                    fv == self.fwd_view(),
                    rk == rband@[j as int].0,
                    rk.to_in == key,
                    fkey == rk.swap_spec(),
                    forall|i: int|
                        0 <= i < fband@.len() ==> fv.contains(#[trigger] fband@[i]) && fband@[i].0
                            == fkey,
                    forall|i: int|
                        0 <= i < fv.len() && (#[trigger] fv[i]).0 == fkey ==> fband@.contains(
                            fv[i],
                        ),
                    crate::util::entries_distinct(fband@),
                    r@.len() == r0.len() + t,
                    forall|i: int| 0 <= i < r0.len() ==> #[trigger] r@[i] == r0[i],
                    forall|i: int|
                        0 <= i < t ==> #[trigger] r@[r0.len() + i] == ((rk.from_out), fband@[i].1),
                decreases fband@.len() - t,
            {
                r.push((rk.from_out, fband[t].1));
                t += 1;
            }
            proof {
                // each new entry is a link out of `key`, found under this
                // round's reverse key
                assert forall|i: int| 0 <= i < r@.len() implies self.has_link(
                    key,
                    (#[trigger] r@[i]).0,
                    r@[i].1,
                ) && (exists|t2: int|
                    0 <= t2 < j + 1 && (#[trigger] rband@[t2]).0.from_out == r@[i].0) by {
                    if i < r0.len() {
                        assert(r@[i] == r0[i]);
                    } else {
                        let i2 = i - r0.len();
                        assert(r@[r0.len() + i2] == ((rk.from_out), fband@[i2].1));
                        let e = fband@[i2];
                        assert(fv.contains(e) && e.0 == fkey);
                        assert(e == ((e.0), e.1));
                        assert(fkey == (LinkKey { from_out: key, to_in: rk.from_out }));
                        assert(fv.contains(((LinkKey { from_out: key, to_in: rk.from_out }), e.1)));
                        assert(self.has_link(key, rk.from_out, e.1));
                        assert(rband@[j as int].0.from_out == r@[i].0);
                    }
                }
                assert forall|t2: int, x: int|
                    #![trigger rband@[t2], fv[x]]
                    0 <= t2 < j + 1 && 0 <= x < fv.len() && fv[x].0 == rband@[t2].0.swap_spec()
                        implies r@.contains(((rband@[t2].0.from_out), fv[x].1)) by {
                    if t2 < j {
                        assert(r0.contains(((rband@[t2].0.from_out), fv[x].1)));
                        let w = choose|w: int|
                            0 <= w < r0.len() && r0[w] == ((rband@[t2].0.from_out), fv[x].1);
                        assert(r@[w] == r0[w]);
                    } else {
                        assert(fv[x].0 == fkey);
                        assert(fband@.contains(fv[x]));
                        let t3 = choose|t3: int| 0 <= t3 < fband@.len() && fband@[t3] == fv[x];
                        assert(r@[r0.len() + t3] == ((rk.from_out), fband@[t3].1));
                        assert(r@[r0.len() + t3] == ((rband@[t2].0.from_out), fv[x].1));
                    }
                }
                assert forall|p: int, q: int| 0 <= p < q < r@.len() implies #[trigger] r@[p]
                    != #[trigger] r@[q] by {
                    if p < r0.len() && q >= r0.len() {
                        assert(r@[p] == r0[p]);
                        let t1 = choose|t1: int|
                            0 <= t1 < j && (#[trigger] rband@[t1]).0.from_out == r0[p].0;
                        let q2 = q - r0.len();
                        assert(r@[r0.len() + q2] == ((rk.from_out), fband@[q2].1));
                        if r@[p] == r@[q] {
                            assert(rband@[t1].0.to_in == key);
                            assert(rband@[t1].0.from_out == rk.from_out);
                            assert(rband@[t1].0 == rband@[j as int].0);
                            assert(false);
                        }
                    }
                    if p >= r0.len() && q >= r0.len() {
                        let p2 = p - r0.len();
                        let q2 = q - r0.len();
                        assert(r@[r0.len() + p2] == ((rk.from_out), fband@[p2].1));
                        assert(r@[r0.len() + q2] == ((rk.from_out), fband@[q2].1));
                        let e1 = fband@[p2];
                        let e2 = fband@[q2];
                        assert(e1 != e2);
                        assert(e1.0 == fkey && e2.0 == fkey);
                    }
                }
            }
            j += 1;
        }
        proof {
            assert forall|n: NodeRef, l: Link| self.has_link(key, n, l) implies r@.contains(
                (n, l),
            ) by {
                let e = ((LinkKey { from_out: key, to_in: n }), l);
                let x = choose|x: int| 0 <= x < fv.len() && fv[x] == e;
                // membership agreement puts the swapped key in the reverse
                // index
                assert(self.rev_has_key(fv[x].0.swap_spec()));
                let t = choose|t: int|
                    0 <= t < rv.len() && (#[trigger] rv[t]).0 == fv[x].0.swap_spec();
                assert(rv[t].0.to_in == key);
                assert(rband@.contains(rv[t]));
                let t2 = choose|t2: int| 0 <= t2 < rband@.len() && rband@[t2] == rv[t];
                assert(fv[x].0 == rband@[t2].0.swap_spec());
                assert(r@.contains(((rband@[t2].0.from_out), fv[x].1)));
                assert(rband@[t2].0.from_out == n && fv[x].1 == l);
            }
        }
        r
    }

    /// Inserts a link; inserting an identical link again is a no-op.
    pub fn insert(&mut self, from_out: NodeRef, to_in: NodeRef, link: Link)
        requires
            old(self).wf(),
        ensures
            final(self).wf(),
            final(self).has_link(from_out, to_in, link),
            forall|f: NodeRef, t: NodeRef, l: Link|
                final(self).has_link(f, t, l) <==> (old(self).has_link(f, t, l) || (f == from_out
                    && t == to_in && l == link)),
            old(self).has_link(from_out, to_in, link) ==> final(self).fwd_view() == old(
                self,
            ).fwd_view() && final(self).rev_view() == old(self).rev_view(),
    {
        let key = LinkKey { from_out, to_in };
        let ghost f0 = self.fwd_view();
        let ghost r0 = self.rev_view();
        if self.fwd.contains_entry(&key, &link) {
            // set semantics: an identical link changes nothing, in either
            // index
            proof {
                assert forall|f: NodeRef, t: NodeRef, l: Link|
                    self.has_link(f, t, l) <==> (self.has_link(f, t, l) || (f == from_out && t
                        == to_in && l == link)) by {
                    if f == from_out && t == to_in && l == link {
                        assert(self.has_link(f, t, l));
                    }
                }
            }
            return;
        }
        self.fwd.insert_value(key, link);
        self.rev.insert(key.swap(), ());
        proof {
            let f1 = self.fwd_view();
            let r1 = self.rev_view();
            assert forall|f: NodeRef, t: NodeRef, l: Link|
                self.has_link(f, t, l) <==> (old(self).has_link(f, t, l) || (f == from_out && t
                    == to_in && l == link)) by {
                let k2 = LinkKey { from_out: f, to_in: t };
                assert(f1.contains((k2, l)) <==> (f0.contains((k2, l)) || (k2, l) == (
                    key,
                    link,
                )));
            }
            // membership agreement: forward entries have their swapped key in
            // the reverse index
            assert forall|i: int| 0 <= i < f1.len() implies self.rev_has_key(
                (#[trigger] f1[i]).0.swap_spec(),
            ) by {
                assert(f1.contains(f1[i]));
                let k2 = f1[i].0;
                if f1[i] == (key, link) {
                    assert(self.rev.spec_contains_key(key.swap_spec()));
                    let u = choose|u: int|
                        0 <= u < self.rev@.len() && (#[trigger] self.rev@[u]).0 == key.swap_spec();
                    assert(r1[u].0 == k2.swap_spec());
                } else {
                    assert(f0.contains(f1[i]));
                    let w = choose|w: int| 0 <= w < f0.len() && #[trigger] f0[w] == f1[i];
                    assert(old(self).rev_has_key(f0[w].0.swap_spec()));
                    let u0 = choose|u0: int|
                        0 <= u0 < r0.len() && (#[trigger] r0[u0]).0 == k2.swap_spec();
                    assert(old(self).rev.spec_contains_key(k2.swap_spec())) by {
                        assert(old(self).rev@[u0].0 == k2.swap_spec());
                    }
                    assert(self.rev.spec_contains_key(k2.swap_spec()));
                    let u = choose|u: int|
                        0 <= u < self.rev@.len() && (#[trigger] self.rev@[u]).0 == k2.swap_spec();
                    assert(r1[u].0 == k2.swap_spec());
                }
            }
            // and reverse entries have their swapped key in the forward index
            assert forall|i: int| 0 <= i < r1.len() implies self.fwd_has_key(
                (#[trigger] r1[i]).0.swap_spec(),
            ) by {
                let k2 = r1[i].0;
                assert(self.rev.spec_contains_key(k2)) by {
                    assert(self.rev@[i].0 == k2);
                }
                if k2 == key.swap_spec() {
                    assert(k2.swap_spec() == key);
                    assert(f1.contains((key, link)));
                    let w = choose|w: int| 0 <= w < f1.len() && #[trigger] f1[w] == (key, link);
                    assert(f1[w].0 == k2.swap_spec());
                } else {
                    assert(old(self).rev.spec_contains_key(k2));
                    let u0 = choose|u0: int|
                        0 <= u0 < old(self).rev@.len() && (#[trigger] old(self).rev@[u0]).0 == k2;
                    assert(old(self).rev_has_key(k2)) by {
                        assert(r0[u0].0 == k2);
                    }
                    assert(old(self).fwd_has_key(k2.swap_spec()));
                    let w0 = choose|w0: int|
                        0 <= w0 < f0.len() && (#[trigger] f0[w0]).0 == k2.swap_spec();
                    assert(f1.contains(f0[w0]));
                    let w = choose|w: int| 0 <= w < f1.len() && #[trigger] f1[w] == f0[w0];
                    assert(f1[w].0 == k2.swap_spec());
                }
            }
        }
    }

    /// Removes a link if it exists. Returns true if a link was removed.
    pub fn remove(&mut self, from_out: NodeRef, to_in: NodeRef, link: Link) -> (r: bool)
        requires
            old(self).wf(),
        ensures
            final(self).wf(),
            r == old(self).has_link(from_out, to_in, link),
            forall|f: NodeRef, t: NodeRef, l: Link|
                final(self).has_link(f, t, l) <==> (old(self).has_link(f, t, l) && !(f == from_out
                    && t == to_in && l == link)),
    {
        let key = LinkKey { from_out, to_in };
        let ghost f0 = self.fwd_view();
        let ghost r0 = self.rev_view();
        match self.fwd.remove_value(&key, &link) {
            Some(_) => {
                let ghost f1 = self.fwd_view();
                proof {
                    assert(f0.contains((key, link)));
                    assert forall|f: NodeRef, t: NodeRef, l: Link|
                        self.has_link(f, t, l) <==> (old(self).has_link(f, t, l) && !(f == from_out
                            && t == to_in && l == link)) by {
                        let k2 = LinkKey { from_out: f, to_in: t };
                        assert(f1.contains((k2, l)) <==> (f0.contains((k2, l)) && (k2, l) != (
                            key,
                            link,
                        )));
                    }
                }
                if !self.fwd.contains_key(&key) {
                    // no more links with that key exist; remove from reverse
                    // table
                    let ghost fsnap = self.fwd_view();
                    self.rev.remove(&key.swap());
                    proof {
                        let r1 = self.rev_view();
                        assert forall|i: int| 0 <= i < self.fwd_view().len() implies
                            self.rev_has_key((#[trigger] self.fwd_view()[i]).0.swap_spec()) by {
                            let k2 = self.fwd_view()[i].0;
                            assert(self.fwd_view().contains(self.fwd_view()[i]));
                            assert(f0.contains(self.fwd_view()[i]));
                            let w = choose|w: int|
                                0 <= w < f0.len() && #[trigger] f0[w] == self.fwd_view()[i];
                            assert(old(self).rev_has_key(k2.swap_spec()));
                            let u0 = choose|u0: int|
                                0 <= u0 < r0.len() && (#[trigger] r0[u0]).0 == k2.swap_spec();
                            assert(old(self).rev.spec_contains_key(k2.swap_spec())) by {
                                assert(old(self).rev@[u0].0 == k2.swap_spec());
                            }
                            assert(k2 != key);
                            assert(k2.swap_spec() != key.swap_spec());
                            assert(self.rev.spec_contains_key(k2.swap_spec()));
                            let u = choose|u: int|
                                0 <= u < self.rev@.len() && (#[trigger] self.rev@[u]).0
                                    == k2.swap_spec();
                            assert(self.rev_view()[u].0 == k2.swap_spec());
                        }
                        assert forall|i: int| 0 <= i < r1.len() implies self.fwd_has_key(
                            (#[trigger] r1[i]).0.swap_spec(),
                        ) by {
                            let k2 = r1[i].0;
                            assert(self.rev.spec_contains_key(k2)) by {
                                assert(self.rev@[i].0 == k2);
                            }
                            assert(old(self).rev.spec_contains_key(k2) && k2 != key.swap_spec());
                            let u0 = choose|u0: int|
                                0 <= u0 < old(self).rev@.len() && (#[trigger] old(
                                    self,
                                ).rev@[u0]).0 == k2;
                            assert(old(self).rev_has_key(k2)) by {
                                assert(r0[u0].0 == k2);
                            }
                            assert(old(self).fwd_has_key(k2.swap_spec()));
                            let w0 = choose|w0: int|
                                0 <= w0 < f0.len() && (#[trigger] f0[w0]).0 == k2.swap_spec();
                            assert(f0[w0] == ((f0[w0].0), f0[w0].1));
                            assert(k2.swap_spec() != key);
                            assert(f0[w0] != (key, link));
                            assert(self.fwd_view().contains(f0[w0]));
                            let w = choose|w: int|
                                0 <= w < self.fwd_view().len() && #[trigger] self.fwd_view()[w]
                                    == f0[w0];
                        }
                    }
                } else {
                    proof {
                        let r1 = self.rev_view();
                        assert(r1 == r0);
                        assert forall|i: int| 0 <= i < self.fwd_view().len() implies
                            self.rev_has_key((#[trigger] self.fwd_view()[i]).0.swap_spec()) by {
                            assert(self.fwd_view().contains(self.fwd_view()[i]));
                            assert(f0.contains(self.fwd_view()[i]));
                            let w = choose|w: int|
                                0 <= w < f0.len() && #[trigger] f0[w] == self.fwd_view()[i];
                            assert(old(self).rev_has_key(f0[w].0.swap_spec()));
                        }
                        assert forall|i: int| 0 <= i < r1.len() implies self.fwd_has_key(
                            (#[trigger] r1[i]).0.swap_spec(),
                        ) by {
                            let k2 = r1[i].0;
                            assert(old(self).rev_has_key(k2)) by {
                                assert(r0[i].0 == k2);
                            }
                            assert(old(self).fwd_has_key(k2.swap_spec()));
                            let w0 = choose|w0: int|
                                0 <= w0 < f0.len() && (#[trigger] f0[w0]).0 == k2.swap_spec();
                            if k2.swap_spec() == key {
                                // other links with this key survive; the
                                // executable check saw one
                                let w = choose|w: int|
                                    0 <= w < self.fwd@.len() && (#[trigger] self.fwd@[w]).0 == key;
                                assert(self.fwd_view()[w].0 == k2.swap_spec());
                            } else {
                                assert(f0[w0] == ((f0[w0].0), f0[w0].1));
                                assert(f0[w0] != (key, link));
                                assert(self.fwd_view().contains(f0[w0]));
                                let w = choose|w: int|
                                    0 <= w < self.fwd_view().len() && #[trigger] self.fwd_view()[w]
                                        == f0[w0];
                            }
                        }
                    }
                }
                true
            }
            None => {
                proof {
                    assert(!f0.contains((key, link)));
                    assert forall|f: NodeRef, t: NodeRef, l: Link|
                        self.has_link(f, t, l) <==> (old(self).has_link(f, t, l) && !(f == from_out
                            && t == to_in && l == link)) by {
                        let k2 = LinkKey { from_out: f, to_in: t };
                        if (k2, l) == (key, link) {
                            assert(!self.fwd_view().contains((k2, l)));
                        }
                    }
                }
                false
            }
        }
    }

    /// Removes all links to and from a node, in both indices.
    pub fn remove_node(&mut self, node: NodeRef)
        requires
            old(self).wf(),
        ensures
            final(self).wf(),
            forall|f: NodeRef, t: NodeRef, l: Link|
                final(self).has_link(f, t, l) <==> (old(self).has_link(f, t, l) && f != node && t
                    != node),
    {
        // all links to the node
        let ins = self.get_ins(node);
        let ghost processed = Seq::<(NodeRef, Link)>::empty();
        let mut j: usize = 0;
        while j < ins.len()
            invariant
                j <= ins@.len(),
                self.wf(),
                forall|i: int|
                    0 <= i < ins@.len() ==> old(self).has_link((#[trigger] ins@[i]).0, node,
                    ins@[i].1),
                forall|n: NodeRef, l: Link| old(self).has_link(n, node, l) ==> ins@.contains((n, l)),
                forall|f: NodeRef, t: NodeRef, l: Link|
                    self.has_link(f, t, l) <==> (old(self).has_link(f, t, l) && !(exists|i: int|
                        0 <= i < j && #[trigger] ins@[i] == (f, l) && t == node)),
            decreases ins@.len() - j,
        {
            let (n, l) = ins[j];
            self.remove(n, node, l);
            proof {
                assert forall|f: NodeRef, t: NodeRef, l2: Link|
                    self.has_link(f, t, l2) <==> (old(self).has_link(f, t, l2) && !(exists|i: int|
                        0 <= i < j + 1 && #[trigger] ins@[i] == (f, l2) && t == node)) by {
                    if exists|i: int| 0 <= i < j + 1 && #[trigger] ins@[i] == (f, l2) && t == node {
                        let i = choose|i: int|
                            0 <= i < j + 1 && #[trigger] ins@[i] == (f, l2) && t == node;
                        if i < j {
                            assert(!self.has_link(f, t, l2));
                        } else {
                            assert((f, l2) == (n, l));
                        }
                    }
                }
            }
            j += 1;
        }
        proof {
            assert forall|f: NodeRef, t: NodeRef, l: Link|
                self.has_link(f, t, l) <==> (old(self).has_link(f, t, l) && !(t == node)) by {
                if old(self).has_link(f, t, l) && t == node {
                    assert(ins@.contains((f, l)));
                    let i = choose|i: int| 0 <= i < ins@.len() && ins@[i] == (f, l);
                }
            }
        }
        let ghost mid = *self;
        // all links from the node
        let outs = self.get_outs(node);
        let mut j2: usize = 0;
        while j2 < outs.len()
            invariant
                j2 <= outs@.len(),
                self.wf(),
                forall|i: int|
                    0 <= i < outs@.len() ==> mid.has_link(node, (#[trigger] outs@[i]).0,
                    outs@[i].1),
                forall|n: NodeRef, l: Link| mid.has_link(node, n, l) ==> outs@.contains((n, l)),
                forall|f: NodeRef, t: NodeRef, l: Link|
                    self.has_link(f, t, l) <==> (mid.has_link(f, t, l) && !(exists|i: int|
                        0 <= i < j2 && #[trigger] outs@[i] == (t, l) && f == node)),
            decreases outs@.len() - j2,
        {
            let (n, l) = outs[j2];
            self.remove(node, n, l);
            proof {
                assert forall|f: NodeRef, t: NodeRef, l2: Link|
                    self.has_link(f, t, l2) <==> (mid.has_link(f, t, l2) && !(exists|i: int|
                        0 <= i < j2 + 1 && #[trigger] outs@[i] == (t, l2) && f == node)) by {
                    if exists|i: int|
                        0 <= i < j2 + 1 && #[trigger] outs@[i] == (t, l2) && f == node {
                        let i = choose|i: int|
                            0 <= i < j2 + 1 && #[trigger] outs@[i] == (t, l2) && f == node;
                        if i < j2 {
                            assert(!self.has_link(f, t, l2));
                        } else {
                            assert((t, l2) == (n, l));
                        }
                    }
                }
            }
            j2 += 1;
        }
        proof {
            assert forall|f: NodeRef, t: NodeRef, l: Link|
                self.has_link(f, t, l) <==> (old(self).has_link(f, t, l) && f != node && t
                    != node) by {
                if mid.has_link(f, t, l) && f == node {
                    assert(outs@.contains((t, l)));
                    let i = choose|i: int| 0 <= i < outs@.len() && outs@[i] == (t, l);
                }
            }
        }
    }

}

impl Links {
    /// What one link becomes under a property remap: both of its ports are
    /// looked up when their node takes part, and the link is dropped when a
    /// mapping entry is missing.
    pub open spec fn remap_link_spec(
        nodes: Seq<NodeRef>,
        mapping: Seq<(usize, usize)>,
        k: LinkKey,
        l: Link,
    ) -> Option<Link> {
        let out_ok = !nodes.contains(k.from_out) || exists|i: int|
            0 <= i < mapping.len() && (#[trigger] mapping[i]).0 == l.out_prop;
        let in_ok = !nodes.contains(k.to_in) || exists|i: int|
            0 <= i < mapping.len() && (#[trigger] mapping[i]).0 == l.in_prop;
        if out_ok && in_ok {
            Some(
                Link {
                    out_prop: if nodes.contains(k.from_out) {
                        mapping[choose|i: int|
                            0 <= i < mapping.len() && (#[trigger] mapping[i]).0 == l.out_prop].1
                    } else {
                        l.out_prop
                    },
                    in_prop: if nodes.contains(k.to_in) {
                        mapping[choose|i: int|
                            0 <= i < mapping.len() && (#[trigger] mapping[i]).0 == l.in_prop].1
                    } else {
                        l.in_prop
                    },
                },
            )
        } else {
            None
        }
    }

    /// Remaps node properties of the links touching the given nodes. Returns
    /// true if some links were dropped for want of a mapping entry.
    pub fn remap_with_mapping(
        &mut self,
        nodes: &Vec<NodeRef>,
        mapping: &BSMap<usize, usize>,
    ) -> (r: bool)
        requires
            old(self).wf(),
            mapping.well_formed(),
        ensures
            final(self).wf(),
            forall|f: NodeRef, t: NodeRef, l2: Link|
                #[trigger] final(self).has_link(f, t, l2) ==> exists|l1: Link|
                    #[trigger] old(self).has_link(f, t, l1) && Links::remap_link_spec(
                        nodes@,
                        mapping@,
                        (LinkKey { from_out: f, to_in: t }),
                        l1,
                    ) == Some(l2),
            forall|f: NodeRef, t: NodeRef, l1: Link|
                #[trigger] old(self).has_link(f, t, l1) ==> match Links::remap_link_spec(
                    nodes@,
                    mapping@,
                    (LinkKey { from_out: f, to_in: t }),
                    l1,
                ) {
                    Some(l2) => final(self).has_link(f, t, l2),
                    None => true,
                },
            r == exists|i: int|
                0 <= i < old(self).fwd_view().len() && Links::remap_link_spec(
                    nodes@,
                    mapping@,
                    (#[trigger] old(self).fwd_view()[i]).0,
                    old(self).fwd_view()[i].1,
                ) is None,
    {
        let entries = copy_link_entries(self.fwd.iter());
        let mut fresh = Links::new();
        let mut dropped = false;
        let mut j: usize = 0;
        while j < entries.len()
            invariant
                j <= entries@.len(),
                entries@ == old(self).fwd_view(),
                old(self).wf(),
                mapping.well_formed(),
                fresh.wf(),
                forall|f: NodeRef, t: NodeRef, l2: Link|
                    #[trigger] fresh.has_link(f, t, l2) ==> exists|w: int|
                        0 <= w < j && (#[trigger] entries@[w]).0 == (LinkKey {
                            from_out: f,
                            to_in: t,
                        }) && Links::remap_link_spec(
                            nodes@,
                            mapping@,
                            entries@[w].0,
                            entries@[w].1,
                        ) == Some(l2),
                forall|w: int|
                    0 <= w < j ==> match Links::remap_link_spec(
                        nodes@,
                        mapping@,
                        (#[trigger] entries@[w]).0,
                        entries@[w].1,
                    ) {
                        Some(l2) => fresh.has_link(entries@[w].0.from_out, entries@[w].0.to_in, l2),
                        None => true,
                    },
                dropped == exists|w: int|
                    0 <= w < j && Links::remap_link_spec(
                        nodes@,
                        mapping@,
                        (#[trigger] entries@[w]).0,
                        entries@[w].1,
                    ) is None,
            decreases entries@.len() - j,
        {
            let (k, l) = entries[j];
            let from_in_set = contains_ref(nodes, k.from_out);
            let to_in_set = contains_ref(nodes, k.to_in);
            let out_prop: Option<usize> = if from_in_set {
                match mapping.get(&l.out_prop) {
                    Some(p) => Some(*p),
                    None => None,
                }
            } else {
                Some(l.out_prop)
            };
            let in_prop: Option<usize> = if to_in_set {
                match mapping.get(&l.in_prop) {
                    Some(p) => Some(*p),
                    None => None,
                }
            } else {
                Some(l.in_prop)
            };
            let ghost fresh0 = fresh;
            match (out_prop, in_prop) {
                (Some(op), Some(ip)) => {
                    proof {
                        assert(Links::remap_link_spec(nodes@, mapping@, k, l) == Some(
                            (Link { out_prop: op, in_prop: ip }),
                        )) by {
                            if from_in_set {
                                let i = choose|i: int|
                                    0 <= i < mapping@.len() && (#[trigger] mapping@[i]).0
                                        == l.out_prop;
                                let w = choose|w: int|
                                    0 <= w < mapping@.len() && #[trigger] mapping@[w] == (
                                    l.out_prop,
                                    op,
                                );
                                assert(i == w) by {
                                    if i != w {
                                        assert(mapping@[i].0 != mapping@[w].0);
                                    }
                                }
                            }
                            if to_in_set {
                                let i = choose|i: int|
                                    0 <= i < mapping@.len() && (#[trigger] mapping@[i]).0
                                        == l.in_prop;
                                let w = choose|w: int|
                                    0 <= w < mapping@.len() && #[trigger] mapping@[w] == (
                                    l.in_prop,
                                    ip,
                                );
                                assert(i == w) by {
                                    if i != w {
                                        assert(mapping@[i].0 != mapping@[w].0);
                                    }
                                }
                            }
                        }
                    }
                    fresh.insert(k.from_out, k.to_in, Link { out_prop: op, in_prop: ip });
                    proof {
                        assert forall|f: NodeRef, t: NodeRef, l2: Link|
                            #[trigger] fresh.has_link(f, t, l2) implies exists|w: int|
                            0 <= w < j + 1 && (#[trigger] entries@[w]).0 == (LinkKey {
                                from_out: f,
                                to_in: t,
                            }) && Links::remap_link_spec(
                                nodes@,
                                mapping@,
                                entries@[w].0,
                                entries@[w].1,
                            ) == Some(l2) by {
                            if !fresh0.has_link(f, t, l2) {
                                assert(f == k.from_out && t == k.to_in && l2 == (Link {
                                    out_prop: op,
                                    in_prop: ip,
                                }));
                                assert(entries@[j as int].0 == (LinkKey { from_out: f, to_in: t }));
                            }
                        }
                        assert forall|w: int|
                            0 <= w < j + 1 implies match Links::remap_link_spec(
                            nodes@,
                            mapping@,
                            (#[trigger] entries@[w]).0,
                            entries@[w].1,
                        ) {
                            Some(l2) => fresh.has_link(
                                entries@[w].0.from_out,
                                entries@[w].0.to_in,
                                l2,
                            ),
                            None => true,
                        } by {
                            if w < j {
                            } else {
                            }
                        }
                    }
                }
                _ => {
                    dropped = true;
                    proof {
                        assert(Links::remap_link_spec(nodes@, mapping@, k, l) is None) by {
                            if out_prop is None {
                                assert(from_in_set);
                                if exists|i: int|
                                    0 <= i < mapping@.len() && (#[trigger] mapping@[i]).0
                                        == l.out_prop {
                                    let i = choose|i: int|
                                        0 <= i < mapping@.len() && (#[trigger] mapping@[i]).0
                                            == l.out_prop;
                                    assert(mapping.spec_contains_key(l.out_prop));
                                    assert(false);
                                }
                            } else {
                                assert(to_in_set);
                                if exists|i: int|
                                    0 <= i < mapping@.len() && (#[trigger] mapping@[i]).0
                                        == l.in_prop {
                                    let i = choose|i: int|
                                        0 <= i < mapping@.len() && (#[trigger] mapping@[i]).0
                                            == l.in_prop;
                                    assert(mapping.spec_contains_key(l.in_prop));
                                    assert(false);
                                }
                            }
                        }
                        assert(entries@[j as int].0 == k && entries@[j as int].1 == l);
                    }
                }
            }
            j += 1;
        }
        *self = fresh;
        proof {
            assert forall|f: NodeRef, t: NodeRef, l2: Link|
                #[trigger] self.has_link(f, t, l2) implies exists|l1: Link|
                #[trigger] old(self).has_link(f, t, l1) && Links::remap_link_spec(
                    nodes@,
                    mapping@,
                    (LinkKey { from_out: f, to_in: t }),
                    l1,
                ) == Some(l2) by {
                let w = choose|w: int|
                    0 <= w < entries@.len() && (#[trigger] entries@[w]).0 == (LinkKey {
                        from_out: f,
                        to_in: t,
                    }) && Links::remap_link_spec(
                        nodes@,
                        mapping@,
                        entries@[w].0,
                        entries@[w].1,
                    ) == Some(l2);
                let l1 = entries@[w].1;
                assert(entries@[w] == ((entries@[w].0), entries@[w].1));
                assert(old(self).fwd_view().contains(entries@[w]));
                assert(old(self).has_link(f, t, l1));
            }
            assert forall|f: NodeRef, t: NodeRef, l1: Link|
                #[trigger] old(self).has_link(f, t, l1) implies match Links::remap_link_spec(
                nodes@,
                mapping@,
                (LinkKey { from_out: f, to_in: t }),
                l1,
            ) {
                Some(l2) => self.has_link(f, t, l2),
                None => true,
            } by {
                let w = choose|w: int|
                    0 <= w < entries@.len() && entries@[w] == ((LinkKey { from_out: f, to_in: t }),
                    l1);
                assert(entries@[w].0.from_out == f && entries@[w].0.to_in == t);
            }
        }
        dropped
    }
}

/// Copies the forward link entries into an owned list.
fn copy_link_entries(v: &Vec<(LinkKey, Link)>) -> (r: Vec<(LinkKey, Link)>)
    ensures
        r@ == v@,
{
    let mut r: Vec<(LinkKey, Link)> = Vec::new();
    let mut j: usize = 0;
    while j < v.len()
        invariant
            j <= v@.len(),
            r@ == v@.take(j as int),
        decreases v@.len() - j,
    {
        r.push(v[j]);
        proof {
            assert(r@ =~= v@.take(j + 1));
        }
        j += 1;
    }
    proof {
        assert(r@ =~= v@);
    }
    r
}

/// Graph ordering errors.
#[derive(Debug, Clone)]
pub enum OrderError {
    /// The graph contains a cycle. The participating nodes of the first
    /// detected cycle are given in the argument.
    Cycle(Vec<NodeRef>),
}

/// A sequence of nodes in which each node is an input of the one before it.
pub open spec fn is_upstream_path(lks: Links, p: Seq<NodeRef>) -> bool {
    forall|i: int| 0 <= i < p.len() - 1 ==> lks.has_edge(#[trigger] p[i + 1], p[i])
}

/// Whether `n` is backward-reachable from `root` by walking inputs.
pub open spec fn reaches_upstream(lks: Links, root: NodeRef, n: NodeRef) -> bool {
    exists|p: Seq<NodeRef>|
        p.len() > 0 && p[0] == root && p.last() == n && #[trigger] is_upstream_path(lks, p)
}

/// A closed loop under the graph's edges.
pub open spec fn is_cycle(lks: Links, c: Seq<NodeRef>) -> bool {
    &&& c.len() > 0
    &&& forall|i: int| 0 <= i < c.len() - 1 ==> lks.has_edge(#[trigger] c[i], c[i + 1])
    &&& lks.has_edge(c.last(), c[0])
}

/// Reachability is reflexive.
pub proof fn lemma_reaches_self(lks: Links, root: NodeRef)
    ensures
        reaches_upstream(lks, root, root),
{
    let p = seq![root];
    assert(is_upstream_path(lks, p));
    assert(p[0] == root && p.last() == root);
}

/// Reachability extends along an input edge.
pub proof fn lemma_reaches_step(lks: Links, root: NodeRef, n: NodeRef, a: NodeRef)
    requires
        reaches_upstream(lks, root, n),
        lks.has_edge(a, n),
    ensures
        reaches_upstream(lks, root, a),
{
    let p = choose|p: Seq<NodeRef>|
        p.len() > 0 && p[0] == root && p.last() == n && #[trigger] is_upstream_path(lks, p);
    let q = p.push(a);
    assert forall|i: int| 0 <= i < q.len() - 1 implies lks.has_edge(#[trigger] q[i + 1], q[i]) by {
        if i < p.len() - 1 {
            assert(q[i] == p[i] && q[i + 1] == p[i + 1]);
        } else {
            assert(q[i] == p.last() && q[i + 1] == a);
        }
    }
    assert(is_upstream_path(lks, q));
    assert(q[0] == root && q.last() == a);
}

/// A node graph: node storage, links, the designated output node, a cached
/// topological order and the dirty-node set.
pub struct Graph {
    nodes: BSMap<NodeRef, Node>,
    links: Links,
    io_node: NodeRef,
    order: Option<Vec<NodeRef>>,
    dirty_nodes: BSMap<NodeRef, ()>,
}

impl Graph {
    /// The stored nodes, as (reference, node) pairs in id order.
    pub closed spec fn nodes_view(self) -> Seq<(NodeRef, Node)> {
        self.nodes@
    }

    /// The link indices.
    pub closed spec fn links_index(self) -> Links {
        self.links
    }

    /// The designated output node.
    pub closed spec fn output_spec(self) -> NodeRef {
        self.io_node
    }

    /// The cached topological order, if valid.
    pub closed spec fn order_view(self) -> Option<Seq<NodeRef>> {
        match self.order {
            Some(o) => Some(o@),
            None => None,
        }
    }

    /// The dirty-node set.
    pub closed spec fn dirty_view(self) -> Seq<(NodeRef, ())> {
        self.dirty_nodes@
    }

    /// Whether a node with this reference is stored.
    pub open spec fn has_node(self, n: NodeRef) -> bool {
        exists|i: int| 0 <= i < self.nodes_view().len() && (#[trigger] self.nodes_view()[i]).0 == n
    }

    /// The stored node under this reference, if any.
    pub open spec fn spec_node(self, n: NodeRef) -> Option<Node> {
        if self.has_node(n) {
            Some(
                self.nodes_view()[choose|i: int|
                    0 <= i < self.nodes_view().len() && (#[trigger] self.nodes_view()[i]).0
                        == n].1,
            )
        } else {
            None
        }
    }

    /// Whether some link leads from an output port of `a` to an input port of
    /// `b`.
    pub open spec fn has_edge(self, a: NodeRef, b: NodeRef) -> bool {
        self.links_index().has_edge(a, b)
    }

    /// Whether this node is marked dirty.
    pub open spec fn is_dirty_spec(self, n: NodeRef) -> bool {
        exists|i: int| 0 <= i < self.dirty_view().len() && (#[trigger] self.dirty_view()[i]).0 == n
    }

    /// What a valid cached order promises: distinct entries, exactly the
    /// nodes backward-reachable from the output, producers before consumers
    /// (with the output node itself exempt as a producer), and the output
    /// node last.
    pub open spec fn order_ok(self, o: Seq<NodeRef>) -> bool {
        &&& forall|i: int, j: int| 0 <= i < j < o.len() ==> #[trigger] o[i] != #[trigger] o[j]
        &&& forall|n: NodeRef|
            #[trigger] o.contains(n) <==> reaches_upstream(
                self.links_index(),
                self.output_spec(),
                n,
            )
        &&& forall|i: int, a: NodeRef|
            0 <= i < o.len() && #[trigger] self.has_edge(a, o[i]) && a != self.output_spec()
                ==> exists|j: int| 0 <= j < i && #[trigger] o[j] == a
        &&& o.len() > 0
        &&& o.last() == self.output_spec()
    }

    /// The structural part of well-formedness: both maps sorted, links
    /// indexed consistently, and any cached order valid.
    pub open spec fn map_wf(self) -> bool {
        &&& crate::util::entries_sorted(self.nodes_view())
        &&& crate::util::keys_distinct(self.nodes_view())
        &&& self.links_index().wf()
        &&& crate::util::entries_sorted(self.dirty_view())
        &&& crate::util::keys_distinct(self.dirty_view())
        &&& match self.order_view() {
            Some(o) => self.order_ok(o),
            None => true,
        }
    }

    /// Every stored node has a well-formed property map.
    pub open spec fn values_wf(self) -> bool {
        forall|i: int| 0 <= i < self.nodes_view().len() ==> (#[trigger] self.nodes_view()[i]).1.wf()
    }

    pub open spec fn wf(self) -> bool {
        self.map_wf() && self.values_wf()
    }

    /// `has_node` agrees with the node map's own key membership.
    proof fn lemma_nodes_key_bridge(self, n: NodeRef)
        ensures
            self.has_node(n) <==> self.nodes.spec_contains_key(n),
    {
        if self.has_node(n) {
            let i = choose|i: int|
                0 <= i < self.nodes_view().len() && (#[trigger] self.nodes_view()[i]).0 == n;
            assert(self.nodes@[i].0 == n);
        }
        if self.nodes.spec_contains_key(n) {
            let i = choose|i: int| 0 <= i < self.nodes@.len() && (#[trigger] self.nodes@[i]).0 == n;
            assert(self.nodes_view()[i].0 == n);
        }
    }

    /// `is_dirty_spec` agrees with the dirty map's own key membership.
    proof fn lemma_dirty_key_bridge(self, n: NodeRef)
        ensures
            self.is_dirty_spec(n) <==> self.dirty_nodes.spec_contains_key(n),
    {
        if self.is_dirty_spec(n) {
            let i = choose|i: int|
                0 <= i < self.dirty_view().len() && (#[trigger] self.dirty_view()[i]).0 == n;
            assert(self.dirty_nodes@[i].0 == n);
        }
        if self.dirty_nodes.spec_contains_key(n) {
            let i = choose|i: int|
                0 <= i < self.dirty_nodes@.len() && (#[trigger] self.dirty_nodes@[i]).0 == n;
            assert(self.dirty_view()[i].0 == n);
        }
    }

    /// A valid order stays valid under any change that keeps the links and
    /// the output node.
    proof fn lemma_order_ok_same_topology(g1: Graph, g2: Graph, o: Seq<NodeRef>)
        requires
            g1.order_ok(o),
            g2.links_index() == g1.links_index(),
            g2.output_spec() == g1.output_spec(),
        ensures
            g2.order_ok(o),
    {
        assert forall|i: int, a: NodeRef|
            0 <= i < o.len() && #[trigger] g2.has_edge(a, o[i]) && a != g2.output_spec() implies
            exists|j: int| 0 <= j < i && #[trigger] o[j] == a by {
            assert(g1.has_edge(a, o[i]));
        }
        assert forall|n: NodeRef| #[trigger] o.contains(n) <==> reaches_upstream(
            g2.links_index(),
            g2.output_spec(),
            n,
        ) by {
            assert(o.contains(n) <==> reaches_upstream(g1.links_index(), g1.output_spec(), n));
        }
    }

    /// Creates a new node graph.
    pub fn new() -> (r: Graph)
        ensures
            r.wf(),
            r.nodes_view() =~= Seq::<(NodeRef, Node)>::empty(),
            r.links_index().fwd_view() =~= Seq::<(LinkKey, Link)>::empty(),
            r.output_spec().id() == 0,
            r.order_view() is None,
            r.dirty_view() =~= Seq::<(NodeRef, ())>::empty(),
    {
        Graph {
            nodes: BSMap::new(),
            links: Links::new(),
            io_node: NodeRef(0),
            order: None,
            dirty_nodes: BSMap::new(),
        }
    }

    /// Invalidates topological sorting.
    fn invalidate_order(&mut self)
        ensures
            final(self).order_view() is None,
            final(self).nodes_view() == old(self).nodes_view(),
            final(self).links_index() == old(self).links_index(),
            final(self).output_spec() == old(self).output_spec(),
            final(self).dirty_view() == old(self).dirty_view(),
    {
        self.order = None;
    }

    /// Adds a node to the graph and returns a (weak) reference.
    ///
    /// The id is one above the greatest id in use, or 1 in an empty graph;
    /// ids are never reused. The new node starts dirty.
    pub fn add_node(&mut self, node: Node) -> (r: NodeRef)
        requires
            old(self).wf(),
            node.wf(),
            old(self).nodes_view().len() > 0 ==> old(self).nodes_view().last().0.id() < u64::MAX,
        ensures
            final(self).wf(),
            r.id() == (if old(self).nodes_view().len() == 0 {
                1u64
            } else {
                (old(self).nodes_view().last().0.id() + 1) as u64
            }),
            !old(self).has_node(r),
            final(self).has_node(r),
            final(self).is_dirty_spec(r),
            exists|i: int|
                0 <= i < final(self).nodes_view().len() && #[trigger] final(self).nodes_view()[i]
                    == (r, node),
            forall|n: NodeRef|
                final(self).has_node(n) <==> (old(self).has_node(n) || n == r),
            forall|n: NodeRef|
                final(self).is_dirty_spec(n) <==> (old(self).is_dirty_spec(n) || n == r),
            forall|n: NodeRef, m: Node|
                n != r ==> (final(self).nodes_view().contains((n, m)) <==> old(
                    self,
                ).nodes_view().contains((n, m))),
            final(self).links_index() == old(self).links_index(),
            final(self).output_spec() == old(self).output_spec(),
            final(self).order_view() == old(self).order_view(),
    {
        let node_ref = match self.nodes.greatest_key() {
            Some(k) => NodeRef(k.0 + 1),
            None => NodeRef(1),
        };
        proof {
            if self.nodes@.len() > 0 {
                assert forall|i: int| 0 <= i < self.nodes@.len() implies (
                #[trigger] self.nodes@[i]).0.id() < node_ref.id() by {
                    let last = self.nodes@.len() - 1;
                    assert(self.nodes@[i].0.le_spec(self.nodes@[last].0));
                }
            }
            assert(!self.nodes.spec_contains_key(node_ref)) by {
                if self.nodes.spec_contains_key(node_ref) {
                    let i = choose|i: int|
                        0 <= i < self.nodes@.len() && (#[trigger] self.nodes@[i]).0 == node_ref;
                }
            }
            old(self).lemma_nodes_key_bridge(node_ref);
        }
        let ghost n0 = self.nodes@;
        let ghost m0 = self.nodes;
        let ghost d0 = self.dirty_nodes;
        self.nodes.insert(node_ref, node);
        self.dirty_nodes.insert(node_ref, ());
        proof {
            assert forall|n: NodeRef|
                self.has_node(n) <==> (old(self).has_node(n) || n == node_ref) by {
                self.lemma_nodes_key_bridge(n);
                old(self).lemma_nodes_key_bridge(n);
            }
            assert forall|n: NodeRef|
                self.is_dirty_spec(n) <==> (old(self).is_dirty_spec(n) || n == node_ref) by {
                self.lemma_dirty_key_bridge(n);
                old(self).lemma_dirty_key_bridge(n);
            }
            assert(self.has_node(node_ref)) by {
                self.lemma_nodes_key_bridge(node_ref);
            }
            assert(self.is_dirty_spec(node_ref)) by {
                self.lemma_dirty_key_bridge(node_ref);
            }
            assert forall|n: NodeRef, m: Node|
                n != node_ref implies (self.nodes@.contains((n, m)) <==> n0.contains((n, m))) by {
                assert(self.nodes@.contains((n, m)) <==> ((n0.contains((n, m)) && (n, m).0
                    != node_ref) || (n, m) == (node_ref, node)));
            }
            assert(self.nodes@.contains((node_ref, node)));
            let iw = choose|iw: int|
                0 <= iw < self.nodes@.len() && self.nodes@[iw] == (node_ref, node);
            assert(self.nodes_view()[iw] == (node_ref, node));
            assert forall|w: int| 0 <= w < self.nodes@.len() implies (
            #[trigger] self.nodes@[w]).1.wf() by {
                assert(self.nodes@.contains(self.nodes@[w]));
                if self.nodes@[w] != (node_ref, node) {
                    assert(self.nodes@[w] == ((self.nodes@[w].0), self.nodes@[w].1));
                    if self.nodes@[w].0 == node_ref {
                        assert(self.nodes.spec_contains_key(node_ref)) by {
                            assert(self.nodes@[w].0 == node_ref);
                        }
                        assert((self.nodes@[w].0, self.nodes@[w].1) == (node_ref, node)) by {
                            assert(crate::util::keys_distinct(self.nodes@));
                            assert(self.nodes@[iw].0 == node_ref);
                            assert(w == iw);
                        }
                        assert(false);
                    }
                    assert(n0.contains(self.nodes@[w]));
                    let w0 = choose|w0: int| 0 <= w0 < n0.len() && n0[w0] == self.nodes@[w];
                    assert(old(self).nodes_view()[w0].1.wf());
                }
            }
        }
        proof {
            match self.order_view() {
                Some(o) => {
                    Graph::lemma_order_ok_same_topology(*old(self), *self, o);
                }
                None => {}
            }
        }
        node_ref
    }

    /// Sets the output node.
    pub fn set_output(&mut self, node: NodeRef)
        requires
            old(self).wf(),
        ensures
            final(self).wf(),
            final(self).output_spec() == node,
            final(self).order_view() is None,
            final(self).nodes_view() == old(self).nodes_view(),
            final(self).links_index() == old(self).links_index(),
            final(self).dirty_view() == old(self).dirty_view(),
    {
        self.io_node = node;
        self.invalidate_order();
    }

    /// Returns the output node ID.
    pub fn output(&self) -> (r: NodeRef)
        ensures
            r == self.output_spec(),
    {
        self.io_node
    }

    /// Returns a reference to a node.
    pub fn node(&self, node: &NodeRef) -> (r: Option<&Node>)
        requires
            self.wf(),
        ensures
            match r {
                Some(v) => exists|i: int|
                    0 <= i < self.nodes_view().len() && #[trigger] self.nodes_view()[i] == (
                    *node,
                    *v,
                ),
                None => !self.has_node(*node),
            },
    {
        self.nodes.get(node)
    }

    /// Returns a mutable reference to a node, marking it dirty: there is no
    /// way of knowing whether it will actually be mutated, so this is
    /// pessimistic by design.
    pub fn node_mut(&mut self, node: &NodeRef) -> (r: Option<&mut Node>)
        requires
            old(self).wf(),
        ensures
            final(self).map_wf(),
            final(self).links_index() == old(self).links_index(),
            final(self).output_spec() == old(self).output_spec(),
            final(self).order_view() == old(self).order_view(),
            forall|n: NodeRef|
                final(self).is_dirty_spec(n) <==> (old(self).is_dirty_spec(n) || n == *node),
            match r {
                Some(v) => {
                    &&& v.wf()
                    &&& exists|i: int|
                        {
                            &&& 0 <= i < old(self).nodes_view().len()
                            &&& #[trigger] old(self).nodes_view()[i] == (*node, *v)
                            &&& final(self).nodes_view() == old(self).nodes_view().update(
                                i,
                                ((*node), *final(v)),
                            )
                        }
                    &&& (final(v).wf() ==> final(self).values_wf())
                },
                None => !old(self).has_node(*node) && final(self).nodes_view() == old(
                    self,
                ).nodes_view(),
            },
    {
        self.dirty_nodes.insert(*node, ());
        proof {
            assert forall|n: NodeRef|
                self.is_dirty_spec(n) <==> (old(self).is_dirty_spec(n) || n == *node) by {
                self.lemma_dirty_key_bridge(n);
                old(self).lemma_dirty_key_bridge(n);
            }
            assert forall|g2: Graph, n: NodeRef|
                g2.dirty_view() == self.dirty_view() implies (#[trigger] g2.is_dirty_spec(n) <==> (
                old(self).is_dirty_spec(n) || n == *node)) by {
                if g2.is_dirty_spec(n) {
                    let i = choose|i: int|
                        0 <= i < g2.dirty_view().len() && (#[trigger] g2.dirty_view()[i]).0 == n;
                    assert(self.dirty_view()[i].0 == n);
                }
                if self.is_dirty_spec(n) {
                    let i = choose|i: int|
                        0 <= i < self.dirty_view().len() && (#[trigger] self.dirty_view()[i]).0
                            == n;
                    assert(g2.dirty_view()[i].0 == n);
                }
            }
            match self.order_view() {
                Some(o) => {
                    assert forall|g2: Graph|
                        g2.links_index() == self.links_index() && g2.output_spec()
                            == self.output_spec() implies #[trigger] g2.order_ok(o) by {
                        Graph::lemma_order_ok_same_topology(*old(self), g2, o);
                    }
                }
                None => {}
            }
        }
        let ghost n0 = self.nodes@;
        proof {
            assert forall|x: Node, i: int|
                0 <= i < n0.len() && (#[trigger] n0[i]).0 == *node implies {
                    let s1 = #[trigger] n0.update(i, ((*node), x));
                    &&& crate::util::entries_sorted(s1)
                    &&& crate::util::keys_distinct(s1)
                    &&& (x.wf() ==> forall|w: int|
                        0 <= w < s1.len() ==> (#[trigger] s1[w]).1.wf())
                } by {
                let s1 = n0.update(i, ((*node), x));
                assert forall|p: int, q: int|
                    0 <= p <= q < s1.len() implies (#[trigger] s1[p]).0.le_spec(
                    (#[trigger] s1[q]).0) by {
                    assert(s1[p].0 == n0[p].0);
                    assert(s1[q].0 == n0[q].0);
                }
                assert forall|p: int, q: int| 0 <= p < q < s1.len() implies (#[trigger] s1[p]).0
                    != (#[trigger] s1[q]).0 by {
                    assert(s1[p].0 == n0[p].0);
                    assert(s1[q].0 == n0[q].0);
                }
                if x.wf() {
                    assert forall|w: int| 0 <= w < s1.len() implies (#[trigger] s1[w]).1.wf() by {
                        if w != i {
                            assert(s1[w] == n0[w]);
                        }
                    }
                }
            }
        }
        let r = self.nodes.get_mut(node);
        r
    }

    /// Removes a node from the graph, along with any links.
    pub fn remove_node(&mut self, node: NodeRef) -> (r: Option<Node>)
        requires
            old(self).wf(),
        ensures
            final(self).wf(),
            final(self).order_view() is None,
            final(self).output_spec() == old(self).output_spec(),
            final(self).dirty_view() == old(self).dirty_view(),
            forall|n: NodeRef| final(self).has_node(n) <==> (old(self).has_node(n) && n != node),
            forall|f: NodeRef, t: NodeRef, l: Link|
                final(self).links_index().has_link(f, t, l) <==> (old(
                    self,
                ).links_index().has_link(f, t, l) && f != node && t != node),
            match r {
                Some(v) => old(self).nodes_view().contains((node, v)),
                None => !old(self).has_node(node),
            },
    {
        self.invalidate_order();
        self.links.remove_node(node);
        let r = self.nodes.remove(&node);
        proof {
            assert forall|n: NodeRef|
                self.has_node(n) <==> (old(self).has_node(n) && n != node) by {
                self.lemma_nodes_key_bridge(n);
                old(self).lemma_nodes_key_bridge(n);
            }
            match &r {
                Some(v) => {
                    let i = choose|i: int|
                        {
                            &&& 0 <= i < old(self).nodes_view().len()
                            &&& #[trigger] old(self).nodes_view()[i] == (node, *v)
                            &&& self.nodes@ == old(self).nodes_view().remove(i)
                        };
                    assert(old(self).nodes_view().contains((node, *v)));
                }
                None => {}
            }
            assert forall|w: int| 0 <= w < self.nodes@.len() implies (
            #[trigger] self.nodes@[w]).1.wf() by {
                assert(self.nodes@.contains(self.nodes@[w]));
                assert(old(self).nodes_view().contains(self.nodes@[w]));
                let w0 = choose|w0: int|
                    0 <= w0 < old(self).nodes_view().len() && old(self).nodes_view()[w0]
                        == self.nodes@[w];
                assert(old(self).nodes_view()[w0].1.wf());
            }
        }
        r
    }

    /// Links two node properties. Re-linking an identical tuple is a no-op.
    pub fn link(&mut self, out_node: NodeRef, out_prop: usize, in_node: NodeRef, in_prop: usize)
        requires
            old(self).wf(),
        ensures
            final(self).wf(),
            final(self).order_view() is None,
            final(self).nodes_view() == old(self).nodes_view(),
            final(self).output_spec() == old(self).output_spec(),
            final(self).dirty_view() == old(self).dirty_view(),
            final(self).links_index().has_link(
                out_node,
                in_node,
                (Link { out_prop, in_prop }),
            ),
            forall|f: NodeRef, t: NodeRef, l: Link|
                final(self).links_index().has_link(f, t, l) <==> (old(self).links_index().has_link(
                    f,
                    t,
                    l,
                ) || (f == out_node && t == in_node && l == (Link { out_prop, in_prop }))),
            old(self).links_index().has_link(out_node, in_node, (Link { out_prop, in_prop }))
                ==> final(self).links_index().fwd_view() == old(self).links_index().fwd_view()
                && final(self).links_index().rev_view() == old(self).links_index().rev_view(),
    {
        self.invalidate_order();
        self.links.insert(out_node, in_node, Link { out_prop, in_prop });
    }

    /// Removes a link between two node properties. Returns true if a link was
    /// removed.
    pub fn unlink(
        &mut self,
        out_node: NodeRef,
        out_prop: usize,
        in_node: NodeRef,
        in_prop: usize,
    ) -> (r: bool)
        requires
            old(self).wf(),
        ensures
            final(self).wf(),
            final(self).order_view() is None,
            final(self).nodes_view() == old(self).nodes_view(),
            final(self).output_spec() == old(self).output_spec(),
            final(self).dirty_view() == old(self).dirty_view(),
            r == old(self).links_index().has_link(
                out_node,
                in_node,
                (Link { out_prop, in_prop }),
            ),
            forall|f: NodeRef, t: NodeRef, l: Link|
                final(self).links_index().has_link(f, t, l) <==> (old(self).links_index().has_link(
                    f,
                    t,
                    l,
                ) && !(f == out_node && t == in_node && l == (Link { out_prop, in_prop }))),
    {
        self.invalidate_order();
        self.links.remove(out_node, in_node, Link { out_prop, in_prop })
    }

    /// Returns the links into a node in (other node, output prop, input prop
    /// on this node) tuples.
    pub fn node_inputs(&self, node: NodeRef) -> (r: Vec<(NodeRef, usize, usize)>)
        requires
            self.wf(),
        ensures
            forall|i: int|
                0 <= i < r@.len() ==> self.links_index().has_link(
                    (#[trigger] r@[i]).0,
                    node,
                    (Link { out_prop: r@[i].1, in_prop: r@[i].2 }),
                ),
            forall|n: NodeRef, l: Link|
                self.links_index().has_link(n, node, l) ==> r@.contains((n, l.out_prop, l.in_prop)),
            r@.no_duplicates(),
    {
        let ins = self.links.get_ins(node);
        let mut r: Vec<(NodeRef, usize, usize)> = Vec::new();
        let mut j: usize = 0;
        while j < ins.len()
            invariant
                j <= ins@.len(),
                r@.len() == j,
                forall|i: int|
                    0 <= i < ins@.len() ==> self.links_index().has_link(
                        (#[trigger] ins@[i]).0,
                        node,
                        ins@[i].1,
                    ),
                forall|i: int|
                    0 <= i < j ==> #[trigger] r@[i] == ((#[trigger] ins@[i]).0, ins@[i].1.out_prop,
                    ins@[i].1.in_prop),
            decreases ins@.len() - j,
        {
            let (n, l) = ins[j];
            r.push((n, l.out_prop, l.in_prop));
            j += 1;
        }
        proof {
            assert forall|n: NodeRef, l: Link| self.links_index().has_link(
                n,
                node,
                l,
            ) implies r@.contains((n, l.out_prop, l.in_prop)) by {
                assert(ins@.contains((n, l)));
                let i = choose|i: int| 0 <= i < ins@.len() && ins@[i] == (n, l);
                assert(r@[i] == (n, l.out_prop, l.in_prop));
            }
            assert forall|i: int| 0 <= i < r@.len() implies self.links_index().has_link(
                (#[trigger] r@[i]).0,
                node,
                (Link { out_prop: r@[i].1, in_prop: r@[i].2 }),
            ) by {
                assert(r@[i] == (ins@[i].0, ins@[i].1.out_prop, ins@[i].1.in_prop));
                assert(ins@[i].1 == (Link { out_prop: ins@[i].1.out_prop, in_prop: ins@[i].1.in_prop }));
            }
            assert forall|i: int, j2: int| 0 <= i < j2 < r@.len() implies r@[i] != r@[j2] by {
                assert(r@[i] == (ins@[i].0, ins@[i].1.out_prop, ins@[i].1.in_prop));
                assert(r@[j2] == (ins@[j2].0, ins@[j2].1.out_prop, ins@[j2].1.in_prop));
                if r@[i] == r@[j2] {
                    assert(ins@[i].1 == (Link {
                        out_prop: ins@[i].1.out_prop,
                        in_prop: ins@[i].1.in_prop,
                    }));
                    assert(ins@[j2].1 == (Link {
                        out_prop: ins@[j2].1.out_prop,
                        in_prop: ins@[j2].1.in_prop,
                    }));
                    assert(ins@[i] == ins@[j2]);
                }
            }
        }
        r
    }

    /// Returns the links out of a node in (other node, output prop on this
    /// node, input prop) tuples.
    pub fn node_outputs(&self, node: NodeRef) -> (r: Vec<(NodeRef, usize, usize)>)
        requires
            self.wf(),
        ensures
            forall|i: int|
                0 <= i < r@.len() ==> self.links_index().has_link(
                    node,
                    (#[trigger] r@[i]).0,
                    (Link { out_prop: r@[i].1, in_prop: r@[i].2 }),
                ),
            forall|n: NodeRef, l: Link|
                self.links_index().has_link(node, n, l) ==> r@.contains((n, l.out_prop, l.in_prop)),
    {
        let outs = self.links.get_outs(node);
        let mut r: Vec<(NodeRef, usize, usize)> = Vec::new();
        let mut j: usize = 0;
        while j < outs.len()
            invariant
                j <= outs@.len(),
                r@.len() == j,
                forall|i: int|
                    0 <= i < outs@.len() ==> self.links_index().has_link(
                        node,
                        (#[trigger] outs@[i]).0,
                        outs@[i].1,
                    ),
                forall|i: int|
                    0 <= i < j ==> #[trigger] r@[i] == ((#[trigger] outs@[i]).0,
                    outs@[i].1.out_prop, outs@[i].1.in_prop),
            decreases outs@.len() - j,
        {
            let (n, l) = outs[j];
            r.push((n, l.out_prop, l.in_prop));
            j += 1;
        }
        proof {
            assert forall|n: NodeRef, l: Link| self.links_index().has_link(
                node,
                n,
                l,
            ) implies r@.contains((n, l.out_prop, l.in_prop)) by {
                assert(outs@.contains((n, l)));
                let i = choose|i: int| 0 <= i < outs@.len() && outs@[i] == (n, l);
                assert(r@[i] == (n, l.out_prop, l.in_prop));
            }
            assert forall|i: int| 0 <= i < r@.len() implies self.links_index().has_link(
                node,
                (#[trigger] r@[i]).0,
                (Link { out_prop: r@[i].1, in_prop: r@[i].2 }),
            ) by {
                assert(r@[i] == (outs@[i].0, outs@[i].1.out_prop, outs@[i].1.in_prop));
                assert(outs@[i].1 == (Link { out_prop: outs@[i].1.out_prop, in_prop: outs@[i].1.in_prop }));
            }
        }
        r
    }

    /// Returns all links from one output port of a node in (other node, input
    /// prop) tuples.
    pub fn node_output_links(&self, node: NodeRef, prop: usize) -> (r: Vec<(NodeRef, usize)>)
        requires
            self.wf(),
        ensures
            forall|i: int|
                0 <= i < r@.len() ==> self.links_index().has_link(
                    node,
                    (#[trigger] r@[i]).0,
                    (Link { out_prop: prop, in_prop: r@[i].1 }),
                ),
            forall|n: NodeRef, l: Link|
                self.links_index().has_link(node, n, l) && l.out_prop == prop ==> r@.contains(
                    (n, l.in_prop),
                ),
    {
        let outs = self.node_outputs(node);
        let mut r: Vec<(NodeRef, usize)> = Vec::new();
        let mut j: usize = 0;
        while j < outs.len()
            invariant
                j <= outs@.len(),
                forall|i: int|
                    0 <= i < outs@.len() ==> self.links_index().has_link(
                        node,
                        (#[trigger] outs@[i]).0,
                        (Link { out_prop: outs@[i].1, in_prop: outs@[i].2 }),
                    ),
                forall|i: int|
                    0 <= i < r@.len() ==> self.links_index().has_link(
                        node,
                        (#[trigger] r@[i]).0,
                        (Link { out_prop: prop, in_prop: r@[i].1 }),
                    ),
                forall|i: int|
                    0 <= i < j && (#[trigger] outs@[i]).1 == prop ==> r@.contains(
                        (outs@[i].0, outs@[i].2),
                    ),
            decreases outs@.len() - j,
        {
            let (n, p, q) = outs[j];
            let ghost r0 = r@;
            if p == prop {
                r.push((n, q));
                proof {
                    assert(r@.last() == (n, q));
                    assert forall|i: int|
                        0 <= i < j + 1 && (#[trigger] outs@[i]).1 == prop implies r@.contains(
                        (outs@[i].0, outs@[i].2),
                    ) by {
                        if i < j {
                            assert(r0.contains((outs@[i].0, outs@[i].2)));
                            let w = choose|w: int|
                                0 <= w < r0.len() && r0[w] == (outs@[i].0, outs@[i].2);
                            assert(r@[w] == (outs@[i].0, outs@[i].2));
                        } else {
                            assert(r@[r@.len() - 1] == (outs@[i].0, outs@[i].2));
                        }
                    }
                }
            }
            j += 1;
        }
        proof {
            assert forall|n: NodeRef, l: Link|
                self.links_index().has_link(node, n, l) && l.out_prop == prop implies r@.contains(
                (n, l.in_prop),
            ) by {
                assert(self.links_index().has_link(node, n, l));
                let outs2 = outs@;
                assert(outs2.contains((n, l.out_prop, l.in_prop)));
                let i = choose|i: int| 0 <= i < outs2.len() && outs2[i] == (n, l.out_prop, l.in_prop);
            }
        }
        r
    }

    /// Iterates over all nodes.
    pub fn iter_nodes(&self) -> (r: &Vec<(NodeRef, Node)>)
        ensures
            r@ == self.nodes_view(),
    {
        self.nodes.iter()
    }

    /// Iterates over all links as ((out node, out prop), (in node, in prop)).
    pub fn iter_links(&self) -> (r: Vec<((NodeRef, usize), (NodeRef, usize))>)
        requires
            self.wf(),
        ensures
            r@.len() == self.links_index().fwd_view().len(),
            forall|i: int|
                0 <= i < r@.len() ==> #[trigger] r@[i] == {
                    let e = self.links_index().fwd_view()[i];
                    ((e.0.from_out, e.1.out_prop), (e.0.to_in, e.1.in_prop))
                },
    {
        let entries = self.links.iter();
        let mut r: Vec<((NodeRef, usize), (NodeRef, usize))> = Vec::new();
        let mut j: usize = 0;
        while j < entries.len()
            invariant
                j <= entries@.len(),
                entries@ == self.links_index().fwd_view(),
                r@.len() == j,
                forall|i: int|
                    0 <= i < j ==> #[trigger] r@[i] == {
                        let e = entries@[i];
                        ((e.0.from_out, e.1.out_prop), (e.0.to_in, e.1.in_prop))
                    },
            decreases entries@.len() - j,
        {
            let (k, l) = entries[j];
            r.push(((k.from_out, l.out_prop), (k.to_in, l.in_prop)));
            j += 1;
        }
        r
    }

    /// The link indices.
    pub fn links(&self) -> (r: &Links)
        ensures
            *r == self.links_index(),
    {
        &self.links
    }

    /// False if the evaluation order was invalidated. (Also see
    /// [`Graph::update_order`])
    pub fn has_order(&self) -> (r: bool)
        ensures
            r == (self.order_view() is Some),
    {
        self.order.is_some()
    }

    /// Returns the node evaluation order.
    pub fn order(&self) -> (r: Option<&Vec<NodeRef>>)
        ensures
            match r {
                Some(o) => self.order_view() == Some(o@),
                None => self.order_view() is None,
            },
    {
        self.order.as_ref()
    }

    /// Returns whether a node is marked dirty.
    pub fn is_dirty(&self, node: &NodeRef) -> (r: bool)
        requires
            self.wf(),
        ensures
            r == self.is_dirty_spec(*node),
    {
        self.dirty_nodes.contains_key(node)
    }

    /// Marks a node dirty.
    pub fn mark_dirty(&mut self, node: NodeRef)
        requires
            old(self).wf(),
        ensures
            final(self).wf(),
            final(self).nodes_view() == old(self).nodes_view(),
            final(self).links_index() == old(self).links_index(),
            final(self).output_spec() == old(self).output_spec(),
            final(self).order_view() == old(self).order_view(),
            forall|n: NodeRef|
                final(self).is_dirty_spec(n) <==> (old(self).is_dirty_spec(n) || n == node),
    {
        self.dirty_nodes.insert(node, ());
        proof {
            assert forall|n: NodeRef|
                self.is_dirty_spec(n) <==> (old(self).is_dirty_spec(n) || n == node) by {
                self.lemma_dirty_key_bridge(n);
                old(self).lemma_dirty_key_bridge(n);
            }
            match self.order_view() {
                Some(o) => {
                    Graph::lemma_order_ok_same_topology(*old(self), *self, o);
                }
                None => {}
            }
        }
    }

    /// Marks a node no longer dirty.
    pub fn mark_clean(&mut self, node: &NodeRef)
        requires
            old(self).wf(),
        ensures
            final(self).wf(),
            final(self).nodes_view() == old(self).nodes_view(),
            final(self).links_index() == old(self).links_index(),
            final(self).output_spec() == old(self).output_spec(),
            final(self).order_view() == old(self).order_view(),
            forall|n: NodeRef|
                final(self).is_dirty_spec(n) <==> (old(self).is_dirty_spec(n) && n != *node),
    {
        self.dirty_nodes.remove(node);
        proof {
            assert forall|n: NodeRef|
                self.is_dirty_spec(n) <==> (old(self).is_dirty_spec(n) && n != *node) by {
                self.lemma_dirty_key_bridge(n);
                old(self).lemma_dirty_key_bridge(n);
            }
            match self.order_view() {
                Some(o) => {
                    Graph::lemma_order_ok_same_topology(*old(self), *self, o);
                }
                None => {}
            }
        }
    }
}

/// Whether a list of node references holds the given one.
pub fn contains_ref(v: &Vec<NodeRef>, x: NodeRef) -> (r: bool)
    ensures
        r == v@.contains(x),
{
    let mut j: usize = 0;
    while j < v.len()
        invariant
            j <= v@.len(),
            forall|i: int| 0 <= i < j ==> #[trigger] v@[i] != x,
        decreases v@.len() - j,
    {
        if v[j] == x {
            return true;
        }
        j += 1;
    }
    proof {
        if v@.contains(x) {
            let i = choose|i: int| 0 <= i < v@.len() && v@[i] == x;
        }
    }
    false
}

/// The set of keys of a node-keyed map.
pub open spec fn key_set(s: Seq<(NodeRef, ())>) -> Set<NodeRef> {
    Set::new(|n: NodeRef| exists|i: int| 0 <= i < s.len() && (#[trigger] s[i]).0 == n)
}

/// Key-set membership matches the map's own key membership.
proof fn lemma_key_set_member(m: BSMap<NodeRef, (), SingleValue>, k: NodeRef)
    ensures
        key_set(m@).contains(k) <==> m.spec_contains_key(k),
{
    if key_set(m@).contains(k) {
        let i = choose|i: int| 0 <= i < m@.len() && (#[trigger] m@[i]).0 == k;
    }
    if m.spec_contains_key(k) {
        let i = choose|i: int| 0 <= i < m@.len() && (#[trigger] m@[i]).0 == k;
    }
}

/// Inserting a key into a map inserts it into the key set.
proof fn lemma_key_set_insert(
    m0: BSMap<NodeRef, (), SingleValue>,
    m1: BSMap<NodeRef, (), SingleValue>,
    k: NodeRef,
)
    requires
        forall|k2: NodeRef|
            #[trigger] m1.spec_contains_key(k2) <==> (m0.spec_contains_key(k2) || k2 == k),
    ensures
        key_set(m1@) == key_set(m0@).insert(k),
{
    assert forall|n: NodeRef| key_set(m1@).contains(n) <==> key_set(m0@).insert(k).contains(
        n,
    ) by {
        lemma_key_set_member(m0, n);
        lemma_key_set_member(m1, n);
    }
    assert(key_set(m1@) =~= key_set(m0@).insert(k));
}

/// Pushing onto a sequence inserts into its set of elements.
proof fn lemma_push_to_set(s: Seq<NodeRef>, x: NodeRef)
    ensures
        s.push(x).to_set() == s.to_set().insert(x),
{
    assert forall|n: NodeRef| s.push(x).to_set().contains(n) <==> s.to_set().insert(x).contains(
        n,
    ) by {
        if s.push(x).contains(n) {
            let i = choose|i: int| 0 <= i < s.push(x).len() && s.push(x)[i] == n;
            if i < s.len() {
                assert(s[i] == n);
            }
        }
        if s.contains(n) {
            let i = choose|i: int| 0 <= i < s.len() && s[i] == n;
            assert(s.push(x)[i] == n);
        }
        if n == x {
            assert(s.push(x)[s.len() as int] == n);
        }
    }
    assert(s.push(x).to_set() =~= s.to_set().insert(x));
}

/// Working state of the recursive topological sort: the order built so far,
/// the three-color bookkeeping (unvisited, visiting, done), and the root.
struct ToposortState {
    order: Vec<NodeRef>,
    visiting: BSMap<NodeRef, ()>,
    marked: BSMap<NodeRef, ()>,
    io_node: NodeRef,
}

impl ToposortState {
    spec fn visiting_set(self) -> Set<NodeRef> {
        key_set(self.visiting@)
    }

    spec fn marked_set(self) -> Set<NodeRef> {
        key_set(self.marked@)
    }
}

impl Graph {
    /// Every node that can come up during the sort: the root plus every link
    /// source.
    spec fn topo_universe(self) -> Set<NodeRef> {
        Set::new(
            |n: NodeRef|
                n == self.output_spec() || exists|i: int|
                    0 <= i < self.links_index().fwd_view().len() && (
                    #[trigger] self.links_index().fwd_view()[i]).0.from_out == n,
        )
    }

    proof fn lemma_topo_universe_finite(self)
        ensures
            self.topo_universe().finite(),
    {
        let fv = self.links_index().fwd_view();
        let mapped = fv.map_values(|e: (LinkKey, Link)| e.0.from_out);
        vstd::seq_lib::seq_to_set_is_finite::<NodeRef>(mapped);
        assert(self.topo_universe() =~= mapped.to_set().insert(self.output_spec())) by {
            assert forall|n: NodeRef| self.topo_universe().contains(n) implies mapped.to_set().insert(
                self.output_spec(),
            ).contains(n) by {
                if n != self.output_spec() {
                    let i = choose|i: int|
                        0 <= i < fv.len() && (#[trigger] fv[i]).0.from_out == n;
                    assert(mapped[i] == n);
                    assert(mapped.contains(n));
                }
            }
            assert forall|n: NodeRef|
                mapped.to_set().insert(self.output_spec()).contains(n) implies
                self.topo_universe().contains(n) by {
                if n != self.output_spec() {
                    assert(mapped.contains(n));
                    let i = choose|i: int| 0 <= i < mapped.len() && mapped[i] == n;
                    assert(fv[i].0.from_out == n);
                }
            }
        }
    }

    /// The order and mark bookkeeping that holds throughout the sort.
    spec fn marks_inv(self, st: ToposortState) -> bool {
        &&& st.io_node == self.output_spec()
        &&& crate::util::entries_sorted(st.visiting@)
        &&& crate::util::keys_distinct(st.visiting@)
        &&& crate::util::entries_sorted(st.marked@)
        &&& crate::util::keys_distinct(st.marked@)
        &&& forall|i: int, j: int|
            0 <= i < j < st.order@.len() ==> #[trigger] st.order@[i] != #[trigger] st.order@[j]
        &&& forall|n: NodeRef| #[trigger] st.order@.contains(n) <==> st.marked_set().contains(n)
        &&& forall|i: int, a: NodeRef|
            0 <= i < st.order@.len() && #[trigger] self.has_edge(a, st.order@[i]) && a
                != self.output_spec() ==> exists|j: int| 0 <= j < i && #[trigger] st.order@[j] == a
        &&& forall|i: int|
            0 <= i < st.order@.len() ==> reaches_upstream(
                self.links_index(),
                self.output_spec(),
                #[trigger] st.order@[i],
            )
    }

    /// What holds of the active chain while a call runs: the ancestor stack
    /// is a distinct input-chain from the root, and the visiting set is
    /// exactly the stack plus everything already done.
    spec fn active_inv(self, st: ToposortState, stack: Seq<NodeRef>) -> bool {
        &&& forall|i: int, j: int|
            0 <= i < j < stack.len() ==> #[trigger] stack[i] != #[trigger] stack[j]
        &&& stack.len() > 0 ==> stack[0] == self.output_spec()
        &&& forall|i: int|
            0 <= i < stack.len() - 1 ==> #[trigger] self.has_edge(stack[i + 1], stack[i])
        &&& forall|i: int|
            0 <= i < stack.len() ==> reaches_upstream(
                self.links_index(),
                self.output_spec(),
                #[trigger] stack[i],
            )
        &&& st.visiting_set() == stack.to_set().union(st.marked_set())
        &&& stack.to_set().disjoint(st.marked_set())
    }

    /// Recursive depth-first topological sort, walking inputs.
    ///
    /// Re-encountering a node under visit signals a cycle, except for the
    /// root itself, which structures may legitimately fan back into. A cycle
    /// is reported as the list of its participants, accumulated on unwind
    /// until the originating node recurs.
    fn toposort(
        &self,
        node: NodeRef,
        state: &mut ToposortState,
        Ghost(stack): Ghost<Seq<NodeRef>>,
    ) -> (r: Result<(), (Vec<NodeRef>, bool)>)
        requires
            self.wf(),
            self.marks_inv(*old(state)),
            self.active_inv(*old(state), stack),
            stack.len() == 0 ==> node == self.output_spec(),
            stack.len() > 0 ==> self.has_edge(node, stack.last()),
            reaches_upstream(self.links_index(), self.output_spec(), node),
        ensures
            self.marks_inv(*final(state)),
            forall|n: NodeRef|
                old(state).marked_set().contains(n) ==> final(state).marked_set().contains(n),
            old(state).order@.is_prefix_of(final(state).order@),
            match r {
                Ok(()) => {
                    &&& self.active_inv(*final(state), stack)
                    &&& final(state).marked_set().contains(node) || node == self.output_spec()
                    &&& (!old(state).marked_set().contains(node) && !stack.to_set().contains(node))
                        ==> (final(state).order@.len() > 0 && final(state).order@.last() == node
                        && final(state).marked_set().contains(node))
                },
                Err(e) => {
                    let (cyc, complete) = e;
                    &&& cyc@.len() > 0
                    &&& forall|i: int, j: int|
                        0 <= i < j < cyc@.len() ==> #[trigger] cyc@[i] != #[trigger] cyc@[j]
                    &&& forall|i: int|
                        0 <= i < cyc@.len() - 1 ==> self.has_edge(#[trigger] cyc@[i], cyc@[i + 1])
                    &&& forall|i: int|
                        0 <= i < cyc@.len() ==> #[trigger] cyc@[i] != self.output_spec()
                            && reaches_upstream(
                            self.links_index(),
                            self.output_spec(),
                            cyc@[i],
                        )
                    &&& complete ==> self.has_edge(cyc@.last(), cyc@[0])
                    &&& !complete ==> cyc@.last() == node && stack.to_set().contains(cyc@[0])
                        && (forall|i: int|
                        1 <= i < cyc@.len() ==> !stack.to_set().contains(#[trigger] cyc@[i]))
                },
            },
        decreases self.topo_universe().difference(state.visiting_set()).len(),
    {
        if state.marked.contains_key(&node) {
            proof {
                assert(state.marked_set().contains(node)) by {
                    let i = choose|i: int|
                        0 <= i < state.marked@.len() && (#[trigger] state.marked@[i]).0 == node;
                }
            }
            return Ok(());
        }
        proof {
            assert(!state.marked_set().contains(node)) by {
                if state.marked_set().contains(node) {
                    let i = choose|i: int|
                        0 <= i < state.marked@.len() && (#[trigger] state.marked@[i]).0 == node;
                }
            }
        }
        if state.visiting.contains_key(&node) {
            proof {
                assert(state.visiting_set().contains(node)) by {
                    let i = choose|i: int|
                        0 <= i < state.visiting@.len() && (#[trigger] state.visiting@[i]).0
                            == node;
                }
                assert(stack.to_set().contains(node));
            }
            if node == state.io_node {
                // this is actually the graph input; do not follow links
                return Ok(());
            }
            // a cycle was detected; if the node references itself, it is
            // already complete
            let ins = self.links.get_ins(node);
            let mut is_complete_cycle = false;
            let mut t: usize = 0;
            while t < ins.len()
                invariant
                    t <= ins@.len(),
                    forall|i: int|
                        0 <= i < ins@.len() ==> self.links_index().has_link(
                            (#[trigger] ins@[i]).0,
                            node,
                            ins@[i].1,
                        ),
                    is_complete_cycle ==> self.has_edge(node, node),
                decreases ins@.len() - t,
            {
                if ins[t].0 == node {
                    is_complete_cycle = true;
                }
                t += 1;
            }
            let mut cyc: Vec<NodeRef> = Vec::new();
            cyc.push(node);
            return Err((cyc, is_complete_cycle));
        }
        proof {
            assert(!state.visiting_set().contains(node)) by {
                if state.visiting_set().contains(node) {
                    let i = choose|i: int|
                        0 <= i < state.visiting@.len() && (#[trigger] state.visiting@[i]).0
                            == node;
                }
            }
            assert(!stack.to_set().contains(node));
        }
        state.visiting.insert(node, ());
        let ghost stack2 = stack.push(node);
        proof {
            assert forall|n: NodeRef|
                state.visiting_set().contains(n) <==> (old(state).visiting_set().contains(n) || n
                    == node) by {
                if state.visiting_set().contains(n) {
                    let i = choose|i: int|
                        0 <= i < state.visiting@.len() && (#[trigger] state.visiting@[i]).0 == n;
                    assert(state.visiting.spec_contains_key(n));
                    if n != node {
                        assert(old(state).visiting.spec_contains_key(n));
                        let w = choose|w: int|
                            0 <= w < old(state).visiting@.len() && (#[trigger] old(
                                state,
                            ).visiting@[w]).0 == n;
                    }
                }
                if old(state).visiting_set().contains(n) {
                    let i = choose|i: int|
                        0 <= i < old(state).visiting@.len() && (#[trigger] old(
                            state,
                        ).visiting@[i]).0 == n;
                    assert(old(state).visiting.spec_contains_key(n));
                    assert(state.visiting.spec_contains_key(n));
                    let w = choose|w: int|
                        0 <= w < state.visiting@.len() && (#[trigger] state.visiting@[w]).0 == n;
                }
                if n == node {
                    assert(state.visiting.spec_contains_key(n));
                    let w = choose|w: int|
                        0 <= w < state.visiting@.len() && (#[trigger] state.visiting@[w]).0 == n;
                }
            }
            lemma_push_to_set(stack, node);
            assert(state.visiting_set() == stack2.to_set().union(state.marked_set())) by {
                assert forall|n: NodeRef|
                    state.visiting_set().contains(n) implies stack2.to_set().union(
                    state.marked_set(),
                ).contains(n) by {
                    if n != node {
                        assert(old(state).visiting_set().contains(n));
                        assert(stack.to_set().union(old(state).marked_set()).contains(n));
                    }
                }
                assert forall|n: NodeRef|
                    stack2.to_set().union(state.marked_set()).contains(n) implies
                    state.visiting_set().contains(n) by {
                    if n != node {
                        if stack2.to_set().contains(n) {
                            assert(stack.to_set().contains(n));
                        }
                        assert(stack.to_set().union(old(state).marked_set()).contains(n));
                        assert(old(state).visiting_set().contains(n));
                    }
                }
                assert(state.visiting_set() =~= stack2.to_set().union(state.marked_set()));
            }
            assert(stack2.to_set().disjoint(state.marked_set())) by {
                assert forall|n: NodeRef|
                    stack2.to_set().contains(n) implies !state.marked_set().contains(n) by {
                    if n != node {
                        assert(stack.to_set().contains(n));
                    }
                }
            }
            assert forall|i: int| 0 <= i < stack2.len() - 1 implies #[trigger] self.has_edge(
                stack2[i + 1],
                stack2[i],
            ) by {
                if i < stack.len() - 1 {
                    assert(stack2[i] == stack[i] && stack2[i + 1] == stack[i + 1]);
                } else {
                    assert(stack2[i] == stack.last() && stack2[i + 1] == node);
                }
            }
            assert(self.active_inv(*state, stack2));
        }
        let ins = self.links.get_ins(node);
        let ghost entry_marked = state.marked_set();
        let ghost entry_order = state.order@;
        proof {
            if stack.len() > 0 && node == self.output_spec() {
                assert(stack.to_set().contains(stack[0]));
                assert(false);
            }
        }
        let mut i: usize = 0;
        while i < ins.len()
            invariant
                i <= ins@.len(),
                self.wf(),
                self.marks_inv(*state),
                self.active_inv(*state, stack2),
                stack2 == stack.push(node),
                stack.len() > 0 ==> node != self.output_spec(),
                stack.len() > 0 ==> stack[0] == self.output_spec(),
                !stack.to_set().contains(node),
                reaches_upstream(self.links_index(), self.output_spec(), node),
                forall|t: int|
                    0 <= t < ins@.len() ==> self.links_index().has_link(
                        (#[trigger] ins@[t]).0,
                        node,
                        ins@[t].1,
                    ),
                forall|a: NodeRef, l: Link|
                    self.links_index().has_link(a, node, l) ==> ins@.contains((a, l)),
                forall|t: int|
                    0 <= t < i ==> state.marked_set().contains((#[trigger] ins@[t]).0)
                        || ins@[t].0 == self.output_spec(),
                forall|n: NodeRef| entry_marked.contains(n) ==> state.marked_set().contains(n),
                entry_order.is_prefix_of(state.order@),
                old(state).visiting_set() == stack.to_set().union(entry_marked),
                !old(state).visiting_set().contains(node),
                entry_marked == old(state).marked_set(),
                entry_order == old(state).order@,
                stack.len() > 0 ==> self.has_edge(node, stack.last()),
                stack.len() == 0 ==> node == self.output_spec(),
            decreases ins@.len() - i,
        {
            let (input, _l) = ins[i];
            proof {
                assert(self.links_index().has_link(input, node, _l));
                assert(self.has_edge(input, node)) by {
                    assert(self.links_index().has_link(input, node, _l));
                }
                assert(stack2.last() == node);
                lemma_reaches_step(self.links_index(), self.output_spec(), node, input);
                // the measure shrinks: the universe is finite and the
                // visiting set has grown past this call's entry state
                lemma_push_to_set(stack, node);
                self.lemma_topo_universe_finite();
                let u = self.topo_universe();
                let dcur = u.difference(state.visiting_set());
                let dent = u.difference(old(state).visiting_set());
                assert(u.contains(node)) by {
                    if stack.len() > 0 {
                        assert(self.has_edge(node, stack.last()));
                        let l2 = choose|l2: Link|
                            self.links_index().has_link(node, stack.last(), l2);
                        let e = ((LinkKey { from_out: node, to_in: stack.last() }), l2);
                        assert(self.links_index().fwd_view().contains(e));
                        let w = choose|w: int|
                            0 <= w < self.links_index().fwd_view().len()
                                && self.links_index().fwd_view()[w] == e;
                        assert(self.links_index().fwd_view()[w].0.from_out == node);
                    } else {
                        assert(node == self.output_spec());
                    }
                }
                assert(state.visiting_set().contains(node)) by {
                    assert(stack2.to_set().contains(node));
                }
                assert forall|n: NodeRef| dcur.contains(n) implies dent.remove(node).contains(
                    n,
                ) by {
                    if old(state).visiting_set().contains(n) {
                        assert(stack.to_set().union(entry_marked).contains(n));
                        if stack.to_set().contains(n) {
                            assert(stack2.to_set().contains(n));
                        } else {
                            assert(entry_marked.contains(n));
                            assert(state.marked_set().contains(n));
                        }
                        assert(state.visiting_set().contains(n));
                        assert(false);
                    }
                }
                assert(dcur.subset_of(dent.remove(node)));
                vstd::set_lib::lemma_len_subset(dent, u);
                vstd::set_lib::lemma_len_subset(dcur, dent.remove(node));
                assert(dent.contains(node));
                assert(dent.remove(node).len() == dent.len() - 1);
                assert(dcur.len() < dent.len());
            }
            let cr = self.toposort(input, state, Ghost(stack2));
            match cr {
                Ok(()) => {
                    proof {
                        assert(state.marked_set().contains(input) || input
                            == self.output_spec());
                        assert forall|t: int|
                            0 <= t < i + 1 implies state.marked_set().contains(
                            (#[trigger] ins@[t]).0,
                        ) || ins@[t].0 == self.output_spec() by {
                            if t < i {
                                assert(state.marked_set().contains(ins@[t].0) || ins@[t].0
                                    == self.output_spec());
                            } else {
                                assert(ins@[t] == (input, _l));
                            }
                        }
                    }
                }
                Err(e) => {
                    let (mut cyc, mut complete) = e;
                    proof {
                        assert(cyc@.len() > 0);
                    }
                    if !complete {
                        if cyc[0] == node {
                            complete = true;
                            proof {
                                assert(cyc@.last() == input);
                                assert(self.has_edge(cyc@.last(), cyc@[0])) by {
                                    assert(self.links_index().has_link(input, node, _l));
                                }
                            }
                        } else {
                            proof {
                                assert(stack2.to_set().contains(cyc@[0]));
                                assert(stack.to_set().contains(cyc@[0]));
                                if stack.len() == 0 {
                                    assert(false);
                                }
                                assert(node != self.output_spec());
                            }
                            let ghost cyc0 = cyc@;
                            cyc.push(node);
                            proof {
                                assert forall|t: int|
                                    0 <= t < cyc@.len() - 1 implies self.has_edge(
                                    #[trigger] cyc@[t],
                                    cyc@[t + 1],
                                ) by {
                                    if t < cyc0.len() - 1 {
                                        assert(cyc@[t] == cyc0[t] && cyc@[t + 1] == cyc0[t + 1]);
                                    } else {
                                        assert(cyc@[t] == cyc0.last() && cyc@[t + 1] == node);
                                        assert(cyc0.last() == input);
                                        assert(self.has_edge(input, node)) by {
                                            assert(self.links_index().has_link(input, node, _l));
                                        }
                                    }
                                }
                                assert(cyc@.last() == node);
                                assert(cyc@[0] == cyc0[0]);
                                // the pushed node is new: everything after the
                                // head lies strictly below this frame
                                lemma_push_to_set(stack, node);
                                assert forall|t: int, t2: int|
                                    0 <= t < t2 < cyc@.len() implies #[trigger] cyc@[t]
                                    != #[trigger] cyc@[t2] by {
                                    if t2 == cyc@.len() - 1 {
                                        assert(cyc@[t2] == node);
                                        if t == 0 {
                                            assert(cyc@[t] == cyc0[0]);
                                        } else {
                                            assert(cyc@[t] == cyc0[t]);
                                            assert(!stack2.to_set().contains(cyc0[t]));
                                            assert(stack2.to_set().contains(node));
                                        }
                                    } else {
                                        assert(cyc@[t] == cyc0[t] && cyc@[t2] == cyc0[t2]);
                                    }
                                }
                                assert forall|t: int|
                                    1 <= t < cyc@.len() implies !stack.to_set().contains(
                                    #[trigger] cyc@[t],
                                ) by {
                                    if t < cyc@.len() - 1 {
                                        assert(cyc@[t] == cyc0[t]);
                                        assert(!stack2.to_set().contains(cyc0[t]));
                                        if stack.to_set().contains(cyc0[t]) {
                                            assert(stack2.to_set().contains(cyc0[t]));
                                        }
                                    } else {
                                        assert(cyc@[t] == node);
                                    }
                                }
                            }
                        }
                    }
                    return Err((cyc, complete));
                }
            }
            i += 1;
        }
        let ghost pre_marked = state.marked;
        let ghost pre_order = state.order@;
        state.marked.insert(node, ());
        state.order.push(node);
        proof {
            lemma_push_to_set(stack, node);
            lemma_key_set_insert(pre_marked, state.marked, node);
            assert(state.marked_set() == key_set(pre_marked@).insert(node));
            // the visiting set now splits over the shorter stack
            assert(state.visiting_set() == stack.to_set().union(state.marked_set())) by {
                assert(state.visiting_set() =~= stack.to_set().union(state.marked_set())) by {
                    assert forall|n: NodeRef| state.visiting_set().contains(n) implies
                        stack.to_set().union(state.marked_set()).contains(n) by {
                        assert(stack2.to_set().union(key_set(pre_marked@)).contains(n));
                        if n == node {
                            assert(state.marked_set().contains(n));
                        }
                    }
                    assert forall|n: NodeRef|
                        stack.to_set().union(state.marked_set()).contains(n) implies
                        state.visiting_set().contains(n) by {
                        if stack.to_set().contains(n) {
                            assert(stack2.to_set().contains(n));
                        } else {
                            assert(state.marked_set().contains(n));
                            if n == node {
                                assert(stack2.to_set().contains(n));
                            } else {
                                assert(key_set(pre_marked@).contains(n));
                            }
                        }
                    }
                }
            }
            assert(stack.to_set().disjoint(state.marked_set())) by {
                assert forall|n: NodeRef| stack.to_set().contains(n) implies !state.marked_set().contains(
                    n,
                ) by {
                    assert(stack2.to_set().contains(n));
                    assert(!key_set(pre_marked@).contains(n));
                    assert(n != node);
                }
            }
            // the order bookkeeping absorbs the new node
            assert(!pre_order.contains(node)) by {
                if pre_order.contains(node) {
                    assert(key_set(pre_marked@).contains(node));
                    assert(stack2.to_set().disjoint(key_set(pre_marked@)));
                    assert(stack2.to_set().contains(node));
                }
            }
            assert forall|t: int, j: int|
                0 <= t < j < state.order@.len() implies #[trigger] state.order@[t]
                != #[trigger] state.order@[j] by {
                if j < state.order@.len() - 1 {
                    assert(state.order@[t] == pre_order[t] && state.order@[j] == pre_order[j]);
                } else {
                    assert(state.order@[j] == node);
                    assert(state.order@[t] == pre_order[t]);
                    assert(pre_order.contains(pre_order[t]));
                }
            }
            assert forall|n: NodeRef| #[trigger] state.order@.contains(n) <==> state.marked_set().contains(
                n,
            ) by {
                if state.order@.contains(n) {
                    let t = choose|t: int| 0 <= t < state.order@.len() && state.order@[t] == n;
                    if t < state.order@.len() - 1 {
                        assert(pre_order[t] == n);
                        assert(pre_order.contains(n));
                        assert(key_set(pre_marked@).contains(n));
                    } else {
                        assert(n == node);
                    }
                }
                if state.marked_set().contains(n) {
                    if n == node {
                        assert(state.order@[state.order@.len() - 1] == n);
                    } else {
                        assert(key_set(pre_marked@).contains(n));
                        assert(pre_order.contains(n));
                        let t = choose|t: int| 0 <= t < pre_order.len() && pre_order[t] == n;
                        assert(state.order@[t] == n);
                    }
                }
            }
            assert forall|t: int, a: NodeRef|
                0 <= t < state.order@.len() && #[trigger] self.has_edge(a, state.order@[t]) && a
                    != self.output_spec() implies exists|j: int|
                0 <= j < t && #[trigger] state.order@[j] == a by {
                if t < state.order@.len() - 1 {
                    assert(state.order@[t] == pre_order[t]);
                    assert(self.has_edge(a, pre_order[t]));
                    let j = choose|j: int| 0 <= j < t && #[trigger] pre_order[j] == a;
                    assert(state.order@[j] == a);
                } else {
                    assert(state.order@[t] == node);
                    // every input of this node was processed and is marked
                    let l = choose|l: Link| self.links_index().has_link(a, node, l);
                    assert(ins@.contains((a, l)));
                    let w = choose|w: int| 0 <= w < ins@.len() && ins@[w] == (a, l);
                    assert(state.marked_set().contains(a) || a == self.output_spec()) by {
                        assert(key_set(pre_marked@).contains(ins@[w].0) || ins@[w].0
                            == self.output_spec());
                        if key_set(pre_marked@).contains(a) {
                            lemma_key_set_member(pre_marked, a);
                            assert(state.marked.spec_contains_key(a));
                            lemma_key_set_member(state.marked, a);
                        }
                    }
                    assert(key_set(pre_marked@).contains(a));
                    assert(pre_order.contains(a));
                    let j = choose|j: int| 0 <= j < pre_order.len() && pre_order[j] == a;
                    assert(state.order@[j] == a);
                    assert(j < t);
                }
            }
            assert forall|t: int| 0 <= t < state.order@.len() implies reaches_upstream(
                self.links_index(),
                self.output_spec(),
                #[trigger] state.order@[t],
            ) by {
                if t < state.order@.len() - 1 {
                    assert(state.order@[t] == pre_order[t]);
                }
            }
            assert(pre_order.is_prefix_of(state.order@));
            assert(entry_order.is_prefix_of(state.order@)) by {
                assert forall|t: int| 0 <= t < entry_order.len() implies entry_order[t]
                    == state.order@[t] by {
                    assert(entry_order[t] == pre_order[t]);
                }
            }
        }
        Ok(())
    }
}

/// Every node on an upstream path is itself backward-reachable.
pub proof fn lemma_path_nodes_reachable(lks: Links, p: Seq<NodeRef>, i: int)
    requires
        is_upstream_path(lks, p),
        p.len() > 0,
        0 <= i < p.len(),
    ensures
        reaches_upstream(lks, p[0], p[i]),
{
    let q = p.take(i + 1);
    assert forall|t: int| 0 <= t < q.len() - 1 implies lks.has_edge(#[trigger] q[t + 1], q[t]) by {
        assert(q[t] == p[t] && q[t + 1] == p[t + 1]);
    }
    assert(is_upstream_path(lks, q));
    assert(q[0] == p[0] && q.last() == p[i]);
}

impl Graph {
    /// A producers-before-consumers order whose entries are marked contains
    /// every node backward-reachable from the root, once the root is in it.
    proof fn lemma_order_covers_path(self, o: Seq<NodeRef>, p: Seq<NodeRef>)
        requires
            is_upstream_path(self.links_index(), p),
            p.len() > 0,
            p[0] == self.output_spec(),
            o.contains(self.output_spec()),
            forall|i: int, a: NodeRef|
                0 <= i < o.len() && #[trigger] self.has_edge(a, o[i]) && a != self.output_spec()
                    ==> exists|j: int| 0 <= j < i && #[trigger] o[j] == a,
        ensures
            o.contains(p.last()),
        decreases p.len(),
    {
        if p.len() == 1 {
        } else {
            let q = p.drop_last();
            assert forall|t: int| 0 <= t < q.len() - 1 implies self.links_index().has_edge(
                #[trigger] q[t + 1],
                q[t],
            ) by {
                assert(q[t] == p[t] && q[t + 1] == p[t + 1]);
            }
            assert(is_upstream_path(self.links_index(), q));
            assert(q[0] == p[0]);
            self.lemma_order_covers_path(o, q);
            let a = p.last();
            let b = q.last();
            assert(b == p[p.len() - 2]);
            assert(self.has_edge(a, b)) by {
                assert(self.links_index().has_edge(p[p.len() - 2 + 1], p[p.len() - 2]));
            }
            if a != self.output_spec() {
                let i = choose|i: int| 0 <= i < o.len() && o[i] == b;
                assert(self.has_edge(a, o[i]));
                let j = choose|j: int| 0 <= j < i && #[trigger] o[j] == a;
                assert(o.contains(o[j]));
            }
        }
    }

    /// Updates the evaluation order with respect to the output node.
    ///
    /// A cached order is kept as is; otherwise a depth-first topological sort
    /// runs from the output node, and a cycle is returned as the ordered list
    /// of its participants.
    pub fn update_order(&mut self) -> (r: Result<(), OrderError>)
        requires
            old(self).wf(),
        ensures
            final(self).wf(),
            final(self).nodes_view() == old(self).nodes_view(),
            final(self).links_index() == old(self).links_index(),
            final(self).output_spec() == old(self).output_spec(),
            final(self).dirty_view() == old(self).dirty_view(),
            old(self).order_view() is Some ==> (r is Ok && final(self).order_view() == old(
                self,
            ).order_view()),
            match r {
                Ok(()) => final(self).order_view() is Some && final(self).order_ok(
                    final(self).order_view()->Some_0,
                ),
                Err(e) => {
                    let c = e->Cycle_0;
                    &&& final(self).order_view() is None
                    &&& is_cycle(final(self).links_index(), c@)
                    &&& forall|i: int, j: int|
                        0 <= i < j < c@.len() ==> #[trigger] c@[i] != #[trigger] c@[j]
                    &&& forall|i: int|
                        0 <= i < c@.len() ==> #[trigger] c@[i] != final(self).output_spec()
                            && reaches_upstream(
                            final(self).links_index(),
                            final(self).output_spec(),
                            c@[i],
                        )
                },
            },
    {
        if self.order.is_some() {
            return Ok(());
        }
        let mut state = ToposortState {
            order: Vec::new(),
            visiting: BSMap::new(),
            marked: BSMap::new(),
            io_node: self.io_node,
        };
        proof {
            assert(self.marks_inv(state));
            assert(state.visiting_set() =~= Seq::<NodeRef>::empty().to_set().union(
                state.marked_set(),
            ));
            assert(self.active_inv(state, Seq::<NodeRef>::empty()));
            lemma_reaches_self(self.links_index(), self.output_spec());
        }
        let root = self.io_node;
        match self.toposort(root, &mut state, Ghost(Seq::<NodeRef>::empty())) {
            Ok(()) => {
                proof {
                    assert(state.marked_set().contains(root));
                    assert(state.order@.len() > 0 && state.order@.last() == root);
                    assert(state.order@.contains(root));
                    // the order covers everything backward-reachable
                    assert forall|n: NodeRef| #[trigger] state.order@.contains(n) <==>
                        reaches_upstream(
                        self.links_index(),
                        self.output_spec(),
                        n,
                    ) by {
                        if reaches_upstream(self.links_index(), self.output_spec(), n) {
                            let p = choose|p: Seq<NodeRef>|
                                p.len() > 0 && p[0] == self.output_spec() && p.last() == n
                                    && #[trigger] is_upstream_path(self.links_index(), p);
                            self.lemma_order_covers_path(state.order@, p);
                        }
                        if state.order@.contains(n) {
                            let i = choose|i: int|
                                0 <= i < state.order@.len() && state.order@[i] == n;
                        }
                    }
                    assert(self.order_ok(state.order@));
                }
                self.order = Some(state.order);
                proof {
                    Graph::lemma_order_ok_same_topology(*old(self), *self, self.order_view()->Some_0);
                }
                Ok(())
            }
            Err((cycle, complete)) => {
                proof {
                    if !complete {
                        assert(Seq::<NodeRef>::empty().to_set().contains(cycle@[0]));
                        assert(false);
                    }
                    assert(is_cycle(self.links_index(), cycle@));
                }
                Err(OrderError::Cycle(cycle))
            }
        }
    }
}

/// For all graphs whose output-reachable part is acyclic, a computed order
/// puts the source of every link before its destination.
pub proof fn lemma_order_respects_links(g: Graph, o: Seq<NodeRef>, a: NodeRef, b: NodeRef)
    requires
        g.wf(),
        g.order_view() == Some(o),
        forall|c: Seq<NodeRef>|
            #[trigger] is_cycle(g.links_index(), c) ==> exists|i: int|
                0 <= i < c.len() && !reaches_upstream(
                    g.links_index(),
                    g.output_spec(),
                    #[trigger] c[i],
                ),
        g.has_edge(a, b),
        o.contains(a),
        o.contains(b),
    ensures
        exists|i: int, j: int| 0 <= i < j < o.len() && o[i] == a && o[j] == b,
{
    let jb = choose|jb: int| 0 <= jb < o.len() && o[jb] == b;
    if a == g.output_spec() {
        // an edge from the output back into its own upstream would close a
        // reachable cycle
        assert(reaches_upstream(g.links_index(), g.output_spec(), b));
        let p = choose|p: Seq<NodeRef>|
            p.len() > 0 && p[0] == g.output_spec() && p.last() == b && #[trigger] is_upstream_path(
                g.links_index(),
                p,
            );
        let c = p.reverse();
        assert forall|t: int| 0 <= t < c.len() - 1 implies g.links_index().has_edge(
            #[trigger] c[t],
            c[t + 1],
        ) by {
            assert(c[t] == p[p.len() - 1 - t]);
            assert(c[t + 1] == p[p.len() - 2 - t]);
            assert(g.links_index().has_edge(p[(p.len() - 2 - t) + 1], p[p.len() - 2 - t]));
        }
        assert(c.last() == p[0] && c[0] == p.last());
        assert(g.links_index().has_edge(c.last(), c[0]));
        assert(is_cycle(g.links_index(), c));
        let i = choose|i: int|
            0 <= i < c.len() && !reaches_upstream(
                g.links_index(),
                g.output_spec(),
                #[trigger] c[i],
            );
        lemma_path_nodes_reachable(g.links_index(), p, p.len() - 1 - i);
        assert(false);
    } else {
        assert(g.order_ok(o));
        assert(g.has_edge(a, o[jb]));
        let i = choose|i: int| 0 <= i < jb && #[trigger] o[i] == a;
    }
}

/// For all graphs with an output-reachable cycle that avoids the output node
/// itself, no valid cached order can exist, so `update_order` must fail.
pub proof fn lemma_reachable_cycle_defeats_order(g: Graph, c: Seq<NodeRef>)
    requires
        g.wf(),
        is_cycle(g.links_index(), c),
        forall|i: int|
            0 <= i < c.len() ==> reaches_upstream(
                g.links_index(),
                g.output_spec(),
                #[trigger] c[i],
            ),
        forall|i: int| 0 <= i < c.len() ==> #[trigger] c[i] != g.output_spec(),
    ensures
        g.order_view() is None,
{
    match g.order_view() {
        Some(o) => {
            assert(g.order_ok(o));
            // find the cycle participant placed earliest in the order; its
            // cycle predecessor would have to come even earlier
            let k = lemma_min_order_position(g, o, c, c.len() as int);
            let pk = choose|pk: int| 0 <= pk < o.len() && o[pk] == c[k];
            let pred: int = if k == 0 {
                c.len() - 1
            } else {
                k - 1
            };
            assert(g.has_edge(c[pred], c[k])) by {
                if k == 0 {
                    assert(g.links_index().has_edge(c.last(), c[0]));
                } else {
                    assert(g.links_index().has_edge(c[k - 1], c[(k - 1) + 1]));
                }
            }
            assert(g.has_edge(c[pred], o[pk]));
            let j = choose|j: int| 0 <= j < pk && #[trigger] o[j] == c[pred];
            let ppred = choose|ppred: int| 0 <= ppred < o.len() && o[ppred] == c[pred];
            assert(ppred == j) by {
                if ppred != j {
                    assert(o[ppred] != o[j]);
                }
            }
            assert(ppred < pk);
            assert(pk <= ppred);
        }
        None => {}
    }
}

/// Index (within the first `k` entries of the cycle) of the participant that
/// the order places earliest.
proof fn lemma_min_order_position(g: Graph, o: Seq<NodeRef>, c: Seq<NodeRef>, k: int) -> (r: int)
    requires
        g.wf(),
        g.order_view() == Some(o),
        g.order_ok(o),
        1 <= k <= c.len(),
        forall|i: int|
            0 <= i < c.len() ==> reaches_upstream(
                g.links_index(),
                g.output_spec(),
                #[trigger] c[i],
            ),
    ensures
        0 <= r < k,
        o.contains(c[r]),
        forall|i: int, pi: int, pr: int|
            #![trigger c[i], o[pi], o[pr]]
            0 <= i < k && 0 <= pi < o.len() && 0 <= pr < o.len() && o[pi] == c[i] && o[pr] == c[r]
                ==> pr <= pi,
    decreases k,
{
    assert(o.contains(c[k - 1]));
    if k == 1 {
        0
    } else {
        let r0 = lemma_min_order_position(g, o, c, k - 1);
        let p0 = choose|p0: int| 0 <= p0 < o.len() && o[p0] == c[r0];
        let p1 = choose|p1: int| 0 <= p1 < o.len() && o[p1] == c[k - 1];
        if p1 < p0 {
            assert forall|i: int, pi: int, pr: int|
                #![trigger c[i], o[pi], o[pr]]
                0 <= i < k && 0 <= pi < o.len() && 0 <= pr < o.len() && o[pi] == c[i] && o[pr]
                    == c[k - 1] implies pr <= pi by {
                assert(pr == p1) by {
                    if pr != p1 {
                        assert(o[pr] != o[p1]);
                    }
                }
                if i < k - 1 {
                    assert(p0 <= pi);
                }
            }
            k - 1
        } else {
            assert forall|i: int, pi: int, pr: int|
                #![trigger c[i], o[pi], o[pr]]
                0 <= i < k && 0 <= pi < o.len() && 0 <= pr < o.len() && o[pi] == c[i] && o[pr]
                    == c[r0] implies pr <= pi by {
                assert(pr == p0) by {
                    if pr != p0 {
                        assert(o[pr] != o[p0]);
                    }
                }
                if i == k - 1 {
                    assert(pi == p1) by {
                        if pi != p1 {
                            assert(o[pi] != o[p1]);
                        }
                    }
                }
            }
            r0
        }
    }
}

/// A sequence of nodes in which each node feeds the next one.
pub open spec fn is_downstream_path(lks: Links, p: Seq<NodeRef>) -> bool {
    forall|i: int| 0 <= i < p.len() - 1 ==> lks.has_edge(#[trigger] p[i], p[i + 1])
}

/// Whether `n` is forward-reachable from `a` by walking outputs.
pub open spec fn reaches_downstream(lks: Links, a: NodeRef, n: NodeRef) -> bool {
    exists|p: Seq<NodeRef>|
        p.len() > 0 && p[0] == a && p.last() == n && #[trigger] is_downstream_path(lks, p)
}

/// Downstream reachability is reflexive.
pub proof fn lemma_reaches_downstream_self(lks: Links, a: NodeRef)
    ensures
        reaches_downstream(lks, a, a),
{
    let p = seq![a];
    assert(is_downstream_path(lks, p));
    assert(p[0] == a && p.last() == a);
}

/// Downstream reachability extends along an output edge.
pub proof fn lemma_reaches_downstream_step(lks: Links, a: NodeRef, n: NodeRef, m: NodeRef)
    requires
        reaches_downstream(lks, a, n),
        lks.has_edge(n, m),
    ensures
        reaches_downstream(lks, a, m),
{
    let p = choose|p: Seq<NodeRef>|
        p.len() > 0 && p[0] == a && p.last() == n && #[trigger] is_downstream_path(lks, p);
    let q = p.push(m);
    assert forall|i: int| 0 <= i < q.len() - 1 implies lks.has_edge(#[trigger] q[i], q[i + 1]) by {
        if i < p.len() - 1 {
            assert(q[i] == p[i] && q[i + 1] == p[i + 1]);
        } else {
            assert(q[i] == p.last() && q[i + 1] == m);
        }
    }
    assert(is_downstream_path(lks, q));
    assert(q[0] == a && q.last() == m);
}

/// Downstream reachability is transitive.
pub proof fn lemma_reaches_downstream_trans(lks: Links, a: NodeRef, b: NodeRef, c: NodeRef)
    requires
        reaches_downstream(lks, a, b),
        reaches_downstream(lks, b, c),
    ensures
        reaches_downstream(lks, a, c),
{
    let p = choose|p: Seq<NodeRef>|
        p.len() > 0 && p[0] == a && p.last() == b && #[trigger] is_downstream_path(lks, p);
    let q = choose|q: Seq<NodeRef>|
        q.len() > 0 && q[0] == b && q.last() == c && #[trigger] is_downstream_path(lks, q);
    let w = p + q.skip(1);
    assert forall|i: int| 0 <= i < w.len() - 1 implies lks.has_edge(#[trigger] w[i], w[i + 1]) by {
        if i < p.len() - 1 {
            assert(w[i] == p[i] && w[i + 1] == p[i + 1]);
        } else if i == p.len() - 1 {
            assert(w[i] == p.last());
            if q.len() > 1 {
                assert(w[i + 1] == q[1]);
                assert(lks.has_edge(q[0int], q[1int]));
            }
        } else {
            assert(w[i] == q[i - p.len() + 1]);
            assert(w[i + 1] == q[i - p.len() + 2]);
            assert(lks.has_edge(q[i - p.len() + 1], q[(i - p.len() + 1) + 1]));
        }
    }
    assert(is_downstream_path(lks, w));
    assert(w[0] == a);
    assert(w.last() == c) by {
        if q.len() == 1 {
            assert(w.last() == p.last());
        } else {
            assert(w.last() == q.last());
        }
    }
}

/// A set that contains a path's start and is closed under output edges
/// contains the path's end.
proof fn lemma_closed_set_covers_downstream(lks: Links, s: Set<NodeRef>, p: Seq<NodeRef>)
    requires
        is_downstream_path(lks, p),
        p.len() > 0,
        s.contains(p[0]),
        forall|n: NodeRef, m: NodeRef|
            s.contains(n) && #[trigger] lks.has_edge(n, m) ==> s.contains(m),
    ensures
        s.contains(p.last()),
    decreases p.len(),
{
    if p.len() == 1 {
    } else {
        let q = p.drop_last();
        assert forall|i: int| 0 <= i < q.len() - 1 implies lks.has_edge(
            #[trigger] q[i],
            q[i + 1],
        ) by {
            assert(q[i] == p[i] && q[i + 1] == p[i + 1]);
        }
        assert(is_downstream_path(lks, q));
        assert(q[0] == p[0]);
        lemma_closed_set_covers_downstream(lks, s, q);
        assert(lks.has_edge(p[p.len() - 2], p[(p.len() - 2) + 1]));
        assert(q.last() == p[p.len() - 2]);
    }
}

impl Graph {
    /// Every node that a forward walk can come across: the seeds plus every
    /// link destination.
    spec fn downstream_universe(self, seeds: Seq<NodeRef>) -> Set<NodeRef> {
        Set::new(
            |n: NodeRef|
                seeds.contains(n) || exists|i: int|
                    0 <= i < self.links_index().fwd_view().len() && (
                    #[trigger] self.links_index().fwd_view()[i]).0.to_in == n,
        )
    }

    proof fn lemma_downstream_universe_finite(self, seeds: Seq<NodeRef>)
        ensures
            self.downstream_universe(seeds).finite(),
    {
        let fv = self.links_index().fwd_view();
        let mapped = fv.map_values(|e: (LinkKey, Link)| e.0.to_in);
        vstd::seq_lib::seq_to_set_is_finite::<NodeRef>(mapped);
        vstd::seq_lib::seq_to_set_is_finite::<NodeRef>(seeds);
        assert(self.downstream_universe(seeds) =~= mapped.to_set().union(seeds.to_set())) by {
            assert forall|n: NodeRef| self.downstream_universe(seeds).contains(n) implies
                mapped.to_set().union(seeds.to_set()).contains(n) by {
                if !seeds.contains(n) {
                    let i = choose|i: int| 0 <= i < fv.len() && (#[trigger] fv[i]).0.to_in == n;
                    assert(mapped[i] == n);
                    assert(mapped.contains(n));
                }
            }
            assert forall|n: NodeRef|
                mapped.to_set().union(seeds.to_set()).contains(n) implies
                self.downstream_universe(seeds).contains(n) by {
                if mapped.contains(n) {
                    let i = choose|i: int| 0 <= i < mapped.len() && mapped[i] == n;
                    assert(fv[i].0.to_in == n);
                }
            }
        }
    }

    /// The forward walk's bookkeeping: entries are distinct nodes of the
    /// universe, each reachable from a seed, and the prefix before the cursor
    /// is closed under output edges.
    spec fn closure_inv(self, seeds: Seq<NodeRef>, result: Seq<NodeRef>, head: int) -> bool {
        &&& forall|i: int, j: int|
            0 <= i < j < result.len() ==> #[trigger] result[i] != #[trigger] result[j]
        &&& forall|t: int|
            0 <= t < result.len() ==> exists|i: int|
                0 <= i < seeds.len() && reaches_downstream(
                    self.links_index(),
                    #[trigger] seeds[i],
                    #[trigger] result[t],
                )
        &&& forall|t: int|
            0 <= t < result.len() ==> self.downstream_universe(seeds).contains(
                #[trigger] result[t],
            )
        &&& forall|t: int, m: NodeRef|
            0 <= t < head && #[trigger] self.links_index().has_edge(result[t], m)
                ==> result.contains(m)
    }

    /// One step of the forward walk: queue every successor of the node under
    /// the cursor that has not been seen yet.
    #[verifier::spinoff_prover]
    fn closure_step(
        &self,
        result: &mut Vec<NodeRef>,
        head: usize,
        Ghost(seeds): Ghost<Seq<NodeRef>>,
    )
        requires
            self.wf(),
            self.closure_inv(seeds, old(result)@, head as int),
            head < old(result)@.len(),
        ensures
            self.closure_inv(seeds, final(result)@, head + 1),
            old(result)@.is_prefix_of(final(result)@),
            final(result)@ == old(result)@ || self.downstream_universe(seeds).difference(
                final(result)@.to_set(),
            ).len() < self.downstream_universe(seeds).difference(
                old(result)@.to_set(),
            ).len(),
    {
        let ghost u = self.downstream_universe(seeds);
        let node = result[head];
        let outs = self.links.get_outs(node);
        let ghost r0 = result@;
        let mut t: usize = 0;
        while t < outs.len()
            invariant
                t <= outs@.len(),
                self.wf(),
                u == self.downstream_universe(seeds),
                head < r0.len(),
                r0.is_prefix_of(result@),
                node == r0[head as int],
                self.closure_inv(seeds, result@, head as int),
                forall|w: int|
                    0 <= w < outs@.len() ==> self.links_index().has_link(
                        node,
                        (#[trigger] outs@[w]).0,
                        outs@[w].1,
                    ),
                forall|w: int| 0 <= w < t ==> result@.contains((#[trigger] outs@[w]).0),
            decreases outs@.len() - t,
        {
            let (m, _l) = outs[t];
            if !contains_ref(&result, m) {
                let ghost r1 = result@;
                result.push(m);
                proof {
                    assert(result@.last() == m);
                    assert(r1.is_prefix_of(result@));
                    assert forall|i: int, j: int|
                        0 <= i < j < result@.len() implies #[trigger] result@[i]
                        != #[trigger] result@[j] by {
                        if j == result@.len() - 1 {
                            assert(result@[i] == r1[i]);
                            assert(r1.contains(r1[i]));
                        }
                    }
                    assert(self.links_index().has_link(node, m, _l));
                    assert(self.links_index().has_edge(node, m));
                    assert(r0[head as int] == node);
                    assert(result@[head as int] == node);
                    let i0 = choose|i0: int|
                        0 <= i0 < seeds.len() && reaches_downstream(
                            self.links_index(),
                            #[trigger] seeds[i0],
                            node,
                        );
                    lemma_reaches_downstream_step(self.links_index(), seeds[i0], node, m);
                    assert forall|w: int| 0 <= w < result@.len() implies u.contains(
                        #[trigger] result@[w],
                    ) by {
                        if w == result@.len() - 1 {
                            let e = ((LinkKey { from_out: node, to_in: m }), _l);
                            assert(self.links_index().fwd_view().contains(e));
                            let x = choose|x: int|
                                0 <= x < self.links_index().fwd_view().len()
                                    && self.links_index().fwd_view()[x] == e;
                            assert(self.links_index().fwd_view()[x].0.to_in == m);
                        }
                    }
                    assert forall|w: int| 0 <= w < t + 1 implies result@.contains(
                        (#[trigger] outs@[w]).0,
                    ) by {
                        if w < t {
                            let v = choose|v: int| 0 <= v < r1.len() && r1[v] == outs@[w].0;
                            assert(result@[v] == outs@[w].0);
                        } else {
                            assert(result@[result@.len() - 1] == outs@[w].0);
                        }
                    }
                    assert forall|t2: int, m2: NodeRef|
                        0 <= t2 < head && #[trigger] self.links_index().has_edge(result@[t2], m2)
                            implies result@.contains(m2) by {
                        assert(result@[t2] == r1[t2]);
                        assert(r1.contains(m2));
                        let v = choose|v: int| 0 <= v < r1.len() && r1[v] == m2;
                        assert(result@[v] == m2);
                    }
                }
            }
            t += 1;
        }
        proof {
            // the processed prefix, now including this node, is closed
            assert forall|t2: int, m: NodeRef|
                0 <= t2 < head + 1 && #[trigger] self.links_index().has_edge(result@[t2], m)
                    implies result@.contains(m) by {
                if t2 == head {
                    assert(result@[t2] == node);
                    let l = choose|l: Link| self.links_index().has_link(node, m, l);
                    assert(outs@.contains((m, l)));
                    let w = choose|w: int| 0 <= w < outs@.len() && outs@[w] == (m, l);
                    assert(result@.contains(outs@[w].0));
                }
            }
            // termination: anything gathered shrinks what is left of the
            // universe
            self.lemma_downstream_universe_finite(seeds);
            if result@.len() > r0.len() {
                assert(r0.to_set().subset_of(result@.to_set())) by {
                    assert forall|n: NodeRef| r0.to_set().contains(n) implies
                        result@.to_set().contains(n) by {
                        let v = choose|v: int| 0 <= v < r0.len() && r0[v] == n;
                        assert(result@[v] == n);
                    }
                }
                let grown = result@[r0.len() as int];
                assert(!r0.to_set().contains(grown)) by {
                    if r0.contains(grown) {
                        let v = choose|v: int| 0 <= v < r0.len() && r0[v] == grown;
                        assert(result@[v] == result@[r0.len() as int]);
                    }
                }
                assert(u.difference(result@.to_set()).subset_of(
                    u.difference(r0.to_set()).remove(grown),
                ));
                assert(u.difference(r0.to_set()).contains(grown)) by {
                    assert(u.contains(grown));
                }
                vstd::set_lib::lemma_len_subset(u.difference(r0.to_set()), u);
                vstd::set_lib::lemma_len_subset(
                    u.difference(result@.to_set()),
                    u.difference(r0.to_set()).remove(grown),
                );
            } else {
                assert(result@ =~= r0);
            }
        }
    }

    /// The set of nodes forward-reachable from any of the seeds, in zero or
    /// more steps, visiting each node once.
    #[verifier::spinoff_prover]
    pub fn downstream_closure(&self, seeds: &Vec<NodeRef>) -> (r: Vec<NodeRef>)
        requires
            self.wf(),
        ensures
            forall|n: NodeRef|
                r@.contains(n) <==> exists|i: int|
                    0 <= i < seeds@.len() && reaches_downstream(
                        self.links_index(),
                        #[trigger] seeds@[i],
                        n,
                    ),
            forall|i: int, j: int| 0 <= i < j < r@.len() ==> #[trigger] r@[i] != #[trigger] r@[j],
    {
        let mut result: Vec<NodeRef> = Vec::new();
        let mut s: usize = 0;
        while s < seeds.len()
            invariant
                s <= seeds@.len(),
                self.wf(),
                self.closure_inv(seeds@, result@, 0),
                forall|i: int| 0 <= i < s ==> result@.contains(#[trigger] seeds@[i]),
            decreases seeds@.len() - s,
        {
            let x = seeds[s];
            let ghost rpre = result@;
            if !contains_ref(&result, x) {
                result.push(x);
                proof {
                    lemma_reaches_downstream_self(self.links_index(), x);
                    assert(result@.last() == x);
                    assert(seeds@.contains(x));
                    assert forall|i: int, j: int|
                        0 <= i < j < result@.len() implies #[trigger] result@[i]
                        != #[trigger] result@[j] by {
                        if j == result@.len() - 1 {
                            assert(result@[i] == rpre[i]);
                            assert(rpre.contains(rpre[i]));
                        }
                    }
                    assert forall|t: int| 0 <= t < result@.len() implies self.downstream_universe(
                        seeds@,
                    ).contains(#[trigger] result@[t]) by {
                        if t == result@.len() - 1 {
                            assert(seeds@.contains(x));
                        } else {
                            assert(result@[t] == rpre[t]);
                        }
                    }
                }
            }
            proof {
                assert forall|i: int| 0 <= i < s + 1 implies result@.contains(
                    #[trigger] seeds@[i],
                ) by {
                    if i < s {
                        assert(rpre.contains(seeds@[i]));
                        let w = choose|w: int| 0 <= w < rpre.len() && rpre[w] == seeds@[i];
                        assert(result@[w] == seeds@[i]);
                    } else {
                        if rpre.contains(x) {
                            let w = choose|w: int| 0 <= w < rpre.len() && rpre[w] == x;
                            assert(result@[w] == x);
                        } else {
                            assert(result@[result@.len() - 1] == x);
                        }
                    }
                }
            }
            s += 1;
        }
        let mut head: usize = 0;
        while head < result.len()
            invariant
                head <= result@.len(),
                self.wf(),
                self.closure_inv(seeds@, result@, head as int),
                forall|i: int| 0 <= i < seeds@.len() ==> result@.contains(#[trigger] seeds@[i]),
            decreases self.downstream_universe(seeds@).difference(result@.to_set()).len(), result@.len() - head,
        {
            let ghost r0 = result@;
            self.closure_step(&mut result, head, Ghost(seeds@));
            head += 1;
            proof {
                assert forall|i: int| 0 <= i < seeds@.len() implies result@.contains(
                    #[trigger] seeds@[i],
                ) by {
                    let w = choose|w: int| 0 <= w < r0.len() && r0[w] == seeds@[i];
                    assert(result@[w] == seeds@[i]);
                }
            }
        }
        proof {
            assert forall|n: NodeRef|
                (exists|i: int|
                    0 <= i < seeds@.len() && reaches_downstream(
                        self.links_index(),
                        #[trigger] seeds@[i],
                        n,
                    )) implies result@.contains(n) by {
                let i = choose|i: int|
                    0 <= i < seeds@.len() && reaches_downstream(
                        self.links_index(),
                        #[trigger] seeds@[i],
                        n,
                    );
                let p = choose|p: Seq<NodeRef>|
                    p.len() > 0 && p[0] == seeds@[i] && p.last() == n
                        && #[trigger] is_downstream_path(self.links_index(), p);
                assert forall|n2: NodeRef, m: NodeRef|
                    result@.to_set().contains(n2) && #[trigger] self.links_index().has_edge(
                        n2,
                        m,
                    ) implies result@.to_set().contains(m) by {
                    let v = choose|v: int| 0 <= v < result@.len() && result@[v] == n2;
                    assert(self.links_index().has_edge(result@[v], m));
                }
                assert(result@.to_set().contains(seeds@[i]));
                lemma_closed_set_covers_downstream(self.links_index(), result@.to_set(), p);
            }
        }
        result
    }

    /// Propagates dirtiness of dirty nodes to all connected nodes: afterwards
    /// a node is dirty exactly when it is forward-reachable from a node that
    /// was dirty before.
    pub fn propagate_dirtiness(&mut self)
        requires
            old(self).wf(),
        ensures
            final(self).wf(),
            final(self).nodes_view() == old(self).nodes_view(),
            final(self).links_index() == old(self).links_index(),
            final(self).output_spec() == old(self).output_spec(),
            final(self).order_view() == old(self).order_view(),
            forall|n: NodeRef|
                final(self).is_dirty_spec(n) <==> exists|m: NodeRef|
                    #[trigger] old(self).is_dirty_spec(m) && reaches_downstream(
                        old(self).links_index(),
                        m,
                        n,
                    ),
    {
        let entries = self.dirty_nodes.iter();
        let mut seeds: Vec<NodeRef> = Vec::new();
        let mut j: usize = 0;
        while j < entries.len()
            invariant
                j <= entries@.len(),
                entries@ == self.dirty_nodes@,
                seeds@.len() == j,
                forall|w: int| 0 <= w < j ==> #[trigger] seeds@[w] == entries@[w].0,
            decreases entries@.len() - j,
        {
            seeds.push(entries[j].0);
            j += 1;
        }
        let closure = self.downstream_closure(&seeds);
        let mut fresh: BSMap<NodeRef, ()> = BSMap::new();
        let mut t: usize = 0;
        while t < closure.len()
            invariant
                t <= closure@.len(),
                crate::util::entries_sorted(fresh@),
                crate::util::keys_distinct(fresh@),
                forall|n: NodeRef|
                    fresh.spec_contains_key(n) <==> exists|w: int|
                        0 <= w < t && #[trigger] closure@[w] == n,
            decreases closure@.len() - t,
        {
            fresh.insert(closure[t], ());
            proof {
                assert forall|n: NodeRef|
                    fresh.spec_contains_key(n) <==> (exists|w: int|
                        0 <= w < t + 1 && #[trigger] closure@[w] == n) by {
                    if fresh.spec_contains_key(n) {
                        if n == closure@[t as int] {
                            assert(closure@[t as int] == n);
                        }
                    }
                    if exists|w: int| 0 <= w < t + 1 && #[trigger] closure@[w] == n {
                        let w = choose|w: int| 0 <= w < t + 1 && #[trigger] closure@[w] == n;
                    }
                }
            }
            t += 1;
        }
        self.dirty_nodes = fresh;
        proof {
            assert forall|n: NodeRef|
                self.is_dirty_spec(n) <==> exists|m: NodeRef|
                    #[trigger] old(self).is_dirty_spec(m) && reaches_downstream(
                        old(self).links_index(),
                        m,
                        n,
                    ) by {
                self.lemma_dirty_key_bridge(n);
                if self.dirty_nodes.spec_contains_key(n) {
                    let w = choose|w: int| 0 <= w < closure@.len() && #[trigger] closure@[w] == n;
                    assert(closure@.contains(n));
                    let i = choose|i: int|
                        0 <= i < seeds@.len() && reaches_downstream(
                            old(self).links_index(),
                            #[trigger] seeds@[i],
                            n,
                        );
                    assert(old(self).dirty_view()[i].0 == seeds@[i]);
                    assert(old(self).is_dirty_spec(seeds@[i]));
                }
                if exists|m: NodeRef|
                    #[trigger] old(self).is_dirty_spec(m) && reaches_downstream(
                        old(self).links_index(),
                        m,
                        n,
                    ) {
                    let m = choose|m: NodeRef|
                        #[trigger] old(self).is_dirty_spec(m) && reaches_downstream(
                            old(self).links_index(),
                            m,
                            n,
                        );
                    let i = choose|i: int|
                        0 <= i < old(self).dirty_view().len() && (#[trigger] old(
                            self,
                        ).dirty_view()[i]).0 == m;
                    assert(seeds@[i] == m);
                    assert(closure@.contains(n));
                    let w = choose|w: int| 0 <= w < closure@.len() && closure@[w] == n;
                }
            }
            match self.order_view() {
                Some(o) => {
                    Graph::lemma_order_ok_same_topology(*old(self), *self, o);
                }
                None => {}
            }
        }
    }
}

impl Graph {
    /// Every node a backward walk can come across: the seeds plus every link
    /// source.
    spec fn upstream_universe(self, seeds: Seq<NodeRef>) -> Set<NodeRef> {
        Set::new(
            |n: NodeRef|
                seeds.contains(n) || exists|i: int|
                    0 <= i < self.links_index().fwd_view().len() && (
                    #[trigger] self.links_index().fwd_view()[i]).0.from_out == n,
        )
    }

    proof fn lemma_upstream_universe_finite(self, seeds: Seq<NodeRef>)
        ensures
            self.upstream_universe(seeds).finite(),
    {
        let fv = self.links_index().fwd_view();
        let mapped = fv.map_values(|e: (LinkKey, Link)| e.0.from_out);
        vstd::seq_lib::seq_to_set_is_finite::<NodeRef>(mapped);
        vstd::seq_lib::seq_to_set_is_finite::<NodeRef>(seeds);
        assert(self.upstream_universe(seeds) =~= mapped.to_set().union(seeds.to_set())) by {
            assert forall|n: NodeRef| self.upstream_universe(seeds).contains(n) implies
                mapped.to_set().union(seeds.to_set()).contains(n) by {
                if !seeds.contains(n) {
                    let i = choose|i: int| 0 <= i < fv.len() && (#[trigger] fv[i]).0.from_out == n;
                    assert(mapped[i] == n);
                    assert(mapped.contains(n));
                }
            }
            assert forall|n: NodeRef|
                mapped.to_set().union(seeds.to_set()).contains(n) implies
                self.upstream_universe(seeds).contains(n) by {
                if mapped.contains(n) {
                    let i = choose|i: int| 0 <= i < mapped.len() && mapped[i] == n;
                    assert(fv[i].0.from_out == n);
                }
            }
        }
    }

    /// The backward walk's bookkeeping: entries are distinct universe nodes,
    /// and the prefix before the cursor is closed under input edges.
    spec fn up_inv(self, seeds: Seq<NodeRef>, result: Seq<NodeRef>, head: int) -> bool {
        &&& forall|i: int, j: int|
            0 <= i < j < result.len() ==> #[trigger] result[i] != #[trigger] result[j]
        &&& forall|t: int|
            0 <= t < result.len() ==> self.upstream_universe(seeds).contains(#[trigger] result[t])
        &&& forall|t: int, a: NodeRef|
            0 <= t < head && #[trigger] self.links_index().has_edge(a, result[t])
                ==> result.contains(a)
    }

    /// One step of the backward walk: queue every supplier of the node under
    /// the cursor that has not been seen yet.
    #[verifier::spinoff_prover]
    fn upstream_step(&self, result: &mut Vec<NodeRef>, head: usize, Ghost(seeds): Ghost<Seq<NodeRef>>)
        requires
            self.wf(),
            self.up_inv(seeds, old(result)@, head as int),
            head < old(result)@.len(),
        ensures
            self.up_inv(seeds, final(result)@, head + 1),
            old(result)@.is_prefix_of(final(result)@),
            final(result)@ == old(result)@ || self.upstream_universe(seeds).difference(
                final(result)@.to_set(),
            ).len() < self.upstream_universe(seeds).difference(old(result)@.to_set()).len(),
    {
        let ghost u = self.upstream_universe(seeds);
        let node = result[head];
        let ins = self.links.get_ins(node);
        let ghost r0 = result@;
        let mut t: usize = 0;
        while t < ins.len()
            invariant
                t <= ins@.len(),
                self.wf(),
                u == self.upstream_universe(seeds),
                head < r0.len(),
                r0.is_prefix_of(result@),
                node == r0[head as int],
                self.up_inv(seeds, result@, head as int),
                forall|w: int|
                    0 <= w < ins@.len() ==> self.links_index().has_link(
                        (#[trigger] ins@[w]).0,
                        node,
                        ins@[w].1,
                    ),
                forall|w: int| 0 <= w < t ==> result@.contains((#[trigger] ins@[w]).0),
            decreases ins@.len() - t,
        {
            let (a, _l) = ins[t];
            if !contains_ref(&result, a) {
                let ghost r1 = result@;
                result.push(a);
                proof {
                    assert(result@.last() == a);
                    assert(r1.is_prefix_of(result@));
                    assert forall|i: int, j: int|
                        0 <= i < j < result@.len() implies #[trigger] result@[i]
                        != #[trigger] result@[j] by {
                        if j == result@.len() - 1 {
                            assert(result@[i] == r1[i]);
                            assert(r1.contains(r1[i]));
                        }
                    }
                    assert forall|w: int| 0 <= w < result@.len() implies u.contains(
                        #[trigger] result@[w],
                    ) by {
                        if w == result@.len() - 1 {
                            assert(self.links_index().has_link(a, node, _l));
                            let e = ((LinkKey { from_out: a, to_in: node }), _l);
                            assert(self.links_index().fwd_view().contains(e));
                            let x = choose|x: int|
                                0 <= x < self.links_index().fwd_view().len()
                                    && self.links_index().fwd_view()[x] == e;
                            assert(self.links_index().fwd_view()[x].0.from_out == a);
                        }
                    }
                    assert forall|w: int| 0 <= w < t + 1 implies result@.contains(
                        (#[trigger] ins@[w]).0,
                    ) by {
                        if w < t {
                            let v = choose|v: int| 0 <= v < r1.len() && r1[v] == ins@[w].0;
                            assert(result@[v] == ins@[w].0);
                        } else {
                            assert(result@[result@.len() - 1] == ins@[w].0);
                        }
                    }
                    assert forall|t2: int, a2: NodeRef|
                        0 <= t2 < head && #[trigger] self.links_index().has_edge(a2, result@[t2])
                            implies result@.contains(a2) by {
                        assert(result@[t2] == r1[t2]);
                        assert(r1.contains(a2));
                        let v = choose|v: int| 0 <= v < r1.len() && r1[v] == a2;
                        assert(result@[v] == a2);
                    }
                }
            }
            t += 1;
        }
        proof {
            assert forall|t2: int, a: NodeRef|
                0 <= t2 < head + 1 && #[trigger] self.links_index().has_edge(a, result@[t2])
                    implies result@.contains(a) by {
                if t2 == head {
                    assert(result@[t2] == node);
                    let l = choose|l: Link| self.links_index().has_link(a, node, l);
                    assert(ins@.contains((a, l)));
                    let w = choose|w: int| 0 <= w < ins@.len() && ins@[w] == (a, l);
                    assert(result@.contains(ins@[w].0));
                }
            }
            self.lemma_upstream_universe_finite(seeds);
            if result@.len() > r0.len() {
                assert(r0.to_set().subset_of(result@.to_set())) by {
                    assert forall|n: NodeRef| r0.to_set().contains(n) implies
                        result@.to_set().contains(n) by {
                        let v = choose|v: int| 0 <= v < r0.len() && r0[v] == n;
                        assert(result@[v] == n);
                    }
                }
                let grown = result@[r0.len() as int];
                assert(!r0.to_set().contains(grown)) by {
                    if r0.contains(grown) {
                        let v = choose|v: int| 0 <= v < r0.len() && r0[v] == grown;
                        assert(result@[v] == result@[r0.len() as int]);
                    }
                }
                assert(u.difference(result@.to_set()).subset_of(
                    u.difference(r0.to_set()).remove(grown),
                ));
                assert(u.difference(r0.to_set()).contains(grown)) by {
                    assert(u.contains(grown));
                }
                vstd::set_lib::lemma_len_subset(u.difference(r0.to_set()), u);
                vstd::set_lib::lemma_len_subset(
                    u.difference(result@.to_set()),
                    u.difference(r0.to_set()).remove(grown),
                );
            } else {
                assert(result@ =~= r0);
            }
        }
    }

    /// The nodes backward-reachable from any of the seeds, each visited
    /// once. The result is closed under inputs: every supplier of a gathered
    /// node is gathered.
    #[verifier::spinoff_prover]
    pub fn upstream_closure(&self, seeds: &Vec<NodeRef>) -> (r: Vec<NodeRef>)
        requires
            self.wf(),
        ensures
            forall|i: int, j: int| 0 <= i < j < r@.len() ==> #[trigger] r@[i] != #[trigger] r@[j],
            forall|i: int| 0 <= i < seeds@.len() ==> r@.contains(#[trigger] seeds@[i]),
            forall|t: int, a: NodeRef|
                0 <= t < r@.len() && #[trigger] self.links_index().has_edge(a, r@[t])
                    ==> r@.contains(a),
    {
        let mut result: Vec<NodeRef> = Vec::new();
        let mut s: usize = 0;
        while s < seeds.len()
            invariant
                s <= seeds@.len(),
                self.wf(),
                self.up_inv(seeds@, result@, 0),
                forall|i: int| 0 <= i < s ==> result@.contains(#[trigger] seeds@[i]),
            decreases seeds@.len() - s,
        {
            let x = seeds[s];
            let ghost rpre = result@;
            if !contains_ref(&result, x) {
                result.push(x);
                proof {
                    assert(result@.last() == x);
                    assert(seeds@.contains(x));
                    assert forall|i: int, j: int|
                        0 <= i < j < result@.len() implies #[trigger] result@[i]
                        != #[trigger] result@[j] by {
                        if j == result@.len() - 1 {
                            assert(result@[i] == rpre[i]);
                            assert(rpre.contains(rpre[i]));
                        }
                    }
                    assert forall|t: int| 0 <= t < result@.len() implies self.upstream_universe(
                        seeds@,
                    ).contains(#[trigger] result@[t]) by {
                        if t < result@.len() - 1 {
                            assert(result@[t] == rpre[t]);
                        }
                    }
                }
            }
            proof {
                assert forall|i: int| 0 <= i < s + 1 implies result@.contains(
                    #[trigger] seeds@[i],
                ) by {
                    if i < s {
                        let w = choose|w: int| 0 <= w < rpre.len() && rpre[w] == seeds@[i];
                        assert(result@[w] == seeds@[i]);
                    } else {
                        if rpre.contains(x) {
                            let w = choose|w: int| 0 <= w < rpre.len() && rpre[w] == x;
                            assert(result@[w] == x);
                        } else {
                            assert(result@[result@.len() - 1] == x);
                        }
                    }
                }
            }
            s += 1;
        }
        let mut head: usize = 0;
        while head < result.len()
            invariant
                head <= result@.len(),
                self.wf(),
                self.up_inv(seeds@, result@, head as int),
                forall|i: int| 0 <= i < seeds@.len() ==> result@.contains(#[trigger] seeds@[i]),
            decreases self.upstream_universe(seeds@).difference(result@.to_set()).len(), result@.len() - head,
        {
            let ghost r0 = result@;
            self.upstream_step(&mut result, head, Ghost(seeds@));
            head += 1;
            proof {
                assert forall|i: int| 0 <= i < seeds@.len() implies result@.contains(
                    #[trigger] seeds@[i],
                ) by {
                    let w = choose|w: int| 0 <= w < r0.len() && r0[w] == seeds@[i];
                    assert(result@[w] == seeds@[i]);
                }
            }
        }
        result
    }
}

} // verus!