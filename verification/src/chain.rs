//! Where the qubits of a chain of sites stand, and how two of them are brought next
//! to each other by exchanging neighbours.
use vstd::prelude::*;

verus! {

/// The sites after the neighbours at `s` and `s + 1` changed places.
pub open spec fn exchanged(sites: Seq<usize>, s: usize) -> Seq<usize> {
    sites.update(s as int, sites[s + 1]).update(s + 1, sites[s as int])
}

/// The sites after a list of exchanges of neighbours.
pub open spec fn routed(sites: Seq<usize>, swaps: Seq<usize>) -> Seq<usize>
    decreases swaps.len(),
{
    if swaps.len() == 0 {
        sites
    } else {
        exchanged(routed(sites, swaps.drop_last()), swaps.last())
    }
}

/// Whether every exchange is one of neighbours in a chain of `n` sites.
pub open spec fn neighbours(swaps: Seq<usize>, n: nat) -> bool {
    forall|i: int| 0 <= i < swaps.len() ==> #[trigger] swaps[i] + 1 < n
}

/// The exchanges that take what stands at `from` down to `to`.
pub open spec fn descent(from: int, to: int) -> Seq<usize> {
    Seq::new((from - to) as nat, |i: int| (from - 1 - i) as usize)
}

/// A chain of as many sites as qubits, each holding one qubit.
#[derive(Clone, Debug)]
pub struct Chain {
    sites: Vec<usize>,
}

/// Two qubits next to each other.
#[derive(Clone, Debug)]
pub struct Meeting {
    /// The exchanges that brought them together, in order.
    pub swaps: Vec<usize>,
    /// The first of the two sites.
    pub site: usize,
    /// Whether the first qubit stands at the second of the two sites.
    pub crossed: bool,
}

impl View for Chain {
    type V = Seq<usize>;

    /// The qubit at each site.
    closed spec fn view(&self) -> Seq<usize> {
        self.sites@
    }
}

/// Whether every site holds another qubit of `0..n`, and every qubit stands
/// somewhere.
pub open spec fn arranged(sites: Seq<usize>) -> bool {
    &&& forall|k: int| 0 <= k < sites.len() ==> #[trigger] sites[k] < sites.len()
    &&& forall|j: int, k: int|
        0 <= j < k < sites.len() ==> #[trigger] sites[j] != #[trigger] sites[k]
    &&& forall|p: usize| p < sites.len() ==> #[trigger] placed(sites, p)
}

/// Whether a qubit stands somewhere.
pub open spec fn placed(sites: Seq<usize>, p: usize) -> bool {
    exists|k: int| 0 <= k < sites.len() && #[trigger] sites[k] == p
}

proof fn lemma_exchange_keeps(sites: Seq<usize>, s: usize)
    requires
        arranged(sites),
        s + 1 < sites.len(),
    ensures
        arranged(exchanged(sites, s)),
{
    let t = exchanged(sites, s);
    assert forall|p: usize| p < t.len() implies #[trigger] placed(t, p) by {
        assert(placed(sites, p));
        let k = choose|k: int| 0 <= k < sites.len() && #[trigger] sites[k] == p;
        let j = if k == s {
            s + 1
        } else if k == s + 1 {
            s as int
        } else {
            k
        };
        assert(t[j] == p);
    }
}

/// Exchanges of neighbours keep each qubit at one site.
pub proof fn law_routing_keeps_the_qubits(sites: Seq<usize>, swaps: Seq<usize>)
    requires
        arranged(sites),
        neighbours(swaps, sites.len()),
    ensures
        arranged(routed(sites, swaps)),
        routed(sites, swaps).len() == sites.len(),
    decreases swaps.len(),
{
    if swaps.len() > 0 {
        law_routing_keeps_the_qubits(sites, swaps.drop_last());
        lemma_exchange_keeps(routed(sites, swaps.drop_last()), swaps.last());
    }
}

proof fn lemma_routed_len(sites: Seq<usize>, swaps: Seq<usize>)
    requires
        neighbours(swaps, sites.len()),
    ensures
        routed(sites, swaps).len() == sites.len(),
    decreases swaps.len(),
{
    if swaps.len() > 0 {
        lemma_routed_len(sites, swaps.drop_last());
    }
}

/// A first exchange pulled out in front.
proof fn lemma_routed_first(sites: Seq<usize>, swaps: Seq<usize>)
    requires
        swaps.len() > 0,
    ensures
        routed(sites, swaps) == routed(exchanged(sites, swaps[0]), swaps.drop_first()),
    decreases swaps.len(),
{
    if swaps.len() == 1 {
        assert(swaps.drop_last() =~= Seq::empty());
        assert(swaps.drop_first() =~= Seq::empty());
        assert(routed(sites, swaps.drop_last()) == sites);
    } else {
        lemma_routed_first(sites, swaps.drop_last());
        assert(swaps.drop_last().drop_first() =~= swaps.drop_first().drop_last());
    }
}

/// Exchanges undone in the opposite order lead back.
pub proof fn law_routing_back_restores(sites: Seq<usize>, swaps: Seq<usize>)
    requires
        neighbours(swaps, sites.len()),
    ensures
        routed(routed(sites, swaps), swaps.reverse()) == sites,
    decreases swaps.len(),
{
    if swaps.len() == 0 {
        assert(swaps.reverse() =~= Seq::empty());
    } else {
        let (rest, last) = (swaps.drop_last(), swaps.last());
        let mid = routed(sites, rest);
        lemma_routed_len(sites, rest);
        let there = exchanged(mid, last);
        lemma_routed_first(there, swaps.reverse());
        assert(swaps.reverse()[0] == last);
        assert(swaps.reverse().drop_first() =~= rest.reverse());
        assert(exchanged(there, last) =~= mid);
        law_routing_back_restores(sites, rest);
    }
}

/// What a descent does: one qubit goes down, those passed go up by one site.
pub proof fn law_descent_moves_one(sites: Seq<usize>, from: int, to: int)
    requires
        0 <= to <= from < sites.len(),
        from <= usize::MAX,
    ensures
        routed(sites, descent(from, to)) == Seq::new(
            sites.len(),
            |k: int|
                if k == to {
                    sites[from]
                } else if to < k <= from {
                    sites[k - 1]
                } else {
                    sites[k]
                },
        ),
    decreases from - to,
{
    let d = descent(from, to);
    if from == to {
        assert(d =~= Seq::empty());
        assert(routed(sites, d) =~= Seq::new(
            sites.len(),
            |k: int|
                if k == to {
                    sites[from]
                } else if to < k <= from {
                    sites[k - 1]
                } else {
                    sites[k]
                },
        ));
    } else {
        law_descent_moves_one(sites, from, to + 1);
        assert(d.drop_last() =~= descent(from, to + 1));
        assert(d.last() == to);
        assert(routed(sites, d) =~= Seq::new(
            sites.len(),
            |k: int|
                if k == to {
                    sites[from]
                } else if to < k <= from {
                    sites[k - 1]
                } else {
                    sites[k]
                },
        ));
    }
}

impl Chain {
    /// Whether each site holds one qubit.
    pub open spec fn wf(&self) -> bool {
        arranged(self@)
    }

    /// `n` sites, site `k` holding qubit `k`.
    pub fn new(n: usize) -> (c: Self)
        ensures
            c.wf(),
            c@ == Seq::new(n as nat, |k: int| k as usize),
    {
        let mut sites: Vec<usize> = Vec::new();
        let mut i: usize = 0;
        while i < n
            invariant
                i <= n,
                sites@.len() == i,
                forall|k: int| 0 <= k < i ==> #[trigger] sites@[k] == k,
            decreases n - i,
        {
            sites.push(i);
            i += 1;
        }
        let c = Chain { sites };
        assert(c@ =~= Seq::new(n as nat, |k: int| k as usize));
        assert forall|p: usize| p < c@.len() implies #[trigger] placed(c@, p) by {
            assert(c@[p as int] == p);
        }
        c
    }

    /// The qubit at a site.
    pub fn qubit_at(&self, site: usize) -> (p: usize)
        requires
            site < self@.len(),
        ensures
            p == self@[site as int],
    {
        self.sites[site]
    }

    /// The site that holds a qubit.
    pub fn site_of(&self, p: usize) -> (k: usize)
        requires
            self.wf(),
            p < self@.len(),
        ensures
            k < self@.len(),
            self@[k as int] == p,
    {
        let n: usize = self.sites.len();
        let mut k: usize = 0;
        assert(placed(self@, p));
        while self.sites[k] != p
            invariant
                n == self@.len(),
                k < n,
                placed(self@, p),
                forall|j: int| 0 <= j < k ==> self@[j] != p,
            decreases self@.len() - k,
        {
            proof {
                let j = choose|j: int| 0 <= j < self@.len() && #[trigger] self@[j] == p;
                assert(k < j);
            }
            k += 1;
        }
        k
    }

    fn swap_sites(&mut self, s: usize)
        requires
            s + 1 < old(self)@.len(),
        ensures
            final(self)@ == exchanged(old(self)@, s),
    {
        let n: usize = self.sites.len();
        assert(s + 1 < n);
        let a: usize = self.sites[s];
        let b: usize = self.sites[s + 1];
        self.sites.set(s, b);
        self.sites.set(s + 1, a);
    }

    fn descend(&mut self, from: usize, to: usize) -> (swaps: Vec<usize>)
        requires
            old(self).wf(),
            to <= from < old(self)@.len(),
        ensures
            final(self).wf(),
            swaps@ == descent(from as int, to as int),
            final(self)@ == routed(old(self)@, swaps@),
            neighbours(swaps@, old(self)@.len()),
    {
        let mut swaps: Vec<usize> = Vec::new();
        let mut s: usize = from;
        let ghost start = self@;
        assert(swaps@ =~= descent(from as int, from as int));
        while s > to
            invariant
                to <= s <= from < start.len(),
                start == old(self)@,
                arranged(start),
                self@.len() == start.len(),
                swaps@ == descent(from as int, s as int),
                self@ == routed(start, swaps@),
                neighbours(swaps@, start.len()),
            decreases s,
        {
            s = s - 1;
            let ghost before = swaps@;
            self.swap_sites(s);
            swaps.push(s);
            assert(swaps@.drop_last() =~= before);
            assert(swaps@ =~= descent(from as int, s as int));
        }
        proof {
            law_routing_keeps_the_qubits(start, swaps@);
        }
        swaps
    }

    /// Brings the qubits `pa` and `pb` to neighbouring sites: the one further right
    /// goes left until it stands behind the other.
    pub fn bring_together(&mut self, pa: usize, pb: usize) -> (m: Meeting)
        requires
            old(self).wf(),
            pa < old(self)@.len(),
            pb < old(self)@.len(),
            pa != pb,
        ensures
            final(self).wf(),
            final(self)@ == routed(old(self)@, m.swaps@),
            final(self)@.len() == old(self)@.len(),
            m.site + 1 < final(self)@.len(),
            old(self)@[m.site as int] == final(self)@[m.site as int],
            final(self)@[m.site as int] == if m.crossed {
                pb
            } else {
                pa
            },
            final(self)@[m.site + 1] == if m.crossed {
                pa
            } else {
                pb
            },
            neighbours(m.swaps@, old(self)@.len()),
            exists|hi: int|
                m.site < hi < old(self)@.len() && m.swaps@ == #[trigger] descent(hi, m.site + 1),
    {
        let ka: usize = self.site_of(pa);
        let kb: usize = self.site_of(pb);
        let crossed: bool = kb < ka;
        let (lo, hi): (usize, usize) = if crossed {
            (kb, ka)
        } else {
            (ka, kb)
        };
        let ghost start = self@;
        let swaps = self.descend(hi, lo + 1);
        proof {
            law_descent_moves_one(start, hi as int, lo + 1);
            assert(swaps@ == descent(hi as int, lo + 1));
        }
        Meeting { swaps, site: lo, crossed }
    }

    /// Undoes a list of exchanges.
    pub fn send_back(&mut self, swaps: &Vec<usize>)
        requires
            neighbours(swaps@, old(self)@.len()),
        ensures
            final(self)@ == routed(old(self)@, swaps@.reverse()),
    {
        let mut i: usize = swaps.len();
        let ghost start = self@;
        let ghost back = swaps@.reverse();
        assert(back.take(0) =~= Seq::empty());
        while i > 0
            invariant
                i <= swaps@.len(),
                start == old(self)@,
                back == swaps@.reverse(),
                neighbours(swaps@, start.len()),
                self@.len() == start.len(),
                self@ == routed(start, back.take(swaps@.len() - i)),
            decreases i,
        {
            i = i - 1;
            let ghost done = swaps@.len() - i;
            assert(back.take(done).drop_last() =~= back.take(done - 1));
            assert(back.take(done).last() == swaps@[i as int]);
            self.swap_sites(swaps[i]);
        }
        assert(back.take(swaps@.len() as int) =~= back);
    }

    /// Brings a qubit to the first site.
    pub fn bring_to_front(&mut self, p: usize) -> (swaps: Vec<usize>)
        requires
            old(self).wf(),
            p < old(self)@.len(),
        ensures
            final(self).wf(),
            final(self)@.len() == old(self)@.len(),
            final(self)@ == routed(old(self)@, swaps@),
            final(self)@[0] == p,
            exists|k: int| 0 <= k < old(self)@.len() && swaps@ == #[trigger] descent(k, 0),
    {
        let k: usize = self.site_of(p);
        let ghost start = self@;
        let swaps = self.descend(k, 0);
        proof {
            law_descent_moves_one(start, k as int, 0);
        }
        swaps
    }
}

} // verus!
