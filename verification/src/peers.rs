//! The table of connected peers: each peer's address and, once it has said
//! it, its name. An address stands in the table at most once.
use vstd::prelude::*;

use crate::addr::PeerAddr;

verus! {

/// One connected peer.
#[derive(Debug)]
pub struct PeerEntry {
    pub addr: PeerAddr,
    pub name: Option<String>,
}

/// A name as characters.
pub open spec fn name_view(name: Option<String>) -> Option<Seq<char>> {
    match name {
        Some(s) => Some(s@),
        None => None,
    }
}

/// No address stands twice.
pub open spec fn addrs_distinct(s: Seq<PeerEntry>) -> bool {
    forall|i: int, j: int|
        0 <= i < s.len() && 0 <= j < s.len() && i != j ==> #[trigger] s[i].addr != #[trigger] s[j].addr
}

pub open spec fn has_addr(s: Seq<PeerEntry>, a: PeerAddr) -> bool {
    exists|i: int| 0 <= i < s.len() && #[trigger] s[i].addr == a
}

pub open spec fn index_of(s: Seq<PeerEntry>, a: PeerAddr) -> int {
    choose|i: int| 0 <= i < s.len() && #[trigger] s[i].addr == a
}

/// The names of the peers, by address.
pub open spec fn entries_map(s: Seq<PeerEntry>) -> Map<PeerAddr, Option<Seq<char>>> {
    Map::new(|a: PeerAddr| has_addr(s, a), |a: PeerAddr| name_view(s[index_of(s, a)].name))
}

/// The peers that are connected.
#[derive(Debug)]
pub struct PeerTable {
    entries: Vec<PeerEntry>,
}

proof fn lemma_index_of(s: Seq<PeerEntry>, j: int)
    requires
        addrs_distinct(s),
        0 <= j < s.len(),
    ensures
        has_addr(s, s[j].addr),
        index_of(s, s[j].addr) == j,
        entries_map(s).contains_key(s[j].addr),
        entries_map(s)[s[j].addr] == name_view(s[j].name),
{
    assert(has_addr(s, s[j].addr));
    let k = index_of(s, s[j].addr);
    assert(s[k].addr == s[j].addr);
}

proof fn lemma_map_update(s: Seq<PeerEntry>, i: int, e: PeerEntry)
    requires
        addrs_distinct(s),
        0 <= i < s.len(),
        s[i].addr == e.addr,
    ensures
        addrs_distinct(s.update(i, e)),
        entries_map(s.update(i, e)) == entries_map(s).insert(e.addr, name_view(e.name)),
{
    let t = s.update(i, e);
    assert(addrs_distinct(t)) by {
        assert forall|x: int, y: int|
            0 <= x < t.len() && 0 <= y < t.len() && x != y implies #[trigger] t[x].addr
            != #[trigger] t[y].addr by {
            assert(t[x].addr == s[x].addr && t[y].addr == s[y].addr);
        }
    }
    let m = entries_map(s).insert(e.addr, name_view(e.name));
    assert forall|a: PeerAddr| #[trigger] entries_map(t).contains_key(a) <==> m.contains_key(a) by {
        if has_addr(t, a) {
            let k = choose|k: int| 0 <= k < t.len() && #[trigger] t[k].addr == a;
            assert(s[k].addr == a);
        }
        if has_addr(s, a) {
            let k = choose|k: int| 0 <= k < s.len() && #[trigger] s[k].addr == a;
            assert(t[k].addr == a);
        }
        if a == e.addr {
            assert(t[i].addr == a);
        }
    }
    assert forall|a: PeerAddr| #[trigger] entries_map(t).contains_key(a) implies entries_map(t)[a]
        == m[a] by {
        let k = choose|k: int| 0 <= k < t.len() && #[trigger] t[k].addr == a;
        lemma_index_of(t, k);
        if k != i {
            assert(s[k].addr == a);
            lemma_index_of(s, k);
        }
    }
    assert(entries_map(t) =~= m);
}

proof fn lemma_map_push(s: Seq<PeerEntry>, e: PeerEntry)
    requires
        addrs_distinct(s),
        !has_addr(s, e.addr),
    ensures
        addrs_distinct(s.push(e)),
        entries_map(s.push(e)) == entries_map(s).insert(e.addr, name_view(e.name)),
{
    let t = s.push(e);
    assert(addrs_distinct(t)) by {
        assert forall|x: int, y: int|
            0 <= x < t.len() && 0 <= y < t.len() && x != y implies #[trigger] t[x].addr
            != #[trigger] t[y].addr by {
            if x < s.len() && y < s.len() {
                assert(t[x].addr == s[x].addr && t[y].addr == s[y].addr);
            } else if x < s.len() {
                assert(s[x].addr == t[x].addr);
            } else {
                assert(s[y].addr == t[y].addr);
            }
        }
    }
    let m = entries_map(s).insert(e.addr, name_view(e.name));
    assert forall|a: PeerAddr| #[trigger] entries_map(t).contains_key(a) <==> m.contains_key(a) by {
        if has_addr(t, a) {
            let k = choose|k: int| 0 <= k < t.len() && #[trigger] t[k].addr == a;
            if k < s.len() {
                assert(s[k].addr == a);
            }
        }
        if has_addr(s, a) {
            let k = choose|k: int| 0 <= k < s.len() && #[trigger] s[k].addr == a;
            assert(t[k].addr == a);
        }
        if a == e.addr {
            assert(t[s.len() as int].addr == a);
        }
    }
    assert forall|a: PeerAddr| #[trigger] entries_map(t).contains_key(a) implies entries_map(t)[a]
        == m[a] by {
        let k = choose|k: int| 0 <= k < t.len() && #[trigger] t[k].addr == a;
        lemma_index_of(t, k);
        if k < s.len() {
            assert(s[k].addr == a);
            lemma_index_of(s, k);
        }
    }
    assert(entries_map(t) =~= m);
}

proof fn lemma_map_remove(s: Seq<PeerEntry>, i: int)
    requires
        addrs_distinct(s),
        0 <= i < s.len(),
    ensures
        addrs_distinct(s.remove(i)),
        entries_map(s.remove(i)) == entries_map(s).remove(s[i].addr),
{
    let t = s.remove(i);
    assert forall|k: int| 0 <= k < t.len() implies #[trigger] t[k] == s[if k < i {
        k
    } else {
        k + 1
    }] by {}
    assert(addrs_distinct(t)) by {
        assert forall|x: int, y: int|
            0 <= x < t.len() && 0 <= y < t.len() && x != y implies #[trigger] t[x].addr
            != #[trigger] t[y].addr by {
            let sx = if x < i {
                x
            } else {
                x + 1
            };
            let sy = if y < i {
                y
            } else {
                y + 1
            };
            assert(t[x] == s[sx] && t[y] == s[sy]);
        }
    }
    let m = entries_map(s).remove(s[i].addr);
    assert forall|a: PeerAddr| #[trigger] entries_map(t).contains_key(a) <==> m.contains_key(a) by {
        if has_addr(t, a) {
            let k = choose|k: int| 0 <= k < t.len() && #[trigger] t[k].addr == a;
            let sk = if k < i {
                k
            } else {
                k + 1
            };
            assert(t[k] == s[sk]);
            assert(s[sk].addr == a);
        }
        if has_addr(s, a) && a != s[i].addr {
            let k = choose|k: int| 0 <= k < s.len() && #[trigger] s[k].addr == a;
            if k < i {
                assert(t[k] == s[k]);
            } else {
                assert(t[k - 1] == s[k]);
            }
        }
    }
    assert forall|a: PeerAddr| #[trigger] entries_map(t).contains_key(a) implies entries_map(t)[a]
        == m[a] by {
        let k = choose|k: int| 0 <= k < t.len() && #[trigger] t[k].addr == a;
        lemma_index_of(t, k);
        let sk = if k < i {
            k
        } else {
            k + 1
        };
        assert(t[k] == s[sk]);
        lemma_index_of(s, sk);
    }
    assert(entries_map(t) =~= m);
}

/// A copy of a name.
pub fn clone_name(name: &Option<String>) -> (r: Option<String>)
    ensures
        r == *name,
{
    match name {
        Some(s) => Some(s.clone()),
        None => None,
    }
}

impl PeerTable {
    #[verifier::type_invariant]
    spec fn distinct(self) -> bool {
        addrs_distinct(self.entries@)
    }

    /// The addresses of the peers, in the order they joined the table.
    pub closed spec fn spec_order(&self) -> Seq<PeerAddr> {
        self.entries@.map_values(|e: PeerEntry| e.addr)
    }

    /// The table holds no peers.
    pub fn new() -> (r: PeerTable)
        ensures
            r@ == Map::<PeerAddr, Option<Seq<char>>>::empty(),
            r.spec_order() == Seq::<PeerAddr>::empty(),
    {
        let r = PeerTable { entries: Vec::new() };
        assert(entries_map(r.entries@) =~= Map::<PeerAddr, Option<Seq<char>>>::empty());
        assert(r.spec_order() =~= Seq::<PeerAddr>::empty());
        r
    }

    /// Where `addr` stands in the table, if it does.
    fn find(&self, addr: &PeerAddr) -> (r: Option<usize>)
        ensures
            match r {
                Some(i) => i < self.entries@.len() && self.entries@[i as int].addr == *addr,
                None => !self@.contains_key(*addr),
            },
    {
        let mut i: usize = 0;
        while i < self.entries.len()
            invariant
                i <= self.entries@.len(),
                forall|k: int| 0 <= k < i ==> #[trigger] self.entries@[k].addr != *addr,
            decreases self.entries@.len() - i,
        {
            if self.entries[i].addr == *addr {
                return Some(i);
            }
            i = i + 1;
        }
        None
    }

    /// The number of peers.
    pub fn len(&self) -> (r: usize)
        ensures
            r == self.spec_order().len(),
    {
        self.entries.len()
    }

    /// Whether the table holds no peer.
    pub fn is_empty(&self) -> (r: bool)
        ensures
            r == (self.spec_order().len() == 0),
    {
        self.entries.len() == 0
    }

    /// Whether `addr` is connected.
    pub fn contains_key(&self, addr: &PeerAddr) -> (r: bool)
        ensures
            r == self@.contains_key(*addr),
    {
        proof {
            use_type_invariant(self);
        }
        match self.find(addr) {
            Some(i) => {
                proof {
                    lemma_index_of(self.entries@, i as int);
                }
                true
            },
            None => false,
        }
    }

    /// The name of the peer at `addr`, if it is connected.
    pub fn get(&self, addr: &PeerAddr) -> (r: Option<&Option<String>>)
        ensures
            r is Some <==> self@.contains_key(*addr),
            r matches Some(n) ==> name_view(*n) == self@[*addr],
    {
        proof {
            use_type_invariant(self);
        }
        match self.find(addr) {
            Some(i) => {
                proof {
                    lemma_index_of(self.entries@, i as int);
                }
                Some(&self.entries[i].name)
            },
            None => None,
        }
    }

    /// Makes `name` the name of the peer at `addr`; a new address joins the
    /// end of the order.
    pub fn insert(&mut self, addr: PeerAddr, name: Option<String>)
        ensures
            final(self)@ == old(self)@.insert(addr, name_view(name)),
            old(self)@.contains_key(addr) ==> final(self).spec_order() == old(self).spec_order(),
            !old(self)@.contains_key(addr) ==> final(self).spec_order() == old(self).spec_order().push(
                addr,
            ),
    {
        proof {
            use_type_invariant(&*self);
        }
        let ghost s = self.entries@;
        let e = PeerEntry { addr, name };
        match self.find(&addr) {
            Some(i) => {
                proof {
                    lemma_map_update(s, i as int, e);
                    lemma_index_of(s, i as int);
                }
                let mut entries: Vec<PeerEntry> = Vec::new();
                std::mem::swap(&mut entries, &mut self.entries);
                entries.set(i, e);
                self.entries = entries;
                assert(self.spec_order() =~= old(self).spec_order());
            },
            None => {
                proof {
                    lemma_map_push(s, e);
                }
                let mut entries: Vec<PeerEntry> = Vec::new();
                std::mem::swap(&mut entries, &mut self.entries);
                entries.push(e);
                self.entries = entries;
                assert(self.spec_order() =~= old(self).spec_order().push(addr));
            },
        }
    }

    /// Takes the peer at `addr` out of the table, and gives its name if it was
    /// there. The other peers keep their order.
    pub fn remove(&mut self, addr: &PeerAddr) -> (r: Option<Option<String>>)
        ensures
            final(self)@ == old(self)@.remove(*addr),
            r is Some <==> old(self)@.contains_key(*addr),
            r matches Some(n) ==> name_view(n) == old(self)@[*addr],
            final(self).spec_order() == old(self).spec_order().filter(|a: PeerAddr| a != *addr),
    {
        proof {
            use_type_invariant(&*self);
        }
        let ghost s = self.entries@;
        match self.find(addr) {
            Some(i) => {
                proof {
                    lemma_map_remove(s, i as int);
                    lemma_index_of(s, i as int);
                }
                let mut entries: Vec<PeerEntry> = Vec::new();
                std::mem::swap(&mut entries, &mut self.entries);
                let e = entries.remove(i);
                self.entries = entries;
                proof {
                    lemma_filter_out_distinct(s, i as int);
                }
                Some(e.name)
            },
            None => {
                proof {
                    assert(entries_map(s).remove(*addr) =~= entries_map(s));
                    lemma_filter_out_absent(s, *addr);
                }
                None
            },
        }
    }

    /// The addresses of the peers, in order. Each stands once, and they are
    /// the addresses of the table.
    pub fn addrs(&self) -> (r: Vec<PeerAddr>)
        ensures
            r@ == self.spec_order(),
            r@.no_duplicates(),
            forall|a: PeerAddr| #[trigger] self@.contains_key(a) <==> r@.contains(a),
    {
        proof {
            use_type_invariant(self);
            let s = self.entries@;
            let o = self.spec_order();
            assert forall|a: PeerAddr| #[trigger] self@.contains_key(a) <==> o.contains(a) by {
                if o.contains(a) {
                    let k = choose|k: int| 0 <= k < o.len() && o[k] == a;
                    assert(s[k].addr == a);
                }
                if has_addr(s, a) {
                    let k = choose|k: int| 0 <= k < s.len() && #[trigger] s[k].addr == a;
                    assert(o[k] == a);
                }
            }
            assert forall|x: int, y: int|
                0 <= x < o.len() && 0 <= y < o.len() && x != y implies o[x] != o[y] by {
                assert(o[x] == s[x].addr && o[y] == s[y].addr);
            }
        }
        let mut r: Vec<PeerAddr> = Vec::new();
        let mut i: usize = 0;
        while i < self.entries.len()
            invariant
                i <= self.entries@.len(),
                r@ == self.entries@.take(i as int).map_values(|e: PeerEntry| e.addr),
            decreases self.entries@.len() - i,
        {
            r.push(self.entries[i].addr);
            i = i + 1;
            assert(r@ =~= self.entries@.take(i as int).map_values(|e: PeerEntry| e.addr));
        }
        assert(self.entries@.take(i as int) =~= self.entries@);
        r
    }
}

impl View for PeerTable {
    type V = Map<PeerAddr, Option<Seq<char>>>;

    closed spec fn view(&self) -> Map<PeerAddr, Option<Seq<char>>> {
        entries_map(self.entries@)
    }
}

proof fn lemma_filter_out_distinct(s: Seq<PeerEntry>, i: int)
    requires
        addrs_distinct(s),
        0 <= i < s.len(),
    ensures
        s.remove(i).map_values(|e: PeerEntry| e.addr) == s.map_values(|e: PeerEntry| e.addr).filter(
            |a: PeerAddr| a != s[i].addr,
        ),
    decreases s.len(),
{
    let a0 = s[i].addr;
    let o = s.map_values(|e: PeerEntry| e.addr);
    reveal(Seq::filter);
    if i == s.len() - 1 {
        let init = s.drop_last();
        assert(o.drop_last() =~= init.map_values(|e: PeerEntry| e.addr));
        lemma_filter_keeps_all(init, a0);
        assert(s.remove(i) =~= init);
    } else {
        let init = s.drop_last();
        assert(addrs_distinct(init));
        lemma_filter_out_distinct(init, i);
        assert(o.drop_last() =~= init.map_values(|e: PeerEntry| e.addr));
        assert(s.remove(i) =~= init.remove(i).push(s.last()));
        assert(s.last().addr != a0);
        assert(s.remove(i).map_values(|e: PeerEntry| e.addr) =~= init.remove(i).map_values(
            |e: PeerEntry| e.addr,
        ).push(s.last().addr));
    }
}

proof fn lemma_filter_keeps_all(s: Seq<PeerEntry>, a0: PeerAddr)
    requires
        !has_addr(s, a0),
    ensures
        s.map_values(|e: PeerEntry| e.addr).filter(|a: PeerAddr| a != a0) == s.map_values(
            |e: PeerEntry| e.addr,
        ),
    decreases s.len(),
{
    reveal(Seq::filter);
    let o = s.map_values(|e: PeerEntry| e.addr);
    if s.len() > 0 {
        let init = s.drop_last();
        if has_addr(init, a0) {
            let k = choose|k: int| 0 <= k < init.len() && #[trigger] init[k].addr == a0;
            assert(s[k].addr == a0);
        }
        lemma_filter_keeps_all(init, a0);
        assert(o.drop_last() =~= init.map_values(|e: PeerEntry| e.addr));
        assert(s.last().addr != a0);
        assert(o.filter(|a: PeerAddr| a != a0) =~= o);
    } else {
        assert(o.filter(|a: PeerAddr| a != a0) =~= o);
    }
}

proof fn lemma_filter_out_absent(s: Seq<PeerEntry>, a0: PeerAddr)
    requires
        !entries_map(s).contains_key(a0),
    ensures
        s.map_values(|e: PeerEntry| e.addr).filter(|a: PeerAddr| a != a0) == s.map_values(
            |e: PeerEntry| e.addr,
        ),
{
    lemma_filter_keeps_all(s, a0);
}

} // verus!
