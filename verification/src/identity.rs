//! Device identity resolver: maps a peer's physical link address (its six
//! address bytes held in one integer) to a small stable device id.
//!
//! Ids are handed out monotonically from zero on first contact, never
//! reused and never reassigned; a peer keeps its id forever. The table is
//! the persisted state: a caller saves `table()` to its key-value store and
//! rebuilds the resolver from it after a restart. All mutation goes through
//! `resolve` on an exclusive reference, which serializes assignment.

use vstd::prelude::*;

verus! {

/// Largest number of peers the resolver can remember: device ids and the
/// persisted next-id counter are single bytes.
pub const MAX_PEERS: usize = 255;

/// No two entries name the same address.
pub open spec fn distinct_addrs(s: Seq<u64>) -> bool {
    forall|i: int, j: int| 0 <= i < j < s.len() ==> s[i] != s[j]
}

/// Index of `addr` in the table, or `-1` when it is unknown.
pub open spec fn addr_index(s: Seq<u64>, addr: u64) -> int
    decreases s.len(),
{
    if s.len() == 0 {
        -1
    } else if s[0] == addr {
        0
    } else {
        let r = addr_index(s.drop_first(), addr);
        if r < 0 {
            -1
        } else {
            r + 1
        }
    }
}

/// The id `resolve` answers for `addr` against table `s`: the position of a
/// known address, the next fresh id for an unknown one, nothing when the
/// table is full.
pub open spec fn spec_resolve_id(s: Seq<u64>, addr: u64) -> Option<int> {
    if addr_index(s, addr) >= 0 {
        Some(addr_index(s, addr))
    } else if s.len() < MAX_PEERS {
        Some(s.len() as int)
    } else {
        None
    }
}

/// The table after resolving `addr`: unchanged for a known address or a
/// full table, extended by the address on first contact.
pub open spec fn spec_resolve_table(s: Seq<u64>, addr: u64) -> Seq<u64> {
    if addr_index(s, addr) >= 0 || s.len() >= MAX_PEERS {
        s
    } else {
        s.push(addr)
    }
}

/// `addr_index` finds the first occurrence, and `-1` means absence.
pub proof fn lemma_addr_index(s: Seq<u64>, addr: u64)
    ensures
        addr_index(s, addr) >= 0 ==> 0 <= addr_index(s, addr) < s.len() && s[addr_index(s, addr)]
            == addr && forall|j: int| 0 <= j < addr_index(s, addr) ==> s[j] != addr,
        addr_index(s, addr) < 0 ==> forall|j: int| 0 <= j < s.len() ==> s[j] != addr,
    decreases s.len(),
{
    if s.len() > 0 && s[0] != addr {
        lemma_addr_index(s.drop_first(), addr);
        assert(forall|j: int| 0 < j < s.len() ==> s[j] == s.drop_first()[j - 1]);
    }
}

/// Appending an address leaves every other lookup alone and makes the new
/// address findable at the end (unless it was already present).
pub proof fn lemma_addr_index_push(s: Seq<u64>, x: u64, a: u64)
    ensures
        a != x ==> addr_index(s.push(x), a) == addr_index(s, a),
        addr_index(s, x) >= 0 ==> addr_index(s.push(x), x) == addr_index(s, x),
        addr_index(s, x) < 0 ==> addr_index(s.push(x), x) == s.len(),
    decreases s.len(),
{
    if s.len() == 0 {
        assert(s.push(x) =~= seq![x]);
        assert(seq![x].drop_first() =~= Seq::<u64>::empty());
        assert(addr_index(Seq::<u64>::empty(), a) == -1);
        assert(addr_index(Seq::<u64>::empty(), x) == -1);
        if a != x {
            assert(seq![x][0] != a);
            assert(addr_index(seq![x], a) == -1);
        }
        assert(seq![x][0] == x);
        assert(addr_index(seq![x], x) == 0);
    } else {
        assert(s.push(x).drop_first() =~= s.drop_first().push(x));
        assert(s.push(x)[0] == s[0]);
        lemma_addr_index_push(s.drop_first(), x, a);
        lemma_addr_index_push(s.drop_first(), x, x);
        if a != x && s[0] != a {
            assert(addr_index(s.push(x), a) == ({
                let r = addr_index(s.push(x).drop_first(), a);
                if r < 0 {
                    -1
                } else {
                    r + 1
                }
            }));
            assert(addr_index(s.push(x).drop_first(), a) == addr_index(s.drop_first().push(x), a));
        }
    }
}

/// In a duplicate-free table, holding the address at position `i` means
/// `addr_index` answers exactly `i`.
pub proof fn lemma_addr_index_unique(s: Seq<u64>, i: int)
    requires
        distinct_addrs(s),
        0 <= i < s.len(),
    ensures
        addr_index(s, s[i]) == i,
{
    lemma_addr_index(s, s[i]);
}

/// Peer table: addresses in order of first contact; a peer's device id is
/// its position.
pub struct IdentityResolver {
    addrs: Vec<u64>,
}

impl View for IdentityResolver {
    type V = Seq<u64>;

    closed spec fn view(&self) -> Seq<u64> {
        self.addrs@
    }
}

impl IdentityResolver {
    /// The table invariant: no duplicate addresses, and at most `MAX_PEERS`
    /// of them.
    pub open spec fn wf(&self) -> bool {
        distinct_addrs(self@) && self@.len() <= MAX_PEERS
    }

    /// An empty table: the first peer to appear gets id zero.
    pub fn new() -> (r: IdentityResolver)
        ensures
            r.wf(),
            r@ =~= Seq::<u64>::empty(),
    {
        IdentityResolver { addrs: Vec::new() }
    }

    /// Number of peers remembered; also the next id to be assigned.
    pub fn peer_count(&self) -> (r: usize)
        ensures
            r == self@.len(),
    {
        self.addrs.len()
    }

    /// The persisted form of the table: address `i` owns id `i`. A caller
    /// stores these with its key-value collaborator and rebuilds the
    /// resolver from them after a restart.
    pub fn table(&self) -> (r: &Vec<u64>)
        ensures
            r@ == self@,
    {
        &self.addrs
    }

    /// Looks up the device id of `addr`, assigning and recording the next
    /// free id on first contact. A known peer always gets its original id
    /// back and the table stays as it was; an unknown peer gets the current
    /// table size as its id; a full table answers `None` and changes
    /// nothing.
    pub fn resolve(&mut self, addr: u64) -> (r: Option<u8>)
        requires
            old(self).wf(),
        ensures
            final (self).wf(),
            final (self)@ == spec_resolve_table(old(self)@, addr),
            match spec_resolve_id(old(self)@, addr) {
                Some(id) => r == Some(id as u8),
                None => r is None,
            },
    {
        proof {
            lemma_addr_index(self@, addr);
        }
        let mut i: usize = 0;
        while i < self.addrs.len()
            invariant
                i <= self.addrs.len(),
                forall|j: int| 0 <= j < i ==> self@[j] != addr,
                self.wf(),
            decreases self.addrs.len() - i,
        {
            if self.addrs[i] == addr {
                proof {
                    lemma_addr_index(self@, addr);
                    assert(addr_index(self@, addr) == i);
                }
                return Some(i as u8);
            }
            i = i + 1;
        }
        proof {
            assert(addr_index(self@, addr) < 0);
        }
        if self.addrs.len() == MAX_PEERS {
            None
        } else {
            let id = self.addrs.len();
            self.addrs.push(addr);
            proof {
                assert(distinct_addrs(self@));
            }
            Some(id as u8)
        }
    }
}

/// Table after resolving each address of `news` in order.
pub open spec fn resolve_all(s: Seq<u64>, news: Seq<u64>) -> Seq<u64>
    decreases news.len(),
{
    if news.len() == 0 {
        s
    } else {
        resolve_all(spec_resolve_table(s, news[0]), news.drop_first())
    }
}

/// Identity monotonicity: resolving `n` distinct previously-unseen
/// addresses, in whatever order they arrive, appends them to the table in
/// that order, so the ids handed out are exactly the next `n` counter
/// values — for a fresh table, exactly `0 .. n-1` — with no repeats; and
/// every address of the table keeps its position, so resolving a known
/// address again always returns its original id.
pub proof fn lemma_identity_monotonic(s: Seq<u64>, news: Seq<u64>)
    requires
        distinct_addrs(s),
        distinct_addrs(news),
        forall|i: int| 0 <= i < news.len() ==> addr_index(s, #[trigger] news[i]) < 0,
        s.len() + news.len() <= MAX_PEERS,
    ensures
        resolve_all(s, news) =~= s + news,
        distinct_addrs(s + news),
        forall|i: int|
            0 <= i < news.len() ==> spec_resolve_id(s + news, #[trigger] news[i]) == Some(
                s.len() + i,
            ),
    decreases news.len(),
{
    if news.len() == 0 {
        assert(resolve_all(s, news) =~= s);
        assert(s + news =~= s);
    } else {
        let a = news[0];
        lemma_addr_index(s, a);
        assert(addr_index(s, a) < 0);
        let s2 = spec_resolve_table(s, a);
        assert(s2 == s.push(a));
        assert(distinct_addrs(s2)) by {
            lemma_addr_index(s, a);
        }
        assert forall|i: int|
            0 <= i < news.drop_first().len() implies addr_index(
            s2,
            #[trigger] news.drop_first()[i],
        ) < 0 by {
            let b = news.drop_first()[i];
            assert(b == news[i + 1]);
            lemma_addr_index(s, b);
            lemma_addr_index(s2, b);
            assert(b != a);
        }
        lemma_identity_monotonic(s2, news.drop_first());
        assert(resolve_all(s, news) == resolve_all(s2, news.drop_first()));
        assert(s2 + news.drop_first() =~= s + news);
        assert forall|i: int|
            0 <= i < news.len() implies spec_resolve_id(s + news, #[trigger] news[i]) == Some(
            s.len() + i,
        ) by {
            lemma_addr_index(s + news, news[i]);
            assert((s + news)[s.len() + i] == news[i]);
            assert(distinct_addrs(s + news));
            let found = addr_index(s + news, news[i]);
            assert(found >= 0 && (s + news)[found] == news[i]);
            assert(found == s.len() + i);
        }
    }
}

} // verus!
