use crate::address::Address;
use vstd::prelude::*;

verus! {

/// The sticky-session table: which server address each client address was
/// last sent to. It holds each client at most once.
pub struct SessionTable {
    entries: Vec<(Address, Address)>,
}

/// The mapping that a list of (client, server) pairs with distinct clients
/// stands for.
pub open spec fn entries_map(s: Seq<(Address, Address)>) -> Map<Address, Address> {
    Map::new(
        |k: Address| exists|i: int| 0 <= i < s.len() && #[trigger] s[i].0 == k,
        |k: Address| s[choose|i: int| 0 <= i < s.len() && #[trigger] s[i].0 == k].1,
    )
}

/// No client occurs twice in the list.
pub open spec fn distinct_clients(s: Seq<(Address, Address)>) -> bool {
    forall|i: int, j: int| 0 <= i < s.len() && 0 <= j < s.len() && i != j ==> #[trigger] s[i].0 != #[trigger] s[j].0
}

proof fn lemma_lookup(s: Seq<(Address, Address)>, i: int)
    requires
        distinct_clients(s),
        0 <= i < s.len(),
    ensures
        entries_map(s).contains_key(s[i].0),
        entries_map(s)[s[i].0] == s[i].1,
{
    let k = s[i].0;
    assert(s[i].0 == k);
    let j = choose|j: int| 0 <= j < s.len() && #[trigger] s[j].0 == k;
    assert(s[j].0 == k);
}

impl View for SessionTable {
    type V = Map<Address, Address>;

    closed spec fn view(&self) -> Map<Address, Address> {
        entries_map(self.entries@)
    }
}

impl SessionTable {
    /// The table's invariant: each client occurs once.
    pub closed spec fn wf(&self) -> bool {
        distinct_clients(self.entries@)
    }

    /// An empty table.
    pub fn new() -> (t: SessionTable)
        ensures
            t.wf(),
            t@ == Map::<Address, Address>::empty(),
    {
        let t = SessionTable { entries: Vec::new() };
        assert(t@ =~= Map::<Address, Address>::empty());
        t
    }

    /// The number of clients in the table.
    pub fn len(&self) -> (n: usize)
        requires
            self.wf(),
        ensures
            n == self@.len(),
    {
        proof { self.lemma_len(); }
        self.entries.len()
    }

    proof fn lemma_len(&self)
        requires
            self.wf(),
        ensures
            self@.dom().finite(),
            self@.len() == self.entries@.len(),
        decreases self.entries@.len(),
    {
        let s = self.entries@;
        let keys = s.map_values(|p: (Address, Address)| p.0);
        assert forall|i: int, j: int| 0 <= i < keys.len() && 0 <= j < keys.len() && i != j implies keys[i] != keys[j] by {
            assert(s[i].0 != s[j].0);
        }
        keys.unique_seq_to_set();
        assert(self@.dom() =~= keys.to_set()) by {
            assert forall|k: Address| self@.dom().contains(k) implies keys.to_set().contains(k) by {
                let i = choose|i: int| 0 <= i < s.len() && #[trigger] s[i].0 == k;
                assert(keys[i] == k);
            }
            assert forall|k: Address| keys.to_set().contains(k) implies self@.dom().contains(k) by {
                let i = choose|i: int| 0 <= i < keys.len() && keys[i] == k;
                assert(s[i].0 == k);
            }
        }
    }

    /// The position of a client in the table, if it is there.
    fn position(&self, client: &Address) -> (r: Option<usize>)
        requires
            self.wf(),
        ensures
            match r {
                Some(i) => i < self.entries@.len() && self.entries@[i as int].0 == *client,
                None => !self@.contains_key(*client),
            },
    {
        let mut i: usize = 0;
        while i < self.entries.len()
            invariant
                i <= self.entries@.len(),
                forall|j: int| 0 <= j < i ==> #[trigger] self.entries@[j].0 != *client,
            decreases self.entries@.len() - i,
        {
            if self.entries[i].0 == *client {
                return Some(i);
            }
            i = i + 1;
        }
        None
    }

    /// The server that a client is stuck to, if any.
    pub fn get(&self, client: &Address) -> (r: Option<Address>)
        requires
            self.wf(),
        ensures
            r == (if self@.contains_key(*client) {
                Some(self@[*client])
            } else {
                None::<Address>
            }),
    {
        match self.position(client) {
            Some(i) => {
                proof { lemma_lookup(self.entries@, i as int); }
                Some(self.entries[i].1)
            },
            None => None,
        }
    }

    /// Sticks a client to a server, replacing what it was stuck to before.
    pub fn insert(&mut self, client: Address, server: Address)
        requires
            old(self).wf(),
        ensures
            final(self).wf(),
            final(self)@ == old(self)@.insert(client, server),
    {
        let ghost s0 = self.entries@;
        match self.position(&client) {
            Some(i) => {
                self.entries.set(i, (client, server));
                let ghost s1 = self.entries@;
                assert(distinct_clients(s1)) by {
                    assert forall|a: int, b: int| 0 <= a < s1.len() && 0 <= b < s1.len() && a != b implies #[trigger] s1[a].0 != #[trigger] s1[b].0 by {
                        assert(s0[a].0 == s1[a].0 && s0[b].0 == s1[b].0);
                    }
                }
                assert forall|k: Address| #[trigger] entries_map(s1).contains_key(k) <==> entries_map(s0).insert(client, server).contains_key(k) by {
                    if entries_map(s0).contains_key(k) {
                        let j = choose|j: int| 0 <= j < s0.len() && #[trigger] s0[j].0 == k;
                        assert(s1[j].0 == k);
                    }
                    if entries_map(s1).contains_key(k) {
                        let j = choose|j: int| 0 <= j < s1.len() && #[trigger] s1[j].0 == k;
                        assert(s0[j].0 == k);
                    }
                }
                assert forall|k: Address| #[trigger] entries_map(s1).contains_key(k) implies entries_map(s1)[k] == entries_map(s0).insert(client, server)[k] by {
                    let j = choose|j: int| 0 <= j < s1.len() && #[trigger] s1[j].0 == k;
                    lemma_lookup(s1, j);
                    if k != client {
                        assert(s0[j] == s1[j]);
                        lemma_lookup(s0, j);
                    }
                }
                assert(entries_map(s1) =~= entries_map(s0).insert(client, server));
            },
            None => {
                self.entries.push((client, server));
                let ghost s1 = self.entries@;
                assert(distinct_clients(s1)) by {
                    assert forall|a: int, b: int| 0 <= a < s1.len() && 0 <= b < s1.len() && a != b implies #[trigger] s1[a].0 != #[trigger] s1[b].0 by {
                        if a < s0.len() && b < s0.len() {
                            assert(s0[a].0 == s1[a].0 && s0[b].0 == s1[b].0);
                        } else if a < s0.len() {
                            assert(s0[a].0 == s1[a].0);
                            assert(entries_map(s0).contains_key(s0[a].0));
                        } else {
                            assert(s0[b].0 == s1[b].0);
                            assert(entries_map(s0).contains_key(s0[b].0));
                        }
                    }
                }
                assert forall|k: Address| #[trigger] entries_map(s1).contains_key(k) <==> entries_map(s0).insert(client, server).contains_key(k) by {
                    if entries_map(s0).contains_key(k) {
                        let j = choose|j: int| 0 <= j < s0.len() && #[trigger] s0[j].0 == k;
                        assert(s1[j].0 == k);
                    }
                    if k == client {
                        assert(s1[s0.len() as int].0 == k);
                    }
                    if entries_map(s1).contains_key(k) && k != client {
                        let j = choose|j: int| 0 <= j < s1.len() && #[trigger] s1[j].0 == k;
                        assert(s0[j].0 == k);
                    }
                }
                assert forall|k: Address| #[trigger] entries_map(s1).contains_key(k) implies entries_map(s1)[k] == entries_map(s0).insert(client, server)[k] by {
                    let j = choose|j: int| 0 <= j < s1.len() && #[trigger] s1[j].0 == k;
                    lemma_lookup(s1, j);
                    if k != client {
                        assert(s0[j] == s1[j]);
                        lemma_lookup(s0, j);
                    } else {
                        lemma_lookup(s1, s0.len() as int);
                    }
                }
                assert(entries_map(s1) =~= entries_map(s0).insert(client, server));
            },
        }
    }

    /// Unsticks a client.
    pub fn remove(&mut self, client: &Address)
        requires
            old(self).wf(),
        ensures
            final(self).wf(),
            final(self)@ == old(self)@.remove(*client),
    {
        let ghost s0 = self.entries@;
        match self.position(client) {
            Some(i) => {
                self.entries.remove(i);
                let ghost s1 = self.entries@;
                assert forall|j: int| 0 <= j < s1.len() implies #[trigger] s1[j] == s0[if j < i { j } else { j + 1 }] by {}
                assert(distinct_clients(s1)) by {
                    assert forall|a: int, b: int| 0 <= a < s1.len() && 0 <= b < s1.len() && a != b implies #[trigger] s1[a].0 != #[trigger] s1[b].0 by {
                        let a0 = if a < i { a } else { a + 1 };
                        let b0 = if b < i { b } else { b + 1 };
                        assert(s1[a] == s0[a0] && s1[b] == s0[b0]);
                        assert(s0[a0].0 != s0[b0].0);
                    }
                }
                assert forall|k: Address| #[trigger] entries_map(s1).contains_key(k) <==> entries_map(s0).remove(*client).contains_key(k) by {
                    if entries_map(s0).contains_key(k) && k != *client {
                        let j = choose|j: int| 0 <= j < s0.len() && #[trigger] s0[j].0 == k;
                        assert(j != i);
                        let j1 = if j < i { j } else { j - 1 };
                        assert(s1[j1] == s0[j]);
                    }
                    if entries_map(s1).contains_key(k) {
                        let j = choose|j: int| 0 <= j < s1.len() && #[trigger] s1[j].0 == k;
                        let j0 = if j < i { j } else { j + 1 };
                        assert(s1[j] == s0[j0]);
                        assert(s0[j0].0 == k);
                        assert(j0 != i);
                        assert(s0[i as int].0 == *client);
                    }
                }
                assert forall|k: Address| #[trigger] entries_map(s1).contains_key(k) implies entries_map(s1)[k] == entries_map(s0).remove(*client)[k] by {
                    let j = choose|j: int| 0 <= j < s1.len() && #[trigger] s1[j].0 == k;
                    let j0 = if j < i { j } else { j + 1 };
                    assert(s1[j] == s0[j0]);
                    lemma_lookup(s1, j);
                    lemma_lookup(s0, j0);
                }
                assert(entries_map(s1) =~= entries_map(s0).remove(*client));
            },
            None => {
                assert(entries_map(s0) =~= entries_map(s0).remove(*client));
            },
        }
    }
}

} // verus!
