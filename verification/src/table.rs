//! A table of peers keyed by address, each with the time it was last heard from and a
//! value, and the expiry of peers that went silent.
use vstd::prelude::*;
use crate::addr::PeerAddr;

verus! {

/// The entry for `a`: when it was last heard from and its value.
pub open spec fn lookup<V>(s: Seq<(PeerAddr, u128, V)>, a: PeerAddr) -> Option<(u128, V)> {
    if exists|i: int| 0 <= i < s.len() && s[i].0 == a {
        let i = choose|i: int| 0 <= i < s.len() && s[i].0 == a;
        Some((s[i].1, s[i].2))
    } else {
        None
    }
}

/// No address occurs twice.
pub open spec fn distinct_addrs<V>(s: Seq<(PeerAddr, u128, V)>) -> bool {
    forall|i: int, j: int| 0 <= i < j < s.len() ==> s[i].0 != s[j].0
}

/// Whether a peer last heard from at `seen` has been silent too long at `now`: the time
/// since then, in whole `unit`s (zero when `seen` is later), exceeds `limit`.
pub open spec fn stale(now: u128, seen: u128, unit: u128, limit: u128) -> bool {
    now > seen && (now - seen) / (unit as int) > limit
}

/// The entry at `i` is what `lookup` finds for its address.
pub proof fn lemma_lookup_at<V>(s: Seq<(PeerAddr, u128, V)>, i: int)
    requires
        distinct_addrs(s),
        0 <= i < s.len(),
    ensures
        lookup(s, s[i].0) == Some((s[i].1, s[i].2)),
{
    let a = s[i].0;
    assert(0 <= i < s.len() && s[i].0 == a);
    let j = choose|j: int| 0 <= j < s.len() && s[j].0 == a;
    if j < i {
    } else if j > i {
    }
}

/// Peers by address. Each address has at most one entry.
pub struct AddrTable<V> {
    entries: Vec<(PeerAddr, u128, V)>,
}

impl<V> AddrTable<V> {
    /// The entries, in the order they were added.
    pub closed spec fn entries_view(&self) -> Seq<(PeerAddr, u128, V)> {
        self.entries@
    }

    #[verifier::type_invariant]
    closed spec fn wf(&self) -> bool {
        distinct_addrs(self.entries@)
    }
}

impl<V: Copy> AddrTable<V> {
    /// An empty table.
    pub fn new() -> (r: AddrTable<V>)
        ensures
            forall|a: PeerAddr| lookup(r.entries_view(), a) is None,
    {
        AddrTable { entries: Vec::new() }
    }

    fn index_of(&self, a: PeerAddr) -> (r: Option<usize>)
        ensures
            match r {
                Some(i) => i < self.entries_view().len() && self.entries_view()[i as int].0 == a,
                None => lookup(self.entries_view(), a) is None,
            },
    {
        let mut i: usize = 0;
        while i < self.entries.len()
            invariant
                0 <= i <= self.entries@.len(),
                forall|j: int| 0 <= j < i ==> self.entries@[j].0 != a,
            decreases self.entries@.len() - i,
        {
            if self.entries[i].0 == a {
                return Some(i);
            }
            i = i + 1;
        }
        None
    }

    /// The entry for `a`.
    pub fn get(&self, a: PeerAddr) -> (r: Option<(u128, V)>)
        ensures
            r == lookup(self.entries_view(), a),
    {
        proof {
            use_type_invariant(self);
        }
        match self.index_of(a) {
            Some(i) => {
                proof {
                    lemma_lookup_at(self.entries@, i as int);
                }
                let e = self.entries[i];
                Some((e.1, e.2))
            },
            None => None,
        }
    }

    /// Whether `a` has an entry.
    pub fn contains(&self, a: PeerAddr) -> (r: bool)
        ensures
            r == lookup(self.entries_view(), a) is Some,
    {
        self.get(a).is_some()
    }

    /// Records `a` as heard from at `seen`, with value `v`; other entries stay.
    pub fn set(&mut self, a: PeerAddr, seen: u128, v: V)
        ensures
            lookup(final(self).entries_view(), a) == Some((seen, v)),
            forall|b: PeerAddr| b != a ==> lookup(final(self).entries_view(), b) == lookup(old(self).entries_view(), b),
    {
        proof {
            use_type_invariant(&*self);
        }
        let ghost before = self.entries@;
        match self.index_of(a) {
            Some(i) => {
                let mut entries = Vec::new();
                std::mem::swap(&mut entries, &mut self.entries);
                entries.set(i, (a, seen, v));
                let ghost after = entries@;
                assert(after == before.update(i as int, (a, seen, v)));
                assert(distinct_addrs(after)) by {
                    assert forall|x: int, y: int| 0 <= x < y < after.len() implies after[x].0 != after[y].0 by {
                        if x != i && y != i {
                            assert(after[x] == before[x] && after[y] == before[y]);
                        } else if x == i {
                            assert(after[y] == before[y]);
                        } else {
                            assert(after[x] == before[x]);
                        }
                    }
                }
                proof {
                    lemma_lookup_at(after, i as int);
                    assert forall|b: PeerAddr| b != a implies lookup(after, b) == lookup(before, b) by {
                        lemma_lookup_other(before, after, b, i as int);
                    }
                }
                self.entries = entries;
            },
            None => {
                let mut entries = Vec::new();
                std::mem::swap(&mut entries, &mut self.entries);
                entries.push((a, seen, v));
                let ghost after = entries@;
                assert(after == before.push((a, seen, v)));
                assert(distinct_addrs(after)) by {
                    assert forall|x: int, y: int| 0 <= x < y < after.len() implies after[x].0 != after[y].0 by {
                        if y == before.len() {
                            assert(after[x] == before[x]);
                            assert(!(0 <= x < before.len() && before[x].0 == a));
                        } else {
                            assert(after[x] == before[x] && after[y] == before[y]);
                        }
                    }
                }
                proof {
                    lemma_lookup_at(after, before.len() as int);
                    assert forall|b: PeerAddr| b != a implies lookup(after, b) == lookup(before, b) by {
                        lemma_lookup_pushed(before, after, b);
                    }
                }
                self.entries = entries;
            },
        }
    }

    /// Drops the entry for `a`, if any; other entries stay.
    pub fn remove(&mut self, a: PeerAddr)
        ensures
            lookup(final(self).entries_view(), a) is None,
            forall|b: PeerAddr| b != a ==> lookup(final(self).entries_view(), b) == lookup(old(self).entries_view(), b),
    {
        proof {
            use_type_invariant(&*self);
        }
        let ghost before = self.entries@;
        let mut kept: Vec<(PeerAddr, u128, V)> = Vec::new();
        let mut i: usize = 0;
        while i < self.entries.len()
            invariant
                before == self.entries@,
                distinct_addrs(before),
                0 <= i <= before.len(),
                distinct_addrs(kept@),
                forall|x: int| 0 <= x < kept@.len() ==> kept@[x].0 != a,
                forall|b: PeerAddr| b != a ==> lookup(kept@, b) == lookup(before.subrange(0, i as int), b),
                forall|x: int| 0 <= x < kept@.len() ==> exists|y: int| 0 <= y < i && before[y] == #[trigger] kept@[x],
            decreases before.len() - i,
        {
            let e = self.entries[i];
            let ghost old_kept = kept@;
            proof {
                lemma_prefix_step(before, i as int);
            }
            if e.0 != a {
                kept.push(e);
                proof {
                    assert forall|x: int, y: int| 0 <= x < y < kept@.len() implies kept@[x].0 != kept@[y].0 by {
                        if y == old_kept.len() {
                            let z = choose|z: int| 0 <= z < i && before[z] == old_kept[x];
                            assert(before[z].0 != before[i as int].0);
                        } else {
                            assert(kept@[x] == old_kept[x] && kept@[y] == old_kept[y]);
                        }
                    }
                    assert forall|x: int| 0 <= x < kept@.len() implies exists|y: int| 0 <= y < i + 1 && before[y] == #[trigger] kept@[x] by {
                        if x == old_kept.len() {
                            assert(before[i as int] == kept@[x]);
                        } else {
                            assert(kept@[x] == old_kept[x]);
                        }
                    }
                    assert forall|b: PeerAddr| b != a implies lookup(kept@, b) == lookup(before.subrange(0, i + 1), b) by {
                        lemma_lookup_pushed(old_kept, kept@, b);
                        lemma_lookup_pushed(before.subrange(0, i as int), before.subrange(0, i + 1), b);
                        if b == e.0 {
                            lemma_lookup_at(kept@, old_kept.len() as int);
                            lemma_lookup_at(before.subrange(0, i + 1), i as int);
                        }
                    }
                }
            } else {
                proof {
                    assert forall|b: PeerAddr| b != a implies lookup(kept@, b) == lookup(before.subrange(0, i + 1), b) by {
                        lemma_lookup_pushed(before.subrange(0, i as int), before.subrange(0, i + 1), b);
                    }
                }
            }
            i = i + 1;
        }
        proof {
            assert(before.subrange(0, before.len() as int) =~= before);
        }
        self.entries = kept;
    }
}

/// What is left of an entry after expiry at `now`.
pub open spec fn fresh_entry<V>(e: Option<(u128, V)>, now: u128, unit: u128, limit: u128) -> Option<(u128, V)> {
    match e {
        Some((seen, v)) => if stale(now, seen, unit, limit) {
            None
        } else {
            Some((seen, v))
        },
        None => None,
    }
}

/// Whether the entry is one that expiry at `now` drops.
pub open spec fn expires<V>(e: Option<(u128, V)>, now: u128, unit: u128, limit: u128) -> bool {
    e matches Some((seen, _)) && stale(now, seen, unit, limit)
}

impl<V: Copy> AddrTable<V> {
    /// Drops every peer that has been silent longer than `limit` units of `unit` at `now`,
    /// and returns their addresses.
    pub fn expire(&mut self, now: u128, unit: u128, limit: u128) -> (r: Vec<PeerAddr>)
        requires
            unit > 0,
        ensures
            forall|a: PeerAddr| lookup(final(self).entries_view(), a) == fresh_entry(
                lookup(old(self).entries_view(), a), now, unit, limit),
            forall|a: PeerAddr| r@.contains(a) <==> expires(lookup(old(self).entries_view(), a), now, unit, limit),
            r@.no_duplicates(),
    {
        proof {
            use_type_invariant(&*self);
        }
        let ghost before = self.entries@;
        let mut kept: Vec<(PeerAddr, u128, V)> = Vec::new();
        let mut dropped: Vec<PeerAddr> = Vec::new();
        let mut i: usize = 0;
        while i < self.entries.len()
            invariant
                before == self.entries@,
                distinct_addrs(before),
                unit > 0,
                0 <= i <= before.len(),
                distinct_addrs(kept@),
                forall|b: PeerAddr| lookup(kept@, b) == fresh_entry(lookup(before.subrange(0, i as int), b), now, unit, limit),
                forall|b: PeerAddr| dropped@.contains(b) <==> expires(lookup(before.subrange(0, i as int), b), now, unit, limit),
                dropped@.no_duplicates(),
                forall|x: int| 0 <= x < kept@.len() ==> exists|y: int| 0 <= y < i && before[y] == #[trigger] kept@[x],
            decreases before.len() - i,
        {
            let e = self.entries[i];
            let ghost old_kept = kept@;
            let ghost old_dropped = dropped@;
            let ghost pre = before.subrange(0, i as int);
            let ghost next = before.subrange(0, i + 1);
            proof {
                lemma_prefix_step(before, i as int);
                lemma_lookup_at(next, i as int);
                assert forall|j: int| 0 <= j < pre.len() implies pre[j].0 != e.0 by {
                    assert(pre[j] == before[j]);
                }
                assert forall|b: PeerAddr| b != e.0 implies lookup(next, b) == lookup(pre, b) by {
                    lemma_lookup_pushed(pre, next, b);
                }
            }
            let gone = now > e.1 && (now - e.1) / unit > limit;
            if gone {
                proof {
                    assert(!old_dropped.contains(e.0)) by {
                        if old_dropped.contains(e.0) {
                            assert(expires(lookup(pre, e.0), now, unit, limit));
                        }
                    }
                }
                dropped.push(e.0);
                proof {
                    assert forall|x: int, y: int| 0 <= x < y < dropped@.len() implies dropped@[x] != dropped@[y] by {
                        if y == old_dropped.len() {
                            assert(old_dropped[x] == dropped@[x]);
                            assert(old_dropped.contains(dropped@[x]));
                        } else {
                            assert(old_dropped[x] == dropped@[x] && old_dropped[y] == dropped@[y]);
                        }
                    }
                    assert forall|b: PeerAddr| dropped@.contains(b) <==> expires(lookup(next, b), now, unit, limit) by {
                        if b == e.0 {
                            assert(dropped@[dropped@.len() - 1] == b);
                        } else {
                            if dropped@.contains(b) {
                                let k = choose|k: int| 0 <= k < dropped@.len() && dropped@[k] == b;
                                assert(old_dropped[k] == b);
                            }
                            if old_dropped.contains(b) {
                                let k = choose|k: int| 0 <= k < old_dropped.len() && old_dropped[k] == b;
                                assert(dropped@[k] == b);
                            }
                        }
                    }
                    assert forall|b: PeerAddr| lookup(kept@, b) == fresh_entry(lookup(next, b), now, unit, limit) by {
                        if b == e.0 {
                            assert forall|x: int| 0 <= x < kept@.len() implies kept@[x].0 != b by {
                                let z = choose|z: int| 0 <= z < i && before[z] == kept@[x];
                                assert(before[z].0 != before[i as int].0);
                            }
                        }
                    }
                }
            } else {
                kept.push(e);
                proof {
                    assert forall|x: int, y: int| 0 <= x < y < kept@.len() implies kept@[x].0 != kept@[y].0 by {
                        if y == old_kept.len() {
                            let z = choose|z: int| 0 <= z < i && before[z] == old_kept[x];
                            assert(before[z].0 != before[i as int].0);
                        } else {
                            assert(kept@[x] == old_kept[x] && kept@[y] == old_kept[y]);
                        }
                    }
                    assert forall|x: int| 0 <= x < kept@.len() implies exists|y: int| 0 <= y < i + 1 && before[y] == #[trigger] kept@[x] by {
                        if x == old_kept.len() {
                            assert(before[i as int] == kept@[x]);
                        } else {
                            assert(kept@[x] == old_kept[x]);
                        }
                    }
                    assert forall|b: PeerAddr| lookup(kept@, b) == fresh_entry(lookup(next, b), now, unit, limit) by {
                        if b == e.0 {
                            lemma_lookup_at(kept@, old_kept.len() as int);
                        } else {
                            lemma_lookup_pushed(old_kept, kept@, b);
                        }
                    }
                    assert forall|b: PeerAddr| dropped@.contains(b) <==> expires(lookup(next, b), now, unit, limit) by {
                        if b == e.0 {
                            if dropped@.contains(b) {
                                assert(expires(lookup(pre, b), now, unit, limit));
                            }
                        }
                    }
                }
            }
            i = i + 1;
        }
        proof {
            assert(before.subrange(0, before.len() as int) =~= before);
        }
        self.entries = kept;
        dropped
    }

    /// The addresses in the table.
    pub fn addrs(&self) -> (r: Vec<PeerAddr>)
        ensures
            forall|a: PeerAddr| r@.contains(a) <==> lookup(self.entries_view(), a) is Some,
            r@.no_duplicates(),
    {
        proof {
            use_type_invariant(self);
        }
        let mut r: Vec<PeerAddr> = Vec::new();
        let mut i: usize = 0;
        while i < self.entries.len()
            invariant
                0 <= i <= self.entries@.len(),
                r@ == Seq::new(i as nat, |k: int| self.entries@[k].0),
            decreases self.entries@.len() - i,
        {
            r.push(self.entries[i].0);
            i = i + 1;
            assert(r@ =~= Seq::new(i as nat, |k: int| self.entries@[k].0));
        }
        proof {
            assert forall|x: int, y: int| 0 <= x < y < r@.len() implies r@[x] != r@[y] by {
                assert(r@[x] == self.entries@[x].0 && r@[y] == self.entries@[y].0);
            }
            assert forall|a: PeerAddr| r@.contains(a) <==> lookup(self.entries_view(), a) is Some by {
                if r@.contains(a) {
                    let k = choose|k: int| 0 <= k < r@.len() && r@[k] == a;
                    assert(self.entries@[k].0 == a);
                }
                if lookup(self.entries_view(), a) is Some {
                    let k = choose|k: int| 0 <= k < self.entries@.len() && self.entries@[k].0 == a;
                    assert(r@[k] == a);
                }
            }
        }
        r
    }
}

/// Updating the entry at `i` leaves what the table finds for other addresses.
proof fn lemma_lookup_other<V>(before: Seq<(PeerAddr, u128, V)>, after: Seq<(PeerAddr, u128, V)>, b: PeerAddr, i: int)
    requires
        distinct_addrs(before),
        distinct_addrs(after),
        0 <= i < before.len(),
        after.len() == before.len(),
        after[i].0 == before[i].0,
        forall|j: int| 0 <= j < before.len() && j != i ==> after[j] == before[j],
        b != before[i].0,
    ensures
        lookup(after, b) == lookup(before, b),
{
    if exists|j: int| 0 <= j < before.len() && before[j].0 == b {
        let j = choose|j: int| 0 <= j < before.len() && before[j].0 == b;
        lemma_lookup_at(before, j);
        lemma_lookup_at(after, j);
    } else {
        assert forall|j: int| 0 <= j < after.len() implies after[j].0 != b by {
            if j != i {
                assert(after[j] == before[j]);
            }
        }
    }
}

/// Appending an entry for another address leaves what the table finds for `b`.
proof fn lemma_lookup_pushed<V>(before: Seq<(PeerAddr, u128, V)>, after: Seq<(PeerAddr, u128, V)>, b: PeerAddr)
    requires
        distinct_addrs(before),
        distinct_addrs(after),
        after.len() == before.len() + 1,
        forall|j: int| 0 <= j < before.len() ==> after[j] == before[j],
    ensures
        after[before.len() as int].0 != b ==> lookup(after, b) == lookup(before, b),
{
    if after[before.len() as int].0 != b {
        if exists|j: int| 0 <= j < before.len() && before[j].0 == b {
            let j = choose|j: int| 0 <= j < before.len() && before[j].0 == b;
            lemma_lookup_at(before, j);
            lemma_lookup_at(after, j);
        } else {
            assert forall|j: int| 0 <= j < after.len() implies after[j].0 != b by {
                if j < before.len() {
                    assert(after[j] == before[j]);
                }
            }
        }
    }
}

proof fn lemma_prefix_step<V>(s: Seq<(PeerAddr, u128, V)>, i: int)
    requires
        distinct_addrs(s),
        0 <= i < s.len(),
    ensures
        distinct_addrs(s.subrange(0, i)),
        distinct_addrs(s.subrange(0, i + 1)),
        s.subrange(0, i + 1) == s.subrange(0, i).push(s[i]),
{
    assert(s.subrange(0, i + 1) =~= s.subrange(0, i).push(s[i]));
}

} // verus!
