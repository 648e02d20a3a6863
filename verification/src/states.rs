//! The authoritative states a Session keeps, one per retained remote state
//! number, ordered by number.
use vstd::prelude::*;

verus! {

/// Entries ordered by strictly increasing state number.
pub open spec fn sorted_entries<T>(s: Seq<(u64, T)>) -> bool {
    forall|i: int, j: int| 0 <= i < j < s.len() ==> #[trigger] s[i].0 < #[trigger] s[j].0
}

/// Whether some entry has state number `k`.
pub open spec fn has_key<T>(s: Seq<(u64, T)>, k: u64) -> bool {
    exists|i: int| 0 <= i < s.len() && #[trigger] s[i].0 == k
}

/// The entries as a map from state number to state.
pub open spec fn entries_map<T>(s: Seq<(u64, T)>) -> Map<u64, T> {
    Map::new(
        |k: u64| has_key(s, k),
        |k: u64| s[choose|i: int| 0 <= i < s.len() && #[trigger] s[i].0 == k].1,
    )
}

proof fn lemma_entry_in_map<T>(s: Seq<(u64, T)>, i: int)
    requires
        sorted_entries(s),
        0 <= i < s.len(),
    ensures
        entries_map(s).contains_key(s[i].0),
        entries_map(s)[s[i].0] == s[i].1,
{
    let k = s[i].0;
    assert(has_key(s, k));
    let j = choose|j: int| 0 <= j < s.len() && #[trigger] s[j].0 == k;
    if j < i {
        assert(s[j].0 < s[i].0);
    } else if i < j {
        assert(s[i].0 < s[j].0);
    }
}

/// Removing one entry keeps the order and forgets its state.
proof fn lemma_remove_entry<T>(s: Seq<(u64, T)>, i: int)
    requires
        sorted_entries(s),
        0 <= i < s.len(),
    ensures
        sorted_entries(s.remove(i)),
        entries_map(s.remove(i)) == entries_map(s).remove(s[i].0),
{
    let after = s.remove(i);
    assert forall|a: int, b: int| 0 <= a < b < after.len() implies #[trigger] after[a].0
        < #[trigger] after[b].0 by {
        let a2 = if a < i {
            a
        } else {
            a + 1
        };
        let b2 = if b < i {
            b
        } else {
            b + 1
        };
        assert(after[a] == s[a2] && after[b] == s[b2]);
        assert(s[a2].0 < s[b2].0);
    }
    let expected = entries_map(s).remove(s[i].0);
    assert forall|x: u64| #[trigger] entries_map(after).contains_key(x) == expected.contains_key(x)
        by {
        if has_key(after, x) {
            let k = choose|k: int| 0 <= k < after.len() && #[trigger] after[k].0 == x;
            let k2 = if k < i {
                k
            } else {
                k + 1
            };
            assert(after[k] == s[k2]);
            assert(has_key(s, x));
            if k2 < i {
                assert(s[k2].0 < s[i].0);
            } else {
                assert(s[i].0 < s[k2].0);
            }
        }
        if has_key(s, x) && x != s[i].0 {
            let k = choose|k: int| 0 <= k < s.len() && #[trigger] s[k].0 == x;
            if k < i {
                assert(after[k] == s[k]);
            } else {
                assert(k != i);
                assert(after[k - 1] == s[k]);
            }
        }
    }
    assert forall|x: u64| #[trigger] entries_map(after).contains_key(x) implies entries_map(after)[x]
        == expected[x] by {
        let k = choose|k: int| 0 <= k < after.len() && #[trigger] after[k].0 == x;
        lemma_entry_in_map(after, k);
        let k2 = if k < i {
            k
        } else {
            k + 1
        };
        assert(after[k] == s[k2]);
        lemma_entry_in_map(s, k2);
    }
    assert(entries_map(after) =~= expected);
}

/// Inserting an entry where its number belongs keeps the order and adds its
/// state.
proof fn lemma_insert_entry<T>(s: Seq<(u64, T)>, i: int, state: u64, value: T)
    requires
        sorted_entries(s),
        0 <= i <= s.len(),
        forall|k: int| 0 <= k < i ==> (#[trigger] s[k]).0 < state,
        forall|k: int| i <= k < s.len() ==> state < (#[trigger] s[k]).0,
    ensures
        sorted_entries(s.insert(i, (state, value))),
        entries_map(s.insert(i, (state, value))) == entries_map(s).insert(state, value),
{
    let after = s.insert(i, (state, value));
    assert forall|a: int, b: int| 0 <= a < b < after.len() implies #[trigger] after[a].0
        < #[trigger] after[b].0 by {
        if a < i && b < i {
            assert(after[a] == s[a] && after[b] == s[b]);
        } else if a < i && b == i {
            assert(after[a] == s[a]);
        } else if a < i {
            assert(after[a] == s[a] && after[b] == s[b - 1]);
        } else if a == i {
            assert(after[b] == s[b - 1]);
        } else {
            assert(after[a] == s[a - 1] && after[b] == s[b - 1]);
        }
    }
    let expected = entries_map(s).insert(state, value);
    assert forall|x: u64| #[trigger] entries_map(after).contains_key(x) == expected.contains_key(x)
        by {
        if x == state {
            lemma_entry_in_map(after, i);
        } else {
            if has_key(after, x) {
                let k = choose|k: int| 0 <= k < after.len() && #[trigger] after[k].0 == x;
                if k < i {
                    assert(after[k] == s[k]);
                } else {
                    assert(k != i);
                    assert(after[k] == s[k - 1]);
                }
            }
            if has_key(s, x) {
                let k = choose|k: int| 0 <= k < s.len() && #[trigger] s[k].0 == x;
                if k < i {
                    assert(after[k] == s[k]);
                } else {
                    assert(after[k + 1] == s[k]);
                }
            }
        }
    }
    assert forall|x: u64| #[trigger] entries_map(after).contains_key(x) implies entries_map(after)[x]
        == expected[x] by {
        if x == state {
            lemma_entry_in_map(after, i);
        } else {
            let k = choose|k: int| 0 <= k < after.len() && #[trigger] after[k].0 == x;
            lemma_entry_in_map(after, k);
            assert(k != i);
            let j = if k < i {
                k
            } else {
                k - 1
            };
            assert(after[k] == s[j]);
            lemma_entry_in_map(s, j);
        }
    }
    assert(entries_map(after) =~= expected);
}

/// Retained states keyed by state number.
pub struct StateTable<T> {
    entries: Vec<(u64, T)>,
}

impl<T> StateTable<T> {
    /// The retained states.
    pub closed spec fn view(&self) -> Map<u64, T> {
        entries_map(self.entries@)
    }

    /// The table's invariant: state numbers strictly increase.
    pub closed spec fn wf(&self) -> bool {
        sorted_entries(self.entries@)
    }

    /// A table holding `initial` as state 0.
    pub fn new(initial: T) -> (r: StateTable<T>)
        ensures
            r.wf(),
            r.view() == Map::<u64, T>::empty().insert(0, initial),
    {
        let mut entries: Vec<(u64, T)> = Vec::new();
        entries.push((0, initial));
        let r = StateTable { entries };
        proof {
            lemma_entry_in_map(r.entries@, 0);
            assert(r.view() =~= Map::<u64, T>::empty().insert(0, initial));
        }
        r
    }

    /// The state numbered `state`, if retained.
    pub fn get(&self, state: u64) -> (r: Option<&T>)
        requires
            self.wf(),
        ensures
            r is Some <==> self.view().contains_key(state),
            r matches Some(v) ==> *v == self.view()[state],
    {
        let mut i: usize = 0;
        while i < self.entries.len()
            invariant
                self.wf(),
                i <= self.entries@.len(),
                forall|k: int| 0 <= k < i ==> (#[trigger] self.entries@[k]).0 != state,
            decreases self.entries@.len() - i,
        {
            if self.entries[i].0 == state {
                proof {
                    lemma_entry_in_map(self.entries@, i as int);
                }
                return Some(&self.entries[i].1);
            }
            i = i + 1;
        }
        None
    }

    /// Records `value` as state `state`, replacing an earlier one.
    pub fn insert(&mut self, state: u64, value: T)
        requires
            old(self).wf(),
        ensures
            final(self).wf(),
            final(self).view() == old(self).view().insert(state, value),
    {
        let ghost before = self.entries@;
        let mut i: usize = 0;
        while i < self.entries.len() && self.entries[i].0 < state
            invariant
                self.entries@ == before,
                sorted_entries(before),
                i <= before.len(),
                forall|k: int| 0 <= k < i ==> (#[trigger] before[k]).0 < state,
            decreases before.len() - i,
        {
            i = i + 1;
        }
        if i < self.entries.len() && self.entries[i].0 == state {
            self.entries.remove(i);
            proof {
                lemma_remove_entry(before, i as int);
                assert forall|k: int| i <= k < self.entries@.len() implies state
                    < (#[trigger] self.entries@[k]).0 by {
                    assert(self.entries@[k] == before[k + 1]);
                    assert(before[i as int].0 < before[k + 1].0);
                }
                assert forall|k: int| 0 <= k < i implies (#[trigger] self.entries@[k]).0
                    < state by {
                    assert(self.entries@[k] == before[k]);
                }
            }
        } else {
            proof {
                assert forall|k: int| i <= k < before.len() implies state
                    < (#[trigger] before[k]).0 by {
                    if k > i {
                        assert(before[i as int].0 < before[k].0);
                    }
                }
                assert(!entries_map(before).contains_key(state)) by {
                    if has_key(before, state) {
                        let k = choose|k: int| 0 <= k < before.len() && #[trigger] before[k].0
                            == state;
                        if k >= i {
                            assert(state < before[k].0);
                        }
                    }
                }
                assert(entries_map(before).remove(state) =~= entries_map(before));
            }
        }
        let ghost rest = self.entries@;
        self.entries.insert(i, (state, value));
        proof {
            lemma_insert_entry(rest, i as int, state, value);
            assert(entries_map(before).remove(state).insert(state, value) =~= entries_map(
                before,
            ).insert(state, value));
        }
    }

    /// Forgets every state numbered below `floor`, and the state
    /// `evicted`, if any.
    pub fn discard(&mut self, floor: u64, evicted: Option<u64>)
        requires
            old(self).wf(),
        ensures
            final(self).wf(),
            final(self).view() == Map::new(
                |k: u64| old(self).view().contains_key(k) && k >= floor && Some(k) != evicted,
                |k: u64| old(self).view()[k],
            ),
    {
        let ghost original = entries_map(self.entries@);
        while self.entries.len() > 0 && self.entries[0].0 < floor
            invariant
                sorted_entries(self.entries@),
                forall|k: u64| #[trigger] entries_map(self.entries@).contains_key(k) ==> original.contains_key(k)
                    && entries_map(self.entries@)[k] == original[k],
                forall|k: u64| original.contains_key(k) && k >= floor ==> #[trigger] entries_map(
                    self.entries@,
                ).contains_key(k),
            decreases self.entries@.len(),
        {
            let ghost before = self.entries@;
            self.entries.remove(0);
            proof {
                lemma_remove_entry(before, 0);
            }
        }
        proof {
            let now = self.entries@;
            assert forall|x: u64| #[trigger] entries_map(now).contains_key(x) implies x >= floor by {
                let k = choose|k: int| 0 <= k < now.len() && #[trigger] now[k].0 == x;
                if k > 0 {
                    assert(now[0].0 < now[k].0);
                }
            }
        }
        let ghost kept = entries_map(self.entries@);
        match evicted {
            None => {},
            Some(state) => {
                let ghost entries = self.entries@;
                let mut i: usize = 0;
                while i < self.entries.len() && self.entries[i].0 != state
                    invariant
                        self.entries@ == entries,
                        i <= entries.len(),
                        forall|k: int| 0 <= k < i ==> (#[trigger] entries[k]).0 != state,
                    decreases entries.len() - i,
                {
                    i = i + 1;
                }
                if i < self.entries.len() {
                    self.entries.remove(i);
                    proof {
                        lemma_remove_entry(entries, i as int);
                    }
                } else {
                    proof {
                        assert(!kept.contains_key(state)) by {
                            if has_key(entries, state) {
                                let k = choose|k: int| 0 <= k < entries.len() && #[trigger] entries[k].0
                                    == state;
                            }
                        }
                        assert(kept.remove(state) =~= kept);
                    }
                }
                proof {
                    assert(entries_map(self.entries@) == kept.remove(state));
                }
            },
        }
        proof {
            let result = Map::new(
                |k: u64| original.contains_key(k) && k >= floor && Some(k) != evicted,
                |k: u64| original[k],
            );
            assert(entries_map(self.entries@) =~= result);
        }
    }
}

} // verus!
