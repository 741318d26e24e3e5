use vstd::prelude::*;

verus! {

/// A set of repository positions `(group index, repository index)`.
///
/// The positions are kept in the order in which they were added, each at
/// most once.
pub struct Selection {
    entries: Vec<(usize, usize)>,
}

impl View for Selection {
    type V = Set<(usize, usize)>;

    closed spec fn view(&self) -> Set<(usize, usize)> {
        Set::new(|k: (usize, usize)| self.entries@.contains(k))
    }
}

/// Removing the one occurrence of a value from a sequence without
/// duplicates removes exactly that value from its set of elements.
proof fn lemma_remove_unique(s: Seq<(usize, usize)>, i: int)
    requires
        s.no_duplicates(),
        0 <= i < s.len(),
    ensures
        s.remove(i).no_duplicates(),
        forall|k: (usize, usize)| #[trigger] s.remove(i).contains(k) <==> s.contains(k) && k != s[i],
{
    let after = s.remove(i);
    s.remove_ensures(i);
    assert forall|k: (usize, usize)| after.contains(k) implies s.contains(k) && k != s[i] by {
        let t = choose|t: int| 0 <= t < after.len() && after[t] == k;
        if t < i {
            assert(after[t] == s[t]);
            assert(s.contains(k));
        } else {
            assert(after[t] == s[t + 1]);
            assert(s.contains(k));
        }
    }
    assert forall|k: (usize, usize)| s.contains(k) && k != s[i] implies after.contains(k) by {
        let t = choose|t: int| 0 <= t < s.len() && s[t] == k;
        if t < i {
            assert(after[t] == k);
        } else {
            assert(t != i);
            assert(after[t - 1] == k);
        }
    }
    assert forall|a: int, b: int| 0 <= a < after.len() && 0 <= b < after.len() && a != b implies after[a] != after[b] by {
        let a1 = if a < i { a } else { a + 1 };
        let b1 = if b < i { b } else { b + 1 };
        assert(after[a] == s[a1]);
        assert(after[b] == s[b1]);
    }
}

impl Selection {
    /// No position is held twice.
    pub closed spec fn wf(&self) -> bool {
        self.entries@.no_duplicates()
    }

    /// The number of positions held.
    pub closed spec fn size(&self) -> nat {
        self.entries@.len()
    }

    pub proof fn lemma_view_finite(&self)
        requires
            self.wf(),
        ensures
            self@.finite(),
            self@.len() == self.size(),
    {
        let s = self.entries@;
        assert(self@ =~= s.to_set());
        s.unique_seq_to_set();
    }

    /// An empty selection.
    pub fn new() -> (s: Selection)
        ensures
            s.wf(),
            s@ == Set::<(usize, usize)>::empty(),
    {
        let s = Selection { entries: Vec::new() };
        assert(s@ =~= Set::<(usize, usize)>::empty());
        s
    }

    /// Whether the position `(group, repo)` is held.
    pub fn contains(&self, group: usize, repo: usize) -> (b: bool)
        ensures
            b == self@.contains((group, repo)),
    {
        let mut i: usize = 0;
        while i < self.entries.len()
            invariant
                i <= self.entries@.len(),
                forall|j: int| 0 <= j < i ==> self.entries@[j] != (group, repo),
            decreases self.entries@.len() - i,
        {
            let (g, r) = self.entries[i];
            if g == group && r == repo {
                assert(self.entries@[i as int] == (group, repo));
                return true;
            }
            i = i + 1;
        }
        false
    }

    /// Adds the position `(group, repo)`.
    pub fn insert(&mut self, group: usize, repo: usize)
        requires
            old(self).wf(),
        ensures
            final(self).wf(),
            final(self)@ == old(self)@.insert((group, repo)),
    {
        if !self.contains(group, repo) {
            let ghost before = self.entries@;
            self.entries.push((group, repo));
            proof {
                assert forall|a: int, b: int|
                    0 <= a < b < self.entries@.len() implies self.entries@[a] != self.entries@[b] by {
                    if b == before.len() {
                        assert(before.contains(before[a]));
                    }
                }
            }
            assert forall|k: (usize, usize)|
                self.entries@.contains(k) <==> before.contains(k) || k == (group, repo) by {
                if before.contains(k) {
                    let t = choose|t: int| 0 <= t < before.len() && before[t] == k;
                    assert(self.entries@[t] == k);
                }
                if self.entries@.contains(k) && k != (group, repo) {
                    let t = choose|t: int| 0 <= t < self.entries@.len() && self.entries@[t] == k;
                    assert(before[t] == k);
                }
                assert(self.entries@[before.len() as int] == (group, repo));
            }
        }
        assert(self@ =~= old(self)@.insert((group, repo)));
    }

    /// Removes the position `(group, repo)`.
    pub fn remove(&mut self, group: usize, repo: usize)
        requires
            old(self).wf(),
        ensures
            final(self).wf(),
            final(self)@ == old(self)@.remove((group, repo)),
    {
        let ghost before = self.entries@;
        let mut i: usize = 0;
        while i < self.entries.len()
            invariant
                self.entries@ == before,
                old(self).entries@ == before,
                before.no_duplicates(),
                i <= before.len(),
                forall|j: int| 0 <= j < i ==> before[j] != (group, repo),
            decreases before.len() - i,
        {
            let (g, r) = self.entries[i];
            if g == group && r == repo {
                self.entries.remove(i);
                proof {
                    assert(before[i as int] == (group, repo));
                    lemma_remove_unique(before, i as int);
                    assert(self@ =~= old(self)@.remove((group, repo)));
                }
                return;
            }
            i = i + 1;
        }
        assert(self@ =~= old(self)@.remove((group, repo)));
    }

    /// Adds the position `(group, repo)` when it is absent and removes it
    /// when it is held.
    pub fn toggle(&mut self, group: usize, repo: usize)
        requires
            old(self).wf(),
        ensures
            final(self).wf(),
            final(self)@ == (if old(self)@.contains((group, repo)) {
                old(self)@.remove((group, repo))
            } else {
                old(self)@.insert((group, repo))
            }),
    {
        if self.contains(group, repo) {
            self.remove(group, repo);
        } else {
            self.insert(group, repo);
        }
    }

    /// Removes every position.
    pub fn clear(&mut self)
        ensures
            final(self).wf(),
            final(self)@ == Set::<(usize, usize)>::empty(),
    {
        self.entries.clear();
        assert(self@ =~= Set::<(usize, usize)>::empty());
    }

    /// Whether no position is held.
    pub fn is_empty(&self) -> (b: bool)
        ensures
            b == (self@ == Set::<(usize, usize)>::empty()),
    {
        if self.entries.len() == 0 {
            assert(self@ =~= Set::<(usize, usize)>::empty());
            true
        } else {
            assert(self@.contains(self.entries@[0]));
            false
        }
    }
}

} // verus!
