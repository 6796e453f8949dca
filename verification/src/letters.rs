//! A small set of letters, the building block of every constraint.
use vstd::prelude::*;

verus! {

/// A finite set of characters, stored as a vector of its members.
///
/// The mathematical view of a `CharSet` is the `Set<char>` of the characters
/// it holds; duplicates are never stored, but nothing below relies on that.
#[derive(Debug)]
pub struct CharSet {
    elems: Vec<char>,
}

impl View for CharSet {
    type V = Set<char>;

    closed spec fn view(&self) -> Set<char> {
        self.elems@.to_set()
    }
}

impl CharSet {
    /// The empty set of letters.
    pub fn new() -> (s: CharSet)
        ensures
            s@ == Set::<char>::empty(),
    {
        let s = CharSet { elems: Vec::new() };
        proof {
            assert(s.elems@.to_set() =~= Set::<char>::empty());
        }
        s
    }

    /// Whether `c` is a member of the set.
    pub fn contains(&self, c: char) -> (r: bool)
        ensures
            r == self@.contains(c),
    {
        let mut k: usize = 0;
        while k < self.elems.len()
            invariant
                0 <= k <= self.elems@.len(),
                forall|m: int| 0 <= m < k ==> self.elems@[m] != c,
            decreases self.elems@.len() - k,
        {
            if self.elems[k] == c {
                proof {
                    assert(self.elems@.contains(c));
                }
                return true;
            }
            k += 1;
        }
        false
    }

    /// Adds `c` to the set.
    pub fn insert(&mut self, c: char)
        ensures
            final(self)@ == old(self)@.insert(c),
    {
        if !self.contains(c) {
            self.elems.push(c);
            proof {
                assert forall|x: char| final(self)@.contains(x) <==> old(self)@.insert(c).contains(x) by {
                    if self.elems@.contains(x) {
                        let m = choose|m: int| 0 <= m < self.elems@.len() && self.elems@[m] == x;
                        if m < old(self).elems@.len() {
                            assert(old(self).elems@.contains(x));
                        } else {
                            assert(x == c);
                        }
                    }
                    if old(self).elems@.contains(x) {
                        let m = choose|m: int| 0 <= m < old(self).elems@.len() && old(self).elems@[m] == x;
                        assert(self.elems@[m] == x);
                        assert(self.elems@.contains(x));
                    }
                    if x == c {
                        assert(self.elems@[old(self).elems@.len() as int] == c);
                        assert(self.elems@.contains(c));
                    }
                }
                assert(final(self)@ =~= old(self)@.insert(c));
            }
        } else {
            proof {
                assert(final(self)@ =~= old(self)@.insert(c));
            }
        }
    }
    /// Adds every member of `other` to the set.
    pub fn union_with(&mut self, other: &CharSet)
        ensures
            final(self)@ == old(self)@.union(other@),
    {
        let mut k: usize = 0;
        while k < other.elems.len()
            invariant
                0 <= k <= other.elems@.len(),
                old(self)@.subset_of(self@),
                forall|m: int| 0 <= m < k ==> self@.contains(#[trigger] other.elems@[m]),
                self@.subset_of(old(self)@.union(other@)),
            decreases other.elems@.len() - k,
        {
            proof {
                assert(other.elems@.contains(other.elems@[k as int]));
            }
            self.insert(other.elems[k]);
            k += 1;
        }
        proof {
            assert forall|x: char| final(self)@.contains(x) <==> old(self)@.union(other@).contains(
                x,
            ) by {
                if other@.contains(x) {
                    let m = choose|m: int| 0 <= m < other.elems@.len() && other.elems@[m] == x;
                    assert(self@.contains(other.elems@[m]));
                }
            }
            assert(final(self)@ =~= old(self)@.union(other@));
        }
    }

    /// Whether every member of the set occurs somewhere in `w`.
    pub fn all_contained_in(&self, w: &str) -> (r: bool)
        ensures
            r == (forall|c: char| self@.contains(c) ==> w@.contains(c)),
    {
        let mut k: usize = 0;
        while k < self.elems.len()
            invariant
                0 <= k <= self.elems@.len(),
                forall|m: int| 0 <= m < k ==> w@.contains(#[trigger] self.elems@[m]),
            decreases self.elems@.len() - k,
        {
            if !char_in_word(w, self.elems[k]) {
                proof {
                    assert(self.elems@.contains(self.elems@[k as int]));
                }
                return false;
            }
            k += 1;
        }
        proof {
            assert forall|c: char| self@.contains(c) implies w@.contains(c) by {
                let m = choose|m: int| 0 <= m < self.elems@.len() && self.elems@[m] == c;
                assert(w@.contains(self.elems@[m]));
            }
        }
        true
    }
}

/// Pushing a character onto a sequence inserts it into the sequence's set of
/// members.
pub proof fn lemma_push_to_set(s: Seq<char>, c: char)
    ensures
        s.push(c).to_set() == s.to_set().insert(c),
{
    assert forall|x: char| s.push(c).to_set().contains(x) <==> s.to_set().insert(c).contains(
        x,
    ) by {
        if s.push(c).contains(x) {
            let m = choose|m: int| 0 <= m < s.push(c).len() && s.push(c)[m] == x;
            if m < s.len() {
                assert(s.contains(x));
            }
        }
        if s.contains(x) {
            let m = choose|m: int| 0 <= m < s.len() && s[m] == x;
            assert(s.push(c)[m] == x);
            assert(s.push(c).contains(x));
        }
        if x == c {
            assert(s.push(c)[s.len() as int] == c);
            assert(s.push(c).contains(c));
        }
    }
    assert(s.push(c).to_set() =~= s.to_set().insert(c));
}

/// Whether `c` occurs somewhere in `w`.
pub fn char_in_word(w: &str, c: char) -> (r: bool)
    ensures
        r == w@.contains(c),
{
    let n = w.unicode_len();
    let mut j: usize = 0;
    while j < n
        invariant
            0 <= j <= n,
            n == w@.len(),
            forall|m: int| 0 <= m < j ==> w@[m] != c,
        decreases n - j,
    {
        if w.get_char(j) == c {
            proof {
                assert(w@.contains(c));
            }
            return true;
        }
        j += 1;
    }
    false
}

impl PartialEq for CharSet {
    /// Two sets are equal when they have the same members, whatever the order
    /// they were built in.
    fn eq(&self, other: &CharSet) -> (r: bool) {
        let r = self.subset_of(other) && other.subset_of(self);
        proof {
            if r {
                assert(self@ =~= other@);
            }
        }
        r
    }
}

impl vstd::std_specs::cmp::PartialEqSpecImpl for CharSet {
    open spec fn obeys_eq_spec() -> bool {
        true
    }

    open spec fn eq_spec(&self, other: &CharSet) -> bool {
        self@ == other@
    }
}

impl Eq for CharSet {

}

impl CharSet {
    /// Whether every member of this set is a member of `other`.
    pub fn subset_of(&self, other: &CharSet) -> (r: bool)
        ensures
            r == self@.subset_of(other@),
    {
        let mut k: usize = 0;
        while k < self.elems.len()
            invariant
                0 <= k <= self.elems@.len(),
                forall|m: int| 0 <= m < k ==> other@.contains(#[trigger] self.elems@[m]),
            decreases self.elems@.len() - k,
        {
            if !other.contains(self.elems[k]) {
                proof {
                    assert(self.elems@.contains(self.elems@[k as int]));
                }
                return false;
            }
            k += 1;
        }
        proof {
            assert forall|c: char| self@.contains(c) implies other@.contains(c) by {
                let m = choose|m: int| 0 <= m < self.elems@.len() && self.elems@[m] == c;
                assert(other@.contains(self.elems@[m]));
            }
        }
        true
    }
}

} // verus!
