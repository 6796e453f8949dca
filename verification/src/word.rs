//! The constraint set built from past feedback, and the filter that applies
//! it to a list of candidate words.
use vstd::prelude::*;

use crate::letters::CharSet;
use crate::position::Position;

verus! {

/// The length of the words being guessed.
pub const WORD_LEN: usize = 5;

/// A green mark in a feedback string: an uppercase letter, confirming the
/// letter (lower-cased) at that position.
pub open spec fn is_green_mark(c: char) -> bool {
    'A' <= c && c <= 'Z'
}

/// A yellow mark in a feedback string: a lowercase letter, present in the
/// word but not at that position.
pub open spec fn is_yellow_mark(c: char) -> bool {
    'a' <= c && c <= 'z'
}

/// The lowercase counterpart of an uppercase letter.
pub open spec fn as_lowercase(c: char) -> char
    recommends
        is_green_mark(c),
{
    ((c as u32) + 32) as char
}

/// Whether feedback string `k` carries a yellow mark `c` at position `i`.
/// Positions past the word length carry no information.
pub open spec fn yellow_mark_at(ts: Seq<Seq<char>>, k: int, i: int, c: char) -> bool {
    &&& 0 <= k < ts.len()
    &&& 0 <= i < ts[k].len()
    &&& i < WORD_LEN
    &&& ts[k][i] == c
    &&& is_yellow_mark(c)
}

/// The needle letters: every letter that got a yellow mark anywhere, in any
/// of the feedback strings. Known present in the word, position unresolved.
pub open spec fn needle_letters(ts: Seq<Seq<char>>) -> Set<char> {
    Set::new(|c: char| exists|k: int, i: int| yellow_mark_at(ts, k, i, c))
}

/// The letters forbidden at position `i`: every letter with a yellow mark at
/// `i` in some feedback string.
pub open spec fn forbidden_at(ts: Seq<Seq<char>>, i: int) -> Set<char> {
    Set::new(|c: char| exists|k: int| yellow_mark_at(ts, k, i, c))
}

/// The letter confirmed at position `i`, if any: the lower-cased letter of
/// the latest green mark at `i`. A later feedback string wins over an
/// earlier one.
pub open spec fn confirmed_at(ts: Seq<Seq<char>>, i: int) -> Option<char>
    decreases ts.len(),
{
    if ts.len() == 0 {
        None
    } else if 0 <= i < ts.last().len() && is_green_mark(ts.last()[i]) {
        Some(as_lowercase(ts.last()[i]))
    } else {
        confirmed_at(ts.drop_last(), i)
    }
}

/// The exec counterpart of `is_green_mark`.
fn green_mark(c: char) -> (r: bool)
    ensures
        r == is_green_mark(c),
{
    'A' <= c && c <= 'Z'
}

/// The exec counterpart of `is_yellow_mark`.
fn yellow_mark(c: char) -> (r: bool)
    ensures
        r == is_yellow_mark(c),
{
    'a' <= c && c <= 'z'
}

/// The exec counterpart of `as_lowercase`.
fn lowercase(c: char) -> (r: char)
    requires
        is_green_mark(c),
    ensures
        r == as_lowercase(c),
{
    ((c as u8) + 32) as char
}

/// Collects facts about a word-guessing riddle.
#[derive(Debug)]
pub struct Word {
    /// Letters that are not in the word in any spot.
    pub unused_letters: CharSet,

    /// Letters that are in the word but whose position is unknown.
    pub needles: CharSet,

    /// Position-specific information: letters that can NOT be in a spot, or
    /// letters that are known to be in a spot. Always `WORD_LEN` entries.
    pub positions: Vec<Position>,
}

/// The letters forbidden at position `i` by the first `n` feedback strings.
spec fn forbidden_upto(ts: Seq<Seq<char>>, i: int, n: int) -> Set<char> {
    Set::new(|c: char| exists|k: int| k < n && yellow_mark_at(ts, k, i, c))
}

/// Reading one more feedback string either inserts its yellow mark at `i`
/// into the forbidden set, or leaves the set as it was.
proof fn lemma_forbidden_upto_step(ts: Seq<Seq<char>>, i: int, k: int)
    requires
        0 <= k < ts.len(),
        0 <= i < WORD_LEN,
    ensures
        forbidden_upto(ts, i, k + 1) == (if i < ts[k].len() && is_yellow_mark(ts[k][i]) {
            forbidden_upto(ts, i, k).insert(ts[k][i])
        } else {
            forbidden_upto(ts, i, k)
        }),
{
    let with_mark = i < ts[k].len() && is_yellow_mark(ts[k][i]);
    if with_mark {
        assert forall|x: char|
            forbidden_upto(ts, i, k + 1).contains(x) <==> forbidden_upto(ts, i, k).insert(
                ts[k][i],
            ).contains(x) by {
            if forbidden_upto(ts, i, k + 1).contains(x) {
                let k2 = choose|k2: int| k2 < k + 1 && yellow_mark_at(ts, k2, i, x);
                if k2 < k {
                    assert(forbidden_upto(ts, i, k).contains(x));
                } else {
                    assert(x == ts[k][i]);
                }
            }
            if forbidden_upto(ts, i, k).contains(x) {
                let k2 = choose|k2: int| k2 < k && yellow_mark_at(ts, k2, i, x);
                assert(k2 < k + 1 && yellow_mark_at(ts, k2, i, x));
            }
            if x == ts[k][i] {
                assert(yellow_mark_at(ts, k, i, x));
            }
        }
        assert(forbidden_upto(ts, i, k + 1) =~= forbidden_upto(ts, i, k).insert(ts[k][i]));
    } else {
        assert forall|x: char|
            forbidden_upto(ts, i, k + 1).contains(x) <==> forbidden_upto(ts, i, k).contains(
                x,
            ) by {
            if forbidden_upto(ts, i, k + 1).contains(x) {
                let k2 = choose|k2: int| k2 < k + 1 && yellow_mark_at(ts, k2, i, x);
                assert(k2 < k);
                assert(forbidden_upto(ts, i, k).contains(x));
            }
            if forbidden_upto(ts, i, k).contains(x) {
                let k2 = choose|k2: int| k2 < k && yellow_mark_at(ts, k2, i, x);
                assert(k2 < k + 1 && yellow_mark_at(ts, k2, i, x));
            }
        }
        assert(forbidden_upto(ts, i, k + 1) =~= forbidden_upto(ts, i, k));
    }
}

/// Once every feedback string is read, the accumulated forbidden set is
/// exactly `forbidden_at`.
proof fn lemma_forbidden_upto_all(ts: Seq<Seq<char>>, i: int)
    ensures
        forbidden_upto(ts, i, ts.len() as int) == forbidden_at(ts, i),
{
    assert(forbidden_upto(ts, i, ts.len() as int) =~= forbidden_at(ts, i));
}

/// Taking one more feedback string rewrites `confirmed_at` by one step:
/// a green mark at `i` in the new string wins, else the earlier answer holds.
proof fn lemma_confirmed_take_step(ts: Seq<Seq<char>>, i: int, k: int)
    requires
        0 <= k < ts.len(),
        0 <= i,
    ensures
        confirmed_at(ts.take(k + 1), i) == (if i < ts[k].len() && is_green_mark(ts[k][i]) {
            Some(as_lowercase(ts[k][i]))
        } else {
            confirmed_at(ts.take(k), i)
        }),
{
    assert(ts.take(k + 1).last() == ts[k]);
    assert(ts.take(k + 1).drop_last() =~= ts.take(k));
}

/// Builds the constraints for position `i` from the feedback strings, in the
/// order given.
fn build_position(tries: &[String], i: usize) -> (p: Position)
    requires
        i < WORD_LEN,
    ensures
        p.green == confirmed_at(tries.deep_view(), i as int),
        p.yellow@ == forbidden_at(tries.deep_view(), i as int),
{
    let ghost ts = tries.deep_view();
    let mut yellow = CharSet::new();
    let mut green: Option<char> = None;
    let mut k: usize = 0;
    proof {
        assert(forbidden_upto(ts, i as int, 0) =~= Set::<char>::empty());
        assert(ts.take(0) =~= Seq::<Seq<char>>::empty());
    }
    while k < tries.len()
        invariant
            0 <= k <= tries@.len(),
            green == confirmed_at(ts.take(k as int), i as int),
            yellow@ == forbidden_upto(ts, i as int, k as int),
        decreases tries@.len() - k,
    {
        proof {
            assert(ts[k as int] == tries@[k as int]@);
        }
        let t: &String = &tries[k];
        if i < t.as_str().unicode_len() {
            let c = t.as_str().get_char(i);
            if green_mark(c) {
                green = Some(lowercase(c));
            } else if yellow_mark(c) {
                yellow.insert(c);
            }
        }
        proof {
            lemma_confirmed_take_step(ts, i as int, k as int);
            lemma_forbidden_upto_step(ts, i as int, k as int);
        }
        k += 1;
    }
    proof {
        assert(ts.take(ts.len() as int) =~= ts);
        lemma_forbidden_upto_all(ts, i as int);
    }
    Position { yellow, green }
}

/// The needle letters carried by the first `n` positions' forbidden sets.
spec fn needles_upto(ts: Seq<Seq<char>>, n: int) -> Set<char> {
    Set::new(|c: char| exists|k: int, i: int| i < n && yellow_mark_at(ts, k, i, c))
}

/// Adding position `i`'s forbidden letters extends the needle set by one
/// position.
proof fn lemma_needles_upto_step(ts: Seq<Seq<char>>, i: int)
    requires
        0 <= i < WORD_LEN,
    ensures
        needles_upto(ts, i).union(forbidden_at(ts, i)) == needles_upto(ts, i + 1),
{
    assert forall|x: char|
        needles_upto(ts, i).union(forbidden_at(ts, i)).contains(x) <==> needles_upto(
            ts,
            i + 1,
        ).contains(x) by {
        if needles_upto(ts, i).contains(x) {
            let (k2, i2) = choose|k2: int, i2: int| i2 < i && yellow_mark_at(ts, k2, i2, x);
            assert(i2 < i + 1 && yellow_mark_at(ts, k2, i2, x));
        }
        if forbidden_at(ts, i).contains(x) {
            let k2 = choose|k2: int| yellow_mark_at(ts, k2, i, x);
            assert(i < i + 1 && yellow_mark_at(ts, k2, i, x));
        }
        if needles_upto(ts, i + 1).contains(x) {
            let (k2, i2) = choose|k2: int, i2: int| i2 < i + 1 && yellow_mark_at(ts, k2, i2, x);
            if i2 < i {
                assert(needles_upto(ts, i).contains(x));
            } else {
                assert(yellow_mark_at(ts, k2, i, x));
                assert(forbidden_at(ts, i).contains(x));
            }
        }
    }
    assert(needles_upto(ts, i).union(forbidden_at(ts, i)) =~= needles_upto(ts, i + 1));
}

/// Once every position is gathered, the accumulated needle set is exactly
/// `needle_letters`.
proof fn lemma_needles_upto_all(ts: Seq<Seq<char>>)
    ensures
        needles_upto(ts, WORD_LEN as int) == needle_letters(ts),
{
    assert forall|x: char|
        needles_upto(ts, WORD_LEN as int).contains(x) <==> needle_letters(ts).contains(x) by {
        if needles_upto(ts, WORD_LEN as int).contains(x) {
            let (k2, i2) = choose|k2: int, i2: int|
                i2 < WORD_LEN && yellow_mark_at(ts, k2, i2, x);
            assert(yellow_mark_at(ts, k2, i2, x));
        }
        if needle_letters(ts).contains(x) {
            let (k2, i2) = choose|k2: int, i2: int| yellow_mark_at(ts, k2, i2, x);
            assert(i2 < WORD_LEN && yellow_mark_at(ts, k2, i2, x));
        }
    }
    assert(needles_upto(ts, WORD_LEN as int) =~= needle_letters(ts));
}

impl Word {
    /// Builds the constraint set from the globally unused letters and from
    /// the feedback strings of past tries, processed in the order given.
    ///
    /// In a feedback string, an uppercase letter is a green mark, a lowercase
    /// letter a yellow mark, and any other character carries no information.
    /// Characters past `WORD_LEN`, and marks past the end of a feedback
    /// string, are ignored. Feedback marks are expected to be ASCII letters.
    pub fn new(unused_letters: &str, tries: &[String]) -> (w: Word)
        ensures
            w.unused_letters@ == unused_letters@.to_set(),
            w.needles@ == needle_letters(tries.deep_view()),
            w.positions@.len() == WORD_LEN,
            forall|i: int|
                0 <= i < WORD_LEN ==> (#[trigger] w.positions@[i]).green == confirmed_at(
                    tries.deep_view(),
                    i,
                ),
            forall|i: int|
                0 <= i < WORD_LEN ==> (#[trigger] w.positions@[i]).yellow@ == forbidden_at(
                    tries.deep_view(),
                    i,
                ),
    {
        let ghost ts = tries.deep_view();

        let mut unused = CharSet::new();
        let n = unused_letters.unicode_len();
        let mut j: usize = 0;
        proof {
            assert(unused_letters@.take(0) =~= Seq::<char>::empty());
            assert(Seq::<char>::empty().to_set() =~= Set::<char>::empty());
        }
        while j < n
            invariant
                0 <= j <= n,
                unused@ == unused_letters@.take(j as int).to_set(),
            decreases n - j,
        {
            let c = unused_letters.get_char(j);
            unused.insert(c);
            proof {
                assert(unused_letters@.take(j + 1) =~= unused_letters@.take(j as int).push(c));
                crate::letters::lemma_push_to_set(unused_letters@.take(j as int), c);
            }
            j += 1;
        }
        proof {
            assert(unused_letters@.take(n as int) =~= unused_letters@);
        }

        let mut positions: Vec<Position> = Vec::new();
        let mut i: usize = 0;
        while i < WORD_LEN
            invariant
                0 <= i <= WORD_LEN,
                positions@.len() == i,
                forall|m: int|
                    0 <= m < i ==> (#[trigger] positions@[m]).green == confirmed_at(ts, m),
                forall|m: int|
                    0 <= m < i ==> (#[trigger] positions@[m]).yellow@ == forbidden_at(ts, m),
            decreases WORD_LEN - i,
        {
            let p = build_position(tries, i);
            positions.push(p);
            i += 1;
        }

        let mut needles = CharSet::new();
        let mut i: usize = 0;
        proof {
            assert(needles_upto(ts, 0) =~= Set::<char>::empty());
        }
        while i < WORD_LEN
            invariant
                0 <= i <= WORD_LEN,
                needles@ == needles_upto(ts, i as int),
            decreases WORD_LEN - i,
        {
            needles.union_with(&positions[i].yellow);
            proof {
                lemma_needles_upto_step(ts, i as int);
            }
            i += 1;
        }
        proof {
            lemma_needles_upto_all(ts);
        }

        Word { unused_letters: unused, needles, positions }
    }

    /// Whether the word `w` is consistent with the constraints at position
    /// `i`: a confirmed letter must stand there exactly; otherwise the letter
    /// standing there must not be forbidden. A word with no character at `i`
    /// fails a confirmed check and passes a forbidden check vacuously.
    pub open spec fn position_admits(self, i: int, w: Seq<char>) -> bool {
        match self.positions@[i].green {
            Some(g) => i < w.len() && w[i] == g,
            None => i < w.len() ==> !self.positions@[i].yellow@.contains(w[i]),
        }
    }

    /// Whether the word `w` survives every constraint: it contains no unused
    /// letter, contains every needle letter, and is consistent with every
    /// position's rules.
    pub open spec fn admits(self, w: Seq<char>) -> bool {
        &&& forall|m: int| 0 <= m < w.len() ==> !self.unused_letters@.contains(#[trigger] w[m])
        &&& forall|c: char| self.needles@.contains(c) ==> w.contains(c)
        &&& forall|i: int| 0 <= i < self.positions@.len() ==> self.position_admits(i, w)
    }

    /// `admits`, as a predicate over candidate words.
    pub open spec fn admits_pred<'a>(self) -> spec_fn(&'a str) -> bool {
        |w: &'a str| self.admits(w@)
    }

    /// The subsequence of `words` that survives every constraint.
    pub open spec fn narrowed<'a>(self, words: Seq<&'a str>) -> Seq<&'a str> {
        words.filter(self.admits_pred())
    }

    /// The exec counterpart of `admits`.
    fn word_admitted(&self, w: &str) -> (r: bool)
        ensures
            r == self.admits(w@),
    {
        let n = w.unicode_len();

        let mut j: usize = 0;
        while j < n
            invariant
                0 <= j <= n,
                forall|m: int| 0 <= m < j ==> !self.unused_letters@.contains(#[trigger] w@[m]),
            decreases n - j,
        {
            if self.unused_letters.contains(w.get_char(j)) {
                return false;
            }
            j += 1;
        }

        if !self.needles.all_contained_in(w) {
            return false;
        }
        let mut i: usize = 0;
        while i < self.positions.len()
            invariant
                0 <= i <= self.positions@.len(),
                forall|m: int| 0 <= m < i ==> self.position_admits(m, w@),
            decreases self.positions@.len() - i,
        {
            let p = &self.positions[i];
            match p.green {
                Some(g) => {
                    if i >= n {
                        proof {
                            assert(!self.position_admits(i as int, w@));
                        }
                        return false;
                    }
                    if w.get_char(i) != g {
                        proof {
                            assert(!self.position_admits(i as int, w@));
                        }
                        return false;
                    }
                },
                None => {
                    if i < n {
                        if p.yellow.contains(w.get_char(i)) {
                            proof {
                                assert(!self.position_admits(i as int, w@));
                            }
                            return false;
                        }
                    }
                },
            }
            proof {
                assert(self.position_admits(i as int, w@));
            }
            i += 1;
        }
        true
    }

    /// Applies the constraint set to a list of candidate words, keeping
    /// exactly the consistent ones, in their original relative order.
    pub fn filter<'a>(&self, words: Vec<&'a str>) -> (r: Vec<&'a str>)
        ensures
            r@ == self.narrowed(words@),
    {
        let mut out: Vec<&'a str> = Vec::new();
        let mut k: usize = 0;
        proof {
            reveal(Seq::filter);
            assert(words@.take(0) =~= Seq::<&'a str>::empty());
            assert(out@ =~= self.narrowed(words@.take(0)));
        }
        while k < words.len()
            invariant
                0 <= k <= words@.len(),
                out@ == self.narrowed(words@.take(k as int)),
            decreases words@.len() - k,
        {
            let w = words[k];
            if self.word_admitted(w) {
                out.push(w);
            }
            proof {
                reveal(Seq::filter);
                assert(words@.take(k + 1).drop_last() =~= words@.take(k as int));
                assert(words@.take(k + 1).last() == w);
            }
            k += 1;
        }
        proof {
            assert(words@.take(words@.len() as int) =~= words@);
        }
        out
    }
}

/// `a` is a subsequence of `b`: `a` can be had from `b` by removing elements,
/// with no reordering.
pub open spec fn is_subsequence_of<A>(a: Seq<A>, b: Seq<A>) -> bool
    decreases b.len(),
{
    if a.len() == 0 {
        true
    } else if b.len() == 0 {
        false
    } else {
        (a.last() == b.last() && is_subsequence_of(a.drop_last(), b.drop_last()))
            || is_subsequence_of(a, b.drop_last())
    }
}

/// Filtering a sequence yields a subsequence of it.
proof fn lemma_filter_is_subsequence<A>(s: Seq<A>, pred: spec_fn(A) -> bool)
    ensures
        is_subsequence_of(s.filter(pred), s),
    decreases s.len(),
{
    reveal(Seq::filter);
    if s.len() > 0 {
        lemma_filter_is_subsequence(s.drop_last(), pred);
        if pred(s.last()) {
            assert(s.filter(pred).drop_last() =~= s.drop_last().filter(pred));
        }
    }
}

/// Filtering a sequence whose elements all satisfy the predicate leaves it
/// unchanged.
proof fn lemma_filter_all_true<A>(s: Seq<A>, pred: spec_fn(A) -> bool)
    requires
        forall|m: int| 0 <= m < s.len() ==> pred(#[trigger] s[m]),
    ensures
        s.filter(pred) == s,
    decreases s.len(),
{
    reveal(Seq::filter);
    if s.len() == 0 {
        assert(s.filter(pred) =~= s);
    } else {
        assert forall|m: int| 0 <= m < s.drop_last().len() implies pred(
            #[trigger] s.drop_last()[m],
        ) by {
            assert(s.drop_last()[m] == s[m]);
        }
        lemma_filter_all_true(s.drop_last(), pred);
        assert(pred(s.last()));
        assert(s.filter(pred) =~= s);
    }
}

impl Word {
    /// Monotonic narrowing: the filtered list is always a subsequence of the
    /// candidate list. No words are added and none are reordered.
    pub proof fn lemma_narrowed_is_subsequence<'a>(self, words: Seq<&'a str>)
        ensures
            is_subsequence_of(self.narrowed(words), words),
    {
        lemma_filter_is_subsequence(words, self.admits_pred());
    }

    /// Idempotence: applying the same constraint set a second time changes
    /// nothing.
    pub proof fn lemma_narrowed_idempotent<'a>(self, words: Seq<&'a str>)
        ensures
            self.narrowed(self.narrowed(words)) == self.narrowed(words),
    {
        let filtered = self.narrowed(words);
        assert forall|m: int| 0 <= m < filtered.len() implies self.admits_pred()(
            #[trigger] filtered[m],
        ) by {
            words.lemma_filter_pred(self.admits_pred(), m);
        }
        lemma_filter_all_true(filtered, self.admits_pred());
    }

    /// A constraint set that rules nothing out keeps every candidate.
    pub proof fn lemma_unconstrained_identity<'a>(self, words: Seq<&'a str>)
        requires
            self.unused_letters@ == Set::<char>::empty(),
            self.needles@ == Set::<char>::empty(),
            forall|i: int|
                0 <= i < self.positions@.len() ==> (#[trigger] self.positions@[i]).green is None
                    && self.positions@[i].yellow@ == Set::<char>::empty(),
        ensures
            self.narrowed(words) == words,
    {
        assert forall|m: int| 0 <= m < words.len() implies self.admits_pred()(
            #[trigger] words[m],
        ) by {
            let w = words[m];
            assert forall|i: int| 0 <= i < self.positions@.len() implies self.position_admits(
                i,
                w@,
            ) by {
                assert(self.positions@[i].green is None);
            }
        }
        lemma_filter_all_true(words, self.admits_pred());
    }

    /// Empty-constraints identity: the constraint set built from an empty
    /// unused-letters string and no feedback keeps every candidate. The
    /// preconditions are exactly what `Word::new` ensures on empty input.
    pub proof fn lemma_empty_build_identity<'a>(self, words: Seq<&'a str>)
        requires
            self.unused_letters@ == Seq::<char>::empty().to_set(),
            self.needles@ == needle_letters(Seq::<Seq<char>>::empty()),
            forall|i: int|
                0 <= i < self.positions@.len() ==> (#[trigger] self.positions@[i]).green
                    == confirmed_at(Seq::<Seq<char>>::empty(), i) && self.positions@[i].yellow@
                    == forbidden_at(Seq::<Seq<char>>::empty(), i),
        ensures
            self.narrowed(words) == words,
    {
        let none: Seq<Seq<char>> = Seq::empty();
        assert(Seq::<char>::empty().to_set() =~= Set::<char>::empty());
        assert(needle_letters(none) =~= Set::<char>::empty());
        assert forall|i: int| 0 <= i < self.positions@.len() implies (
        #[trigger] self.positions@[i]).green is None && self.positions@[i].yellow@ == Set::<
            char,
        >::empty() by {
            assert(confirmed_at(none, i) is None);
            assert(forbidden_at(none, i) =~= Set::<char>::empty());
        }
        self.lemma_unconstrained_identity(words);
    }
}

} // verus!
