//! The board: which letter pairs may not stand side by side, and which
//! letters a solution has to cover.
use vstd::prelude::*;
use vstd::string::*;
use crate::letters::{chars_of, contains_char, insert_sorted, lemma_sorted_no_dup, strictly_sorted};

verus! {

/// The first character of a word, if it has one.
pub open spec fn first_char(w: Seq<char>) -> Option<char> {
    if w.len() > 0 { Some(w[0]) } else { None }
}

/// The last character of a word, if it has one.
pub open spec fn last_char(w: Seq<char>) -> Option<char> {
    if w.len() > 0 { Some(w.last()) } else { None }
}

/// Each word ends with the character that the next one starts with.
pub open spec fn chained(chain: Seq<Seq<char>>) -> bool {
    forall|i: int| 0 <= i < chain.len() - 1 ==> last_char(#[trigger] chain[i]) == first_char(chain[i + 1])
}

/// A Letter Boxed board.
///
/// Letters that share a side may not follow one another inside a word, and
/// every letter on the board must be used by a solution.
pub struct LetterBoxed {
    /// The characters of each side, as given.
    pub(crate) sides: Vec<Vec<char>>,
    /// Every letter on the board, once each, in ascending order.
    pub(crate) letters: Vec<char>,
}

/// Whether each word of `solution` starts with the last character of the
/// word before it (two empty words count as linked).
fn links_ok(solution: &[&str]) -> (r: bool)
    ensures
        r == chained(solution@.map_values(|s: &str| s@)),
{
    let ghost chain = solution@.map_values(|s: &str| s@);
    let mut i: usize = 1;
    while i < solution.len()
        invariant
            1 <= i,
            chain == solution@.map_values(|s: &str| s@),
            forall|k: int| 0 <= k < i - 1 && k < chain.len() - 1
                ==> last_char(#[trigger] chain[k]) == first_char(chain[k + 1]),
        decreases solution.len() - i,
    {
        let prev: &str = solution[i - 1];
        let next: &str = solution[i];
        let pn = prev.unicode_len();
        let nn = next.unicode_len();
        let linked = if pn == 0 || nn == 0 {
            pn == 0 && nn == 0
        } else {
            prev.get_char(pn - 1) == next.get_char(0)
        };
        if !linked {
            assert(!(last_char(chain[i - 1]) == first_char(chain[i as int])));
            return false;
        }
        i += 1;
    }
    true
}

impl LetterBoxed {
    /// The sides of the board, as sequences of characters.
    pub closed spec fn sides_view(&self) -> Seq<Seq<char>> {
        self.sides@.map_values(|s: Vec<char>| s@)
    }

    /// The board's letters in ascending order, each once.
    pub closed spec fn letter_seq(&self) -> Seq<char> {
        self.letters@
    }

    /// `a` and `b` stand on one side, so `b` may not follow `a` in a word.
    pub open spec fn forbidden(&self, a: char, b: char) -> bool {
        exists|i: int|
            0 <= i < self.sides_view().len() && #[trigger] self.sides_view()[i].contains(a)
                && self.sides_view()[i].contains(b)
    }

    /// `c` appears on some side.
    pub open spec fn on_board(&self, c: char) -> bool {
        exists|i: int| 0 <= i < self.sides_view().len() && #[trigger] self.sides_view()[i].contains(c)
    }

    /// The set of letters that a full solution covers.
    pub open spec fn letter_set(&self) -> Set<char> {
        Set::new(|c: char| self.on_board(c))
    }

    /// No two consecutive characters of `w` stand on one side.
    pub open spec fn word_ok(&self, w: Seq<char>) -> bool {
        forall|i: int| 0 <= i < w.len() - 1 ==> !#[trigger] self.forbidden(w[i], w[i + 1])
    }

    /// A word that may be played on this board: at least three characters,
    /// all of them on the board, and no forbidden step inside it.
    pub open spec fn eligible(&self, w: Seq<char>) -> bool {
        &&& w.len() >= 3
        &&& forall|i: int| 0 <= i < w.len() ==> #[trigger] self.on_board(w[i])
        &&& self.word_ok(w)
    }

    /// A legal chain: words link end to start and none takes a forbidden step.
    /// Whether the chain covers the board is not part of this.
    pub open spec fn valid_chain(&self, chain: Seq<Seq<char>>) -> bool {
        &&& chained(chain)
        &&& forall|i: int| 0 <= i < chain.len() ==> #[trigger] self.word_ok(chain[i])
    }

    /// The letter list is the board's letter set, ascending and without repeats.
    pub closed spec fn wf(&self) -> bool {
        &&& strictly_sorted(self.letters@)
        &&& forall|c: char| self.letters@.contains(c) <==> self.on_board(c)
    }

    /// Builds the board from its sides; their order does not matter.
    pub fn load_board(sides: &[&str]) -> (b: LetterBoxed)
        ensures
            b.wf(),
            b.sides_view() == sides@.map_values(|s: &str| s@),
    {
        let mut side_chars: Vec<Vec<char>> = Vec::new();
        let mut letters: Vec<char> = Vec::new();
        let mut i: usize = 0;
        while i < sides.len()
            invariant
                i <= sides.len(),
                side_chars@.len() == i,
                forall|k: int| 0 <= k < i ==> #[trigger] side_chars@[k]@ == sides@[k]@,
                strictly_sorted(letters@),
                forall|c: char|
                    letters@.contains(c) <==> exists|k: int|
                        0 <= k < i && #[trigger] side_chars@[k]@.contains(c),
            decreases sides.len() - i,
        {
            let side = chars_of(sides[i]);
            let mut j: usize = 0;
            while j < side.len()
                invariant
                    j <= side.len(),
                    i < sides.len(),
                    side_chars@.len() == i,
                    strictly_sorted(letters@),
                    forall|c: char|
                        letters@.contains(c) <==> (exists|k: int|
                            0 <= k < i && #[trigger] side_chars@[k]@.contains(c))
                            || side@.subrange(0, j as int).contains(c),
                decreases side.len() - j,
            {
                insert_sorted(&mut letters, side[j]);
                proof {
                    assert(side@.subrange(0, j + 1) == side@.subrange(0, j as int).push(side@[j as int]));
                    assert forall|c: char| side@.subrange(0, j + 1).contains(c)
                        <==> (side@.subrange(0, j as int).contains(c) || c == side@[j as int]) by {
                        if c == side@[j as int] {
                            assert(side@.subrange(0, j + 1)[j as int] == c);
                        }
                    }
                }
                j += 1;
            }
            let ghost old_sides = side_chars@;
            side_chars.push(side);
            proof {
                assert(side@.subrange(0, side@.len() as int) == side@);
                assert forall|c: char|
                    letters@.contains(c) <==> exists|k: int|
                        0 <= k < i + 1 && #[trigger] side_chars@[k]@.contains(c) by {
                    if letters@.contains(c) {
                        if side@.contains(c) {
                            assert(side_chars@[i as int]@.contains(c));
                        } else {
                            let k = choose|k: int| 0 <= k < i && #[trigger] old_sides[k]@.contains(c);
                            assert(side_chars@[k]@.contains(c));
                        }
                    }
                    if exists|k: int| 0 <= k < i + 1 && #[trigger] side_chars@[k]@.contains(c) {
                        let k = choose|k: int| 0 <= k < i + 1 && #[trigger] side_chars@[k]@.contains(c);
                        if k < i {
                            assert(old_sides[k]@.contains(c));
                        }
                    }
                }
            }
            i += 1;
        }
        let b = LetterBoxed { sides: side_chars, letters };
        proof {
            assert(b.sides_view() =~= sides@.map_values(|s: &str| s@));
            assert forall|c: char| b.letters@.contains(c) <==> b.on_board(c) by {
                if b.letters@.contains(c) {
                    let k = choose|k: int| 0 <= k < i && #[trigger] b.sides@[k]@.contains(c);
                    assert(b.sides_view()[k].contains(c));
                }
                if b.on_board(c) {
                    let k = choose|k: int| 0 <= k < b.sides_view().len() && #[trigger] b.sides_view()[k].contains(c);
                    assert(b.sides@[k]@.contains(c));
                }
            }
        }
        b
    }

    /// The letter list is the letter set, which is finite.
    pub(crate) proof fn lemma_letters(&self)
        requires
            self.wf(),
        ensures
            self.letter_seq() == self.letters@,
            strictly_sorted(self.letter_seq()),
            forall|c: char| self.letter_seq().contains(c) <==> self.on_board(c),
            self.letter_seq().to_set() == self.letter_set(),
            self.letter_set().finite(),
            self.letter_seq().len() == self.letter_set().len(),
    {
        lemma_sorted_no_dup(self.letters@);
        assert(self.letters@.to_set() =~= self.letter_set());
    }

    /// Whether `a` and `b` stand on one side.
    pub fn is_forbidden(&self, a: char, b: char) -> (r: bool)
        ensures
            r == self.forbidden(a, b),
    {
        let mut i: usize = 0;
        while i < self.sides.len()
            invariant
                i <= self.sides@.len(),
                forall|k: int| 0 <= k < i ==> !(#[trigger] self.sides_view()[k].contains(a)
                    && self.sides_view()[k].contains(b)),
            decreases self.sides.len() - i,
        {
            if contains_char(&self.sides[i], a) && contains_char(&self.sides[i], b) {
                assert(self.sides_view()[i as int].contains(a));
                return true;
            }
            i += 1;
        }
        false
    }

    /// Where `c` stands in the board's ascending letter list, if it is there.
    pub(crate) fn letter_pos(&self, c: char) -> (r: Option<usize>)
        requires
            self.wf(),
        ensures
            match r {
                Some(p) => p < self.letters@.len() && self.letters@[p as int] == c,
                None => !self.on_board(c),
            },
    {
        let mut i: usize = 0;
        while i < self.letters.len()
            invariant
                self.wf(),
                i <= self.letters@.len(),
                forall|k: int| 0 <= k < i ==> self.letters@[k] != c,
            decreases self.letters.len() - i,
        {
            if self.letters[i] == c {
                return Some(i);
            }
            i += 1;
        }
        None
    }

    /// Whether `c` is a letter of the board.
    pub fn has_letter(&self, c: char) -> (r: bool)
        requires
            self.wf(),
        ensures
            r == self.on_board(c),
    {
        contains_char(&self.letters, c)
    }

    /// Whether no two consecutive characters of `w` stand on one side.
    pub fn is_word_ok(&self, w: &Vec<char>) -> (r: bool)
        ensures
            r == self.word_ok(w@),
    {
        let mut i: usize = 1;
        while i < w.len()
            invariant
                1 <= i,
                forall|k: int| 0 <= k < i - 1 && k < w@.len() - 1 ==> !#[trigger] self.forbidden(w@[k], w@[k + 1]),
            decreases w.len() - i,
        {
            if self.is_forbidden(w[i - 1], w[i]) {
                let ghost k = (i - 1) as int;
                assert(self.forbidden(w@[k], w@[k + 1]));
                return false;
            }
            i += 1;
        }
        true
    }

    /// Whether `w` may be played on this board.
    pub fn is_eligible(&self, w: &Vec<char>) -> (r: bool)
        requires
            self.wf(),
        ensures
            r == self.eligible(w@),
    {
        if w.len() < 3 {
            return false;
        }
        let mut i: usize = 0;
        while i < w.len()
            invariant
                i <= w@.len(),
                self.wf(),
                forall|k: int| 0 <= k < i ==> #[trigger] self.on_board(w@[k]),
            decreases w.len() - i,
        {
            if !self.has_letter(w[i]) {
                return false;
            }
            i += 1;
        }
        self.is_word_ok(w)
    }

    /// Whether `solution` is a legal chain on this board: each word starts
    /// with the last character of the word before it, and no word steps
    /// between two letters of one side. Coverage is not checked.
    pub fn validate(&self, solution: &[&str]) -> (r: bool)
        ensures
            r == self.valid_chain(solution@.map_values(|s: &str| s@)),
    {
        let ghost chain = solution@.map_values(|s: &str| s@);
        let r = links_ok(solution) && self.words_ok(solution);
        proof {
            if forall|k: int| 0 <= k < solution@.len() ==> #[trigger] self.word_ok(solution@[k]@) {
                assert forall|k: int| 0 <= k < chain.len() implies #[trigger] self.word_ok(chain[k]) by {
                    assert(self.word_ok(solution@[k]@));
                }
            } else {
                let k = choose|k: int| 0 <= k < solution@.len() && !#[trigger] self.word_ok(solution@[k]@);
                assert(!self.word_ok(chain[k]));
            }
        }
        r
    }

    /// Whether no word of `solution` takes a forbidden step.
    fn words_ok(&self, solution: &[&str]) -> (r: bool)
        ensures
            r == forall|k: int| 0 <= k < solution@.len() ==> #[trigger] self.word_ok(solution@[k]@),
    {
        let mut j: usize = 0;
        while j < solution.len()
            invariant
                j <= solution@.len(),
                forall|k: int| 0 <= k < j ==> #[trigger] self.word_ok(solution@[k]@),
            decreases solution.len() - j,
        {
            let w = chars_of(solution[j]);
            if !self.is_word_ok(&w) {
                return false;
            }
            j += 1;
        }
        true
    }
}

} // verus!
