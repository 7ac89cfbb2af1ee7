//! The chain search: a breadth-first walk over (current letter, covered
//! letters) states, from the shortest chains up.
use vstd::prelude::*;
use crate::board::{LetterBoxed, chained, first_char, last_char};
use crate::letters::{chars_of, contains_char, copy_vec, insert_sorted, lemma_sorted_no_dup, strictly_sorted};

verus! {

/// The characters of each word.
pub open spec fn word_views(ws: Seq<&str>) -> Seq<Seq<char>> {
    ws.map_values(|s: &str| s@)
}

/// Every letter that some word of the chain uses.
pub open spec fn covered(chain: Seq<Seq<char>>) -> Set<char> {
    Set::new(|c: char| exists|i: int| 0 <= i < chain.len() && #[trigger] chain[i].contains(c))
}

/// The words that a path of indices names.
pub open spec fn path_words(wv: Seq<Seq<char>>, p: Seq<usize>) -> Seq<Seq<char>> {
    p.map_values(|k: usize| wv[k as int])
}

/// For each board letter, in the board's order, the words that start with
/// it: pairs of last letter and word index, all of them eligible.
pub closed spec fn graph_ok(board: &LetterBoxed, wv: Seq<Seq<char>>, g: Seq<Vec<(char, usize)>>) -> bool {
    &&& g.len() == board.letters@.len()
    &&& forall|p: int, e: int|
        0 <= p < g.len() && 0 <= e < g[p]@.len() ==> {
            let (b, k) = #[trigger] g[p]@[e];
            &&& (k as int) < wv.len()
            &&& board.eligible(wv[k as int])
            &&& wv[k as int][0] == board.letters@[p]
            &&& wv[k as int].last() == b
        }
}

/// Word `k` has an edge in `row`.
pub open spec fn in_row(row: Seq<(char, usize)>, k: int) -> bool {
    exists|e: int| 0 <= e < row.len() && (#[trigger] row[e]).1 == k
}

/// No word appears twice in one row.
pub closed spec fn graph_distinct(g: Seq<Vec<(char, usize)>>) -> bool {
    forall|p: int, e1: int, e2: int|
        0 <= p < g.len() && 0 <= e1 < e2 < g[p]@.len() ==> (#[trigger] g[p]@[e1]).1 != (#[trigger] g[p]@[e2]).1
}

/// Every eligible word stands in the row of its first letter.
pub closed spec fn graph_complete(board: &LetterBoxed, wv: Seq<Seq<char>>, g: Seq<Vec<(char, usize)>>) -> bool {
    forall|p: int, k: int|
        #![trigger wv[k], g[p]]
        0 <= p < g.len() && 0 <= k < wv.len() && board.eligible(wv[k]) && wv[k][0]
            == board.letters@[p] ==> in_row(g[p]@, k)
}

/// The characters of each word of the list.
fn word_chars(words: &[&str]) -> (r: Vec<Vec<char>>)
    ensures
        r@.len() == words@.len(),
        forall|k: int| 0 <= k < words@.len() ==> #[trigger] r@[k]@ == words@[k]@,
{
    let mut r: Vec<Vec<char>> = Vec::new();
    let mut i: usize = 0;
    while i < words.len()
        invariant
            i <= words@.len(),
            r@.len() == i,
            forall|k: int| 0 <= k < i ==> #[trigger] r@[k]@ == words@[k]@,
        decreases words.len() - i,
    {
        r.push(chars_of(words[i]));
        i += 1;
    }
    r
}

impl LetterBoxed {
    /// Which words of the list may be played on this board.
    fn eligibility(&self, wc: &Vec<Vec<char>>) -> (r: Vec<bool>)
        requires
            self.wf(),
        ensures
            r@.len() == wc@.len(),
            forall|k: int| 0 <= k < wc@.len() ==> r@[k] == self.eligible(#[trigger] wc@[k]@),
    {
        let mut r: Vec<bool> = Vec::new();
        let mut i: usize = 0;
        while i < wc.len()
            invariant
                self.wf(),
                i <= wc@.len(),
                r@.len() == i,
                forall|k: int| 0 <= k < i ==> r@[k] == self.eligible(#[trigger] wc@[k]@),
            decreases wc.len() - i,
        {
            r.push(self.is_eligible(&wc[i]));
            i += 1;
        }
        r
    }

    /// The eligible words that start with `a`, as pairs of last letter and
    /// index: by last letter in the board's order, then by index.
    fn graph_row(&self, wc: &Vec<Vec<char>>, elig: &Vec<bool>, a: char) -> (row: Vec<(char, usize)>)
        requires
            self.wf(),
            elig@.len() == wc@.len(),
            forall|k: int| 0 <= k < wc@.len() ==> elig@[k] == self.eligible(#[trigger] wc@[k]@),
        ensures
            forall|e: int|
                0 <= e < row@.len() ==> {
                    let (b, k) = #[trigger] row@[e];
                    &&& (k as int) < wc@.len()
                    &&& self.eligible(wc@[k as int]@)
                    &&& wc@[k as int]@[0] == a
                    &&& wc@[k as int]@.last() == b
                },
            forall|k: int|
                0 <= k < wc@.len() && self.eligible(#[trigger] wc@[k]@) && wc@[k]@[0] == a
                    ==> in_row(row@, k),
            forall|e1: int, e2: int| 0 <= e1 < e2 < row@.len() ==> (#[trigger] row@[e1]).1 != (#[trigger] row@[e2]).1,
    {
        let n = self.letters.len();
        let mut row: Vec<(char, usize)> = Vec::new();
        let mut q: usize = 0;
        while q < n
            invariant
                self.wf(),
                n == self.letters@.len(),
                elig@.len() == wc@.len(),
                forall|k: int| 0 <= k < wc@.len() ==> elig@[k] == self.eligible(#[trigger] wc@[k]@),
                q <= n,
                forall|e: int|
                    0 <= e < row@.len() ==> {
                        let (b, k) = #[trigger] row@[e];
                        &&& (k as int) < wc@.len()
                        &&& self.eligible(wc@[k as int]@)
                        &&& wc@[k as int]@[0] == a
                        &&& wc@[k as int]@.last() == b
                    },
                forall|k: int|
                    0 <= k < wc@.len() && self.eligible(#[trigger] wc@[k]@) && wc@[k]@[0] == a
                        && self.letters@.subrange(0, q as int).contains(wc@[k]@.last())
                        ==> in_row(row@, k),
                forall|e1: int, e2: int| 0 <= e1 < e2 < row@.len() ==> (#[trigger] row@[e1]).1 != (#[trigger] row@[e2]).1,
                forall|e: int| 0 <= e < row@.len() ==> self.letters@.subrange(0, q as int).contains((#[trigger] row@[e]).0),
            decreases n - q,
        {
            let b = self.letters[q];
            proof {
                self.lemma_letters();
                assert forall|e: int| 0 <= e < row@.len() implies (#[trigger] row@[e]).0 != b by {
                    let j = choose|j: int| 0 <= j < q && #[trigger] self.letters@.subrange(0, q as int)[j] == row@[e].0;
                    assert(self.letters@[j] < self.letters@[q as int]);
                }
                assert(!self.letters@.subrange(0, q as int).contains(b)) by {
                    if self.letters@.subrange(0, q as int).contains(b) {
                        let j = choose|j: int| 0 <= j < q && #[trigger] self.letters@.subrange(0, q as int)[j] == b;
                        assert(self.letters@[j] < self.letters@[q as int]);
                    }
                }
            }
            let mut k: usize = 0;
            while k < wc.len()
                invariant
                    self.wf(),
                    elig@.len() == wc@.len(),
                    forall|k: int| 0 <= k < wc@.len() ==> elig@[k] == self.eligible(#[trigger] wc@[k]@),
                    k <= wc@.len(),
                    q < n,
                    n == self.letters@.len(),
                    b == self.letters@[q as int],
                    forall|e: int|
                        0 <= e < row@.len() ==> {
                            let (b, k) = #[trigger] row@[e];
                            &&& (k as int) < wc@.len()
                            &&& self.eligible(wc@[k as int]@)
                            &&& wc@[k as int]@[0] == a
                            &&& wc@[k as int]@.last() == b
                        },
                    forall|kk: int|
                        0 <= kk < wc@.len() && self.eligible(#[trigger] wc@[kk]@) && wc@[kk]@[0] == a
                            && (self.letters@.subrange(0, q as int).contains(wc@[kk]@.last()) || (kk < k
                            && wc@[kk]@.last() == b)) ==> in_row(row@, kk),
                    forall|e1: int, e2: int| 0 <= e1 < e2 < row@.len() ==> (#[trigger] row@[e1]).1 != (#[trigger] row@[e2]).1,
                    forall|e: int| 0 <= e < row@.len() ==> self.letters@.subrange(0, q as int).contains((#[trigger] row@[e]).0)
                        || (row@[e].0 == b && (row@[e].1 as int) < k),
                    !self.letters@.subrange(0, q as int).contains(b),
                decreases wc.len() - k,
            {
                if elig[k] {
                    let w = &wc[k];
                    assert(self.eligible(wc@[k as int]@));
                    if w[0] == a && w[w.len() - 1] == b {
                        let ghost before = row@;
                        row.push((b, k));
                        proof {
                            lemma_push_index(before, row@, (b, k));
                            assert forall|e1: int, e2: int| 0 <= e1 < e2 < row@.len() implies (#[trigger] row@[e1]).1 != (#[trigger] row@[e2]).1 by {
                                if e2 == before.len() {
                                    assert(row@[e1] == before[e1]);
                                    assert(row@[e2] == (b, k));
                                    assert(wc@[k as int]@.last() == b);
                                    let (b1, k1) = before[e1];
                                    assert(wc@[k1 as int]@.last() == b1);
                                    if b1 == b {
                                        assert((k1 as int) < k);
                                    }
                                } else {
                                    assert(row@[e1] == before[e1]);
                                    assert(row@[e2] == before[e2]);
                                }
                            }
                            assert forall|e: int| 0 <= e < row@.len() implies self.letters@.subrange(0, q as int).contains((#[trigger] row@[e]).0)
                                || (row@[e].0 == b && (row@[e].1 as int) < k + 1) by {
                                if e < before.len() {
                                    assert(row@[e] == before[e]);
                                }
                            }
                        }
                        assert forall|kk: int|
                            0 <= kk < wc@.len() && self.eligible(#[trigger] wc@[kk]@) && wc@[kk]@[0] == a
                                && (self.letters@.subrange(0, q as int).contains(wc@[kk]@.last()) || (kk < k + 1
                                && wc@[kk]@.last() == b)) implies in_row(row@, kk) by {
                            if kk == k {
                                assert(row@[before.len() as int].1 == kk);
                            } else {
                                let e = choose|e: int| 0 <= e < before.len() && (#[trigger] before[e]).1 == kk;
                                assert(row@[e] == before[e]);
                            }
                        }
                    }
                }
                k += 1;
            }
            proof {
                assert forall|e: int| 0 <= e < row@.len() implies self.letters@.subrange(0, q + 1).contains((#[trigger] row@[e]).0) by {
                    if self.letters@.subrange(0, q as int).contains(row@[e].0) {
                        let j = choose|j: int| 0 <= j < q && #[trigger] self.letters@.subrange(0, q as int)[j] == row@[e].0;
                        assert(self.letters@.subrange(0, q + 1)[j] == row@[e].0);
                    } else {
                        assert(self.letters@.subrange(0, q + 1)[q as int] == row@[e].0);
                    }
                }
                assert forall|kk: int|
                    0 <= kk < wc@.len() && self.eligible(#[trigger] wc@[kk]@) && wc@[kk]@[0] == a
                        && self.letters@.subrange(0, q + 1).contains(wc@[kk]@.last())
                        implies in_row(row@, kk) by {
                    let j = choose|j: int| 0 <= j < q + 1 && #[trigger] self.letters@.subrange(0, q + 1)[j] == wc@[kk]@.last();
                    if j < q {
                        assert(self.letters@.subrange(0, q as int)[j] == wc@[kk]@.last());
                    }
                }
            }
            q += 1;
        }
        proof {
            self.lemma_letters();
            assert(self.letters@.subrange(0, n as int) == self.letters@);
            assert forall|k: int| 0 <= k < wc@.len() && self.eligible(#[trigger] wc@[k]@) && wc@[k]@[0] == a
                implies self.letters@.subrange(0, n as int).contains(wc@[k]@.last()) by {
                assert(self.on_board(wc@[k]@[wc@[k]@.len() - 1]));
            }
        }
        row
    }

    /// Indexes the eligible words by first letter, then by last letter, then
    /// by position in the list.
    fn build_graph(&self, wc: &Vec<Vec<char>>) -> (g: Vec<Vec<(char, usize)>>)
        requires
            self.wf(),
        ensures
            graph_ok(self, wc@.map_values(|w: Vec<char>| w@), g@),
            graph_complete(self, wc@.map_values(|w: Vec<char>| w@), g@),
            graph_distinct(g@),
    {
        let ghost wv = wc@.map_values(|w: Vec<char>| w@);
        let elig = self.eligibility(wc);
        let n = self.letters.len();
        let mut g: Vec<Vec<(char, usize)>> = Vec::new();
        let mut p: usize = 0;
        while p < n
            invariant
                self.wf(),
                n == self.letters@.len(),
                wv == wc@.map_values(|w: Vec<char>| w@),
                elig@.len() == wc@.len(),
                forall|k: int| 0 <= k < wc@.len() ==> elig@[k] == self.eligible(#[trigger] wc@[k]@),
                p <= n,
                g@.len() == p,
                forall|pp: int, e: int|
                    0 <= pp < p && 0 <= e < g@[pp]@.len() ==> {
                        let (b, k) = #[trigger] g@[pp]@[e];
                        &&& (k as int) < wv.len()
                        &&& self.eligible(wv[k as int])
                        &&& wv[k as int][0] == self.letters@[pp]
                        &&& wv[k as int].last() == b
                    },
                forall|pp: int, k: int|
                    #![trigger wv[k], g@[pp]]
                    0 <= pp < p && 0 <= k < wv.len() && self.eligible(wv[k]) && wv[k][0]
                        == self.letters@[pp] ==> in_row(g@[pp]@, k),
                forall|pp: int, e1: int, e2: int|
                    0 <= pp < p && 0 <= e1 < e2 < g@[pp]@.len() ==> (#[trigger] g@[pp]@[e1]).1 != (#[trigger] g@[pp]@[e2]).1,
            decreases n - p,
        {
            let row = self.graph_row(wc, &elig, self.letters[p]);
            let ghost before = g@;
            let ghost rowv = row@;
            g.push(row);
            proof {
                assert forall|pp: int, e1: int, e2: int|
                    0 <= pp < p + 1 && 0 <= e1 < e2 < g@[pp]@.len() implies (#[trigger] g@[pp]@[e1]).1 != (#[trigger] g@[pp]@[e2]).1 by {
                    if pp < p {
                        assert(g@[pp] == before[pp]);
                    } else {
                        assert(g@[pp]@ == rowv);
                    }
                }
                assert forall|pp: int, e: int|
                    0 <= pp < p + 1 && 0 <= e < g@[pp]@.len() implies {
                        let (b, k) = #[trigger] g@[pp]@[e];
                        &&& (k as int) < wv.len()
                        &&& self.eligible(wv[k as int])
                        &&& wv[k as int][0] == self.letters@[pp]
                        &&& wv[k as int].last() == b
                    } by {
                    if pp < p {
                        assert(g@[pp] == before[pp]);
                    } else {
                        assert(g@[pp]@ == rowv);
                        assert(wv[rowv[e].1 as int] == wc@[rowv[e].1 as int]@);
                    }
                }
                assert forall|pp: int, k: int|
                    #![trigger wv[k], g@[pp]]
                    0 <= pp < p + 1 && 0 <= k < wv.len() && self.eligible(wv[k]) && wv[k][0]
                        == self.letters@[pp] implies in_row(g@[pp]@, k) by {
                    if pp < p {
                        assert(g@[pp] == before[pp]);
                    } else {
                        assert(g@[pp]@ == rowv);
                        assert(wv[k] == wc@[k]@);
                    }
                }
            }
            p += 1;
        }
        g
    }
}

/// A point of the search: the letter the chain ends on, the letters it has
/// used (ascending, each once), and the word indices that led there.
struct SearchState {
    cur: char,
    visited: Vec<char>,
    path: Vec<usize>,
}

/// A path of word indices that extends `prior`: every index names a word of
/// the list, each word after the prefix is eligible, and each word after the
/// prefix starts with the last letter of the word before it.
pub open spec fn path_ok(board: &LetterBoxed, wv: Seq<Seq<char>>, prior: Seq<usize>, p: Seq<usize>) -> bool {
    &&& prior.len() <= p.len()
    &&& p.subrange(0, prior.len() as int) == prior
    &&& forall|k: int| 0 <= k < p.len() ==> (#[trigger] p[k] as int) < wv.len()
    &&& forall|k: int| prior.len() <= k < p.len() ==> board.eligible(wv[#[trigger] p[k] as int])
    &&& forall|k: int|
        prior.len() <= k < p.len() && 1 <= k ==> last_char(wv[p[k - 1] as int]) == first_char(
            wv[#[trigger] p[k] as int],
        )
}

/// What a queued state carries: its letters are exactly those of its words
/// (or only the starting letter, before the first word), and it ends where
/// its last word ends.
#[verifier::opaque]
spec fn state_ok(board: &LetterBoxed, wv: Seq<Seq<char>>, prior: Seq<usize>, s: SearchState, depth: int) -> bool {
    &&& strictly_sorted(s.visited@)
    &&& s.path@.len() == depth
    &&& path_ok(board, wv, prior, s.path@)
    &&& forall|c: char|
        s.visited@.contains(c) <==> (covered(path_words(wv, s.path@)).contains(c) || (s.path@.len()
            == 0 && c == s.cur))
    &&& s.path@.len() > 0 ==> last_char(wv[s.path@.last() as int]) == Some(s.cur)
    &&& s.path@.len() == 0 ==> (board.on_board(s.cur) && exists|c: char|
        board.on_board(c) && c != s.cur)
    &&& s.path@.len() == 0 ==> prior.len() == 0 && some_eligible(board, wv)
}

/// Some word of the list is eligible on the board.
pub open spec fn some_eligible(board: &LetterBoxed, wv: Seq<Seq<char>>) -> bool {
    exists|k: int| 0 <= k < wv.len() && board.eligible(#[trigger] wv[k])
}

/// The letters of a path grow by those of the word added to it.
proof fn lemma_covered_push(wv: Seq<Seq<char>>, p: Seq<usize>, k: usize)
    ensures
        forall|c: char|
            #[trigger] covered(path_words(wv, p.push(k))).contains(c) <==> (covered(path_words(wv, p)).contains(c)
                || wv[k as int].contains(c)),
{
    let a = path_words(wv, p);
    let b = path_words(wv, p.push(k));
    assert(b.len() == a.len() + 1);
    assert forall|c: char| covered(b).contains(c) <==> (covered(a).contains(c) || wv[k as int].contains(c)) by {
        if covered(b).contains(c) {
            let i = choose|i: int| 0 <= i < b.len() && #[trigger] b[i].contains(c);
            if i < a.len() {
                assert(a[i] == b[i]);
            }
        }
        if covered(a).contains(c) {
            let i = choose|i: int| 0 <= i < a.len() && #[trigger] a[i].contains(c);
            assert(b[i] == a[i]);
        }
        if wv[k as int].contains(c) {
            assert(b[a.len() as int] == wv[k as int]);
        }
    }
}

/// One eligible word that starts where `s` stands takes it to a state one
/// word deeper.
proof fn lemma_child_ok(
    board: &LetterBoxed,
    wv: Seq<Seq<char>>,
    prior: Seq<usize>,
    s: SearchState,
    child: SearchState,
    depth: int,
    k: usize,
)
    requires
        state_ok(board, wv, prior, s, depth),
        (k as int) < wv.len(),
        board.eligible(wv[k as int]),
        wv[k as int][0] == s.cur,
        wv[k as int].last() == child.cur,
        child.path@ == s.path@.push(k),
        strictly_sorted(child.visited@),
        forall|c: char| child.visited@.contains(c) <==> (s.visited@.contains(c) || wv[k as int].contains(c)),
    ensures
        state_ok(board, wv, prior, child, depth + 1),
{
    reveal(state_ok);
    lemma_covered_push(wv, s.path@, k);
    let w = wv[k as int];
    assert(w.contains(s.cur)) by {
        assert(w[0] == s.cur);
    }
    assert forall|c: char|
        child.visited@.contains(c) <==> covered(path_words(wv, child.path@)).contains(c) by {
        assert(s.visited@.contains(c) <==> (covered(path_words(wv, s.path@)).contains(c) || (s.path@.len()
            == 0 && c == s.cur)));
        assert(covered(path_words(wv, s.path@.push(k))).contains(c) <==> (covered(path_words(wv, s.path@)).contains(c)
            || w.contains(c)));
        if s.path@.len() == 0 {
            assert(path_words(wv, s.path@).len() == 0);
            assert(!covered(path_words(wv, s.path@)).contains(c));
        }
    }
    let p = child.path@;
    assert(p.subrange(0, prior.len() as int) == s.path@.subrange(0, prior.len() as int));
    assert forall|i: int| 0 <= i < p.len() implies (#[trigger] p[i] as int) < wv.len() by {
        if i < s.path@.len() {
            assert(p[i] == s.path@[i]);
        }
    }
    assert forall|i: int| prior.len() <= i < p.len() implies board.eligible(wv[#[trigger] p[i] as int]) by {
        if i < s.path@.len() {
            assert(p[i] == s.path@[i]);
        }
    }
    assert forall|i: int|
        prior.len() <= i < p.len() && 1 <= i implies last_char(wv[p[i - 1] as int]) == first_char(
            wv[#[trigger] p[i] as int],
        ) by {
        if i < s.path@.len() {
            assert(p[i] == s.path@[i]);
            assert(p[i - 1] == s.path@[i - 1]);
        } else {
            assert(p[i] == k);
            assert(p[i - 1] == s.path@.last());
        }
    }
    assert(p.last() == k);
}

/// `w` uses a letter that `visited` does not hold.
pub open spec fn new_letter(w: Seq<char>, visited: Seq<char>) -> bool {
    exists|i: int| 0 <= i < w.len() && !visited.contains(#[trigger] w[i])
}

/// Some state of `states` has followed exactly `q`.
spec fn has_path(states: Seq<SearchState>, q: Seq<usize>) -> bool {
    exists|m: int| 0 <= m < states.len() && (#[trigger] states[m]).path@ == q
}

/// `x` follows `s` by one of the first `e` edges.
spec fn from_edges(x: SearchState, s: SearchState, edges: Seq<(char, usize)>, e: int) -> bool {
    exists|e2: int| 0 <= e2 < e && x.path@ == s.path@.push((#[trigger] edges[e2]).1)
}

/// Some state of `states` stands on `c`.
spec fn has_start(states: Seq<SearchState>, c: char) -> bool {
    exists|m: int| 0 <= m < states.len() && (#[trigger] states[m]).cur == c
}

/// Whether every character of `w` is already in `visited`.
fn covers_all(visited: &Vec<char>, w: &Vec<char>) -> (r: bool)
    ensures
        r == forall|i: int| 0 <= i < w@.len() ==> visited@.contains(#[trigger] w@[i]),
{
    let mut j: usize = 0;
    while j < w.len()
        invariant
            j <= w@.len(),
            forall|i: int| 0 <= i < j ==> visited@.contains(#[trigger] w@[i]),
        decreases w.len() - j,
    {
        if !contains_char(visited, w[j]) {
            return false;
        }
        j += 1;
    }
    true
}

/// The ascending set `visited` with the characters of `w` added.
fn with_letters(visited: &Vec<char>, w: &Vec<char>) -> (v: Vec<char>)
    requires
        strictly_sorted(visited@),
    ensures
        strictly_sorted(v@),
        forall|c: char| v@.contains(c) <==> (visited@.contains(c) || w@.contains(c)),
{
    let mut v = copy_vec(visited);
    let mut j: usize = 0;
    while j < w.len()
        invariant
            j <= w@.len(),
            strictly_sorted(v@),
            forall|c: char|
                v@.contains(c) <==> (visited@.contains(c) || w@.subrange(0, j as int).contains(c)),
        decreases w.len() - j,
    {
        insert_sorted(&mut v, w[j]);
        proof {
            assert(w@.subrange(0, j + 1) == w@.subrange(0, j as int).push(w@[j as int]));
            assert forall|c: char| w@.subrange(0, j + 1).contains(c)
                <==> (w@.subrange(0, j as int).contains(c) || c == w@[j as int]) by {
                if c == w@[j as int] {
                    assert(w@.subrange(0, j + 1)[j as int] == c);
                }
            }
        }
        j += 1;
    }
    assert(w@.subrange(0, w@.len() as int) == w@);
    v
}

/// What appending to a sequence leaves in place.
proof fn lemma_push_index<T>(before: Seq<T>, after: Seq<T>, x: T)
    requires
        after == before.push(x),
    ensures
        after.len() == before.len() + 1,
        after[before.len() as int] == x,
        forall|m: int| 0 <= m < before.len() ==> after[m] == before[m],
{
}

/// Appending a good state to a queue of good states keeps them all good.
proof fn lemma_push_ok(
    board: &LetterBoxed,
    wv: Seq<Seq<char>>,
    prior: Seq<usize>,
    before: Seq<SearchState>,
    after: Seq<SearchState>,
    s: SearchState,
    depth: int,
)
    requires
        forall|i: int| 0 <= i < before.len() ==> state_ok(board, wv, prior, #[trigger] before[i], depth),
        state_ok(board, wv, prior, s, depth),
        after == before.push(s),
    ensures
        forall|i: int| 0 <= i < after.len() ==> state_ok(board, wv, prior, #[trigger] after[i], depth),
{
    assert forall|i: int| 0 <= i < after.len() implies state_ok(board, wv, prior, #[trigger] after[i], depth) by {
        if i < before.len() {
            assert(after[i] == before[i]);
        } else {
            assert(after[i] == s);
        }
    }
}

impl LetterBoxed {
    /// Queues each state that one more word reaches from `s`: for every edge
    /// out of its letter, in order, whose word uses a letter not yet covered.
    fn expand(
        &self,
        wc: &Vec<Vec<char>>,
        prior: Ghost<Seq<usize>>,
        s: &SearchState,
        depth: usize,
        edges: &Vec<(char, usize)>,
        next: &mut Vec<SearchState>,
    )
        requires
            self.wf(),
            state_ok(self, wc@.map_values(|w: Vec<char>| w@), prior@, *s, depth as int),
            depth < usize::MAX,
            forall|e: int|
                0 <= e < edges@.len() ==> {
                    let (b, k) = #[trigger] edges@[e];
                    &&& (k as int) < wc@.len()
                    &&& self.eligible(wc@[k as int]@)
                    &&& wc@[k as int]@[0] == s.cur
                    &&& wc@[k as int]@.last() == b
                },
            forall|i: int|
                0 <= i < old(next)@.len() ==> state_ok(
                    self,
                    wc@.map_values(|w: Vec<char>| w@),
                    prior@,
                    #[trigger] old(next)@[i],
                    depth + 1,
                ),
            forall|e1: int, e2: int| 0 <= e1 < e2 < edges@.len() ==> (#[trigger] edges@[e1]).1 != (#[trigger] edges@[e2]).1,
        ensures
            forall|m: int| old(next)@.len() <= m < final(next)@.len() ==> from_edges(#[trigger] final(next)@[m], *s, edges@, edges@.len() as int),
            forall|m1: int, m2: int|
                old(next)@.len() <= m1 < m2 < final(next)@.len() ==> (#[trigger] final(next)@[m1]).path@ != (#[trigger] final(next)@[m2]).path@,
            forall|i: int|
                0 <= i < final(next)@.len() ==> state_ok(
                    self,
                    wc@.map_values(|w: Vec<char>| w@),
                    prior@,
                    #[trigger] final(next)@[i],
                    depth + 1,
                ),
            final(next)@.len() >= old(next)@.len(),
            forall|m: int| 0 <= m < old(next)@.len() ==> final(next)@[m] == old(next)@[m],
            forall|e: int|
                0 <= e < edges@.len() && new_letter(wc@[(#[trigger] edges@[e]).1 as int]@, s.visited@)
                    ==> has_path(final(next)@, s.path@.push(edges@[e].1)),
    {
        let ghost wv = wc@.map_values(|w: Vec<char>| w@);
        let ghost start = next@;
        let mut e: usize = 0;
        while e < edges.len()
            invariant
                self.wf(),
                wv == wc@.map_values(|w: Vec<char>| w@),
                state_ok(self, wv, prior@, *s, depth as int),
                depth < usize::MAX,
                forall|e: int|
                    0 <= e < edges@.len() ==> {
                        let (b, k) = #[trigger] edges@[e];
                        &&& (k as int) < wc@.len()
                        &&& self.eligible(wc@[k as int]@)
                        &&& wc@[k as int]@[0] == s.cur
                        &&& wc@[k as int]@.last() == b
                    },
                forall|i: int|
                    0 <= i < next@.len() ==> state_ok(self, wv, prior@, #[trigger] next@[i], depth + 1),
                e <= edges@.len(),
                next@.len() >= start.len(),
                forall|m: int| 0 <= m < start.len() ==> next@[m] == start[m],
                forall|e2: int|
                    0 <= e2 < e && new_letter(wc@[(#[trigger] edges@[e2]).1 as int]@, s.visited@)
                        ==> has_path(next@, s.path@.push(edges@[e2].1)),
                forall|e1: int, e2: int| 0 <= e1 < e2 < edges@.len() ==> (#[trigger] edges@[e1]).1 != (#[trigger] edges@[e2]).1,
                forall|m: int| start.len() <= m < next@.len() ==> from_edges(#[trigger] next@[m], *s, edges@, e as int),
                forall|m1: int, m2: int|
                    start.len() <= m1 < m2 < next@.len() ==> (#[trigger] next@[m1]).path@ != (#[trigger] next@[m2]).path@,
            decreases edges.len() - e,
        {
            let (b, k) = edges[e];
            let w = &wc[k];
            assert(wv[k as int] == w@);
            assert(strictly_sorted(s.visited@)) by {
                reveal(state_ok);
            }
            if !covers_all(&s.visited, w) {
                let v = with_letters(&s.visited, w);
                let mut path = copy_vec(&s.path);
                path.push(k);
                let child = SearchState { cur: b, visited: v, path };
                proof {
                    lemma_child_ok(self, wv, prior@, *s, child, depth as int, k);
                }
                let ghost before = next@;
                next.push(child);
                proof {
                    lemma_push_ok(self, wv, prior@, before, next@, child, depth + 1);
                    lemma_push_index(before, next@, child);
                    assert(next@[before.len() as int].path@ == s.path@.push(k));
                    assert forall|e2: int|
                        0 <= e2 < e + 1 && new_letter(wc@[(#[trigger] edges@[e2]).1 as int]@, s.visited@)
                            implies has_path(next@, s.path@.push(edges@[e2].1)) by {
                        if e2 < e {
                            let m = choose|m: int| 0 <= m < before.len() && (#[trigger] before[m]).path@ == s.path@.push(edges@[e2].1);
                            assert(next@[m] == before[m]);
                        }
                    }
                    assert forall|m: int| start.len() <= m < next@.len() implies from_edges(#[trigger] next@[m], *s, edges@, e + 1) by {
                        if m < before.len() {
                            assert(next@[m] == before[m]);
                            assert(from_edges(before[m], *s, edges@, e as int));
                        } else {
                            assert(next@[m].path@ == s.path@.push(edges@[e as int].1));
                        }
                    }
                    assert forall|m1: int, m2: int|
                        start.len() <= m1 < m2 < next@.len() implies (#[trigger] next@[m1]).path@ != (#[trigger] next@[m2]).path@ by {
                        assert(next@[m1] == before[m1]);
                        if m2 < before.len() {
                            assert(next@[m2] == before[m2]);
                        } else {
                            assert(from_edges(before[m1], *s, edges@, e as int));
                            let e1 = choose|e1: int| 0 <= e1 < e && (#[trigger] before[m1]).path@ == s.path@.push(edges@[e1].1);
                            assert(edges@[e1].1 != edges@[e as int].1);
                            assert(before[m1].path@.last() == edges@[e1].1);
                            assert(next@[m2].path@.last() == edges@[e as int].1);
                        }
                    }
                }
            }
            e += 1;
        }
    }
}

/// A chain that covers exactly the board's letters, counted as such.
pub open spec fn full(board: &LetterBoxed, wv: Seq<Seq<char>>, p: Seq<usize>, count: usize) -> bool {
    &&& covered(path_words(wv, p)) == board.letter_set()
    &&& count == board.letter_set().len()
}

/// What the search hands back, as word indices and letter counts: at least
/// one entry, and no more than `max_results` unless it is a single one;
/// every path extends `prior` legally and stays within `max_depth` words
/// (or is `prior` itself); each count is the number of letters the chain
/// covers (an empty chain counts its start letter, 1, when it had one, that
/// is, with no `prior` and some eligible word; else 0); paths come shortest
/// first; and either every entry covers the
/// board exactly, or there is a single best-effort entry; no path comes
/// twice. When some
/// progressive chain within the bound covers the board, every entry does
/// and the first is as short as any covering chain; a first entry that does
/// not cover the board beats every progressive chain within the bound.
pub open spec fn found_ok(
    board: &LetterBoxed,
    wv: Seq<Seq<char>>,
    prior: Seq<usize>,
    max_depth: usize,
    max_results: usize,
    rs: Seq<(Seq<usize>, usize)>,
) -> bool {
    &&& rs.len() >= 1
    &&& rs.len() <= max_results || rs.len() == 1
    &&& forall|i: int| 0 <= i < rs.len() ==> path_ok(board, wv, prior, #[trigger] rs[i].0)
    &&& forall|i: int|
        0 <= i < rs.len() ==> (#[trigger] rs[i].0).len() <= prior.len() || rs[i].0.len() <= max_depth
    &&& forall|i: int|
        0 <= i < rs.len() && (#[trigger] rs[i].0).len() > 0 ==> rs[i].1 == covered(
            path_words(wv, rs[i].0),
        ).len()
    &&& forall|i: int|
        0 <= i < rs.len() && (#[trigger] rs[i].0).len() == 0 ==> rs[i].1 == (if prior.len() == 0
            && some_eligible(board, wv) { 1usize } else { 0usize }) && (rs[i].1 == 1 ==> board.letter_set().len() >= 2)
    &&& (forall|i: int| 0 <= i < rs.len() ==> #[trigger] full(board, wv, rs[i].0, rs[i].1)) || rs.len() == 1
    &&& forall|i: int, j: int| 0 <= i < j < rs.len() ==> (#[trigger] rs[i].0).len() <= (#[trigger] rs[j].0).len()
    &&& paths_distinct(rs)
    &&& (exists|q: Seq<usize>| #[trigger] covers(board, wv, prior, q) && (q.len() <= max_depth || q.len() == prior.len()))
        ==> (forall|i: int| 0 <= i < rs.len() ==> #[trigger] full(board, wv, rs[i].0, rs[i].1))
        && forall|q: Seq<usize>| #[trigger] covers(board, wv, prior, q) ==> rs[0].0.len() <= q.len()
    &&& !full(board, wv, rs[0].0, rs[0].1) ==> forall|q: Seq<usize>|
        #[trigger] path_ok(board, wv, prior, q) && progressive(wv, prior, q) && q.len() > 0 && (q.len() <= max_depth
            || q.len() == prior.len()) ==> dominated(wv, rs[0].0, rs[0].1, q)
}

/// An ascending vector that holds exactly the members of `t` has as many
/// entries as `t` has members.
proof fn lemma_seq_set(v: Seq<char>, t: Set<char>)
    requires
        strictly_sorted(v),
        forall|c: char| v.contains(c) <==> t.contains(c),
    ensures
        v.to_set() == t,
        t.finite(),
        v.len() == t.len(),
{
    lemma_sorted_no_dup(v);
    assert(v.to_set() =~= t);
}

/// Two distinct letters on the board make a letter set of at least two.
proof fn lemma_two_letters(board: &LetterBoxed, a: char, c: char)
    requires
        board.wf(),
        board.on_board(a),
        board.on_board(c),
        a != c,
    ensures
        board.letter_set().len() >= 2,
{
    board.lemma_letters();
    assert(set![a, c].subset_of(board.letter_set()));
    vstd::set_lib::lemma_len_subset(set![a, c], board.letter_set());
}

/// What a well-formed state tells about its letter count and coverage.
proof fn lemma_state_facts(board: &LetterBoxed, wv: Seq<Seq<char>>, prior: Seq<usize>, s: SearchState, depth: int)
    requires
        board.wf(),
        state_ok(board, wv, prior, s, depth),
    ensures
        path_ok(board, wv, prior, s.path@),
        s.path@.len() == depth,
        strictly_sorted(s.visited@),
        s.path@.len() > 0 ==> s.visited@.len() == covered(path_words(wv, s.path@)).len(),
        s.path@.len() == 0 ==> s.visited@.len() == 1 && board.letter_set().len() >= 2,
        s.path@.len() == 0 ==> prior.len() == 0 && some_eligible(board, wv),
        s.visited@ == board.letters@ ==> s.path@.len() > 0 && covered(path_words(wv, s.path@))
            == board.letter_set(),
{
    reveal(state_ok);
    board.lemma_letters();
    let cov = covered(path_words(wv, s.path@));
    if s.path@.len() > 0 {
        lemma_seq_set(s.visited@, cov);
        if s.visited@ == board.letters@ {
            assert(cov =~= board.letter_set());
        }
    } else {
        lemma_seq_set(s.visited@, set![s.cur]);
        let c = choose|c: char| board.on_board(c) && c != s.cur;
        lemma_two_letters(board, s.cur, c);
        if s.visited@ == board.letters@ {
            assert(board.letters@.contains(c));
        }
    }
}

/// Whether two character vectors are equal.
fn same_chars(a: &Vec<char>, b: &Vec<char>) -> (r: bool)
    ensures
        r == (a@ == b@),
{
    if a.len() != b.len() {
        return false;
    }
    let mut i: usize = 0;
    while i < a.len()
        invariant
            a@.len() == b@.len(),
            i <= a@.len(),
            forall|k: int| 0 <= k < i ==> a@[k] == b@[k],
        decreases a.len() - i,
    {
        if a[i] != b[i] {
            return false;
        }
        i += 1;
    }
    assert(a@ =~= b@);
    true
}

/// The paths of a result list, as sequences.
pub open spec fn index_view(rs: Seq<(Vec<usize>, usize)>) -> Seq<(Seq<usize>, usize)> {
    rs.map_values(|r: (Vec<usize>, usize)| (r.0@, r.1))
}

/// The best-effort record: a legal path with its letter count, or nothing yet.
#[verifier::opaque]
spec fn best_ok(board: &LetterBoxed, wv: Seq<Seq<char>>, prior: Seq<usize>, max_depth: usize, p: Seq<usize>, count: usize) -> bool {
    &&& path_ok(board, wv, prior, p)
    &&& p.len() <= prior.len() || p.len() <= max_depth
    &&& p.len() > 0 ==> count == covered(path_words(wv, p)).len()
    &&& p.len() == 0 ==> (count == 0 || (count == 1 && board.letter_set().len() >= 2 && prior.len() == 0
        && some_eligible(board, wv)))
}

/// Full solutions found so far, none longer than the current depth, shortest first.
#[verifier::opaque]
spec fn results_ok(board: &LetterBoxed, wv: Seq<Seq<char>>, prior: Seq<usize>, max_depth: usize, rs: Seq<(Seq<usize>, usize)>, depth: int) -> bool {
    &&& forall|i: int| 0 <= i < rs.len() ==> path_ok(board, wv, prior, #[trigger] rs[i].0)
    &&& forall|i: int| 0 <= i < rs.len() ==> (#[trigger] rs[i].0).len() > 0 && rs[i].0.len() <= depth
        && (rs[i].0.len() <= prior.len() || rs[i].0.len() <= max_depth)
    &&& forall|i: int| 0 <= i < rs.len() ==> #[trigger] full(board, wv, rs[i].0, rs[i].1)
    &&& forall|i: int, j: int| 0 <= i < j < rs.len() ==> (#[trigger] rs[i].0).len() <= (#[trigger] rs[j].0).len()
}

/// A state with no words yet, on a letter that an eligible word starts with.
proof fn lemma_start_ok(board: &LetterBoxed, wv: Seq<Seq<char>>, s: SearchState, k: usize)
    requires
        board.wf(),
        (k as int) < wv.len(),
        board.eligible(wv[k as int]),
        wv[k as int][0] == s.cur,
        s.visited@ == seq![s.cur],
        s.path@.len() == 0,
    ensures
        state_ok(board, wv, Seq::empty(), s, 0),
{
    reveal(state_ok);
    let w = wv[k as int];
    assert(board.on_board(w[0]));
    assert(board.on_board(w[1]));
    if w[1] == s.cur {
        let i = choose|i: int| 0 <= i < board.sides_view().len() && #[trigger] board.sides_view()[i].contains(s.cur);
        assert(board.forbidden(w[0], w[1]));
        let z: int = 0;
        assert(!board.forbidden(w[z], w[z + 1]));
    }
    assert(s.path@.subrange(0, 0) =~= Seq::<usize>::empty());
    assert(some_eligible(board, wv));
    assert(path_words(wv, s.path@).len() == 0);
    assert forall|c: char| s.visited@.contains(c) <==> c == s.cur by {
        if c == s.cur {
            assert(s.visited@[0] == c);
        }
    }
}

/// Adding a full solution at the current depth keeps the result list good.
proof fn lemma_result_push(
    board: &LetterBoxed,
    wv: Seq<Seq<char>>,
    prior: Seq<usize>,
    max_depth: usize,
    before: Seq<(Seq<usize>, usize)>,
    after: Seq<(Seq<usize>, usize)>,
    p: Seq<usize>,
    count: usize,
    depth: int,
)
    requires
        results_ok(board, wv, prior, max_depth, before, depth),
        after == before.push((p, count)),
        path_ok(board, wv, prior, p),
        p.len() == depth,
        p.len() > 0,
        p.len() <= prior.len() || p.len() <= max_depth,
        full(board, wv, p, count),
    ensures
        results_ok(board, wv, prior, max_depth, after, depth),
{
    reveal(results_ok);
    assert forall|i: int| 0 <= i < after.len() implies after[i] == if i < before.len() { before[i] } else { (p, count) } by {}
    assert forall|i: int, j: int| 0 <= i < j < after.len() implies (#[trigger] after[i].0).len() <= (#[trigger] after[j].0).len() by {
        if j < before.len() {
            assert(before[i].0.len() <= before[j].0.len());
        } else {
            assert(after[i] == before[i]);
        }
    }
}

/// A state may take the place of the best-effort record.
proof fn lemma_best_from_state(board: &LetterBoxed, wv: Seq<Seq<char>>, prior: Seq<usize>, max_depth: usize, s: SearchState, depth: int)
    requires
        board.wf(),
        state_ok(board, wv, prior, s, depth),
        depth == prior.len() || depth <= max_depth,
    ensures
        best_ok(board, wv, prior, max_depth, s.path@, s.visited.len()),
{
    reveal(best_ok);
    lemma_state_facts(board, wv, prior, s, depth);
}

/// Solutions no longer than one depth are no longer than the next.
proof fn lemma_results_deeper(board: &LetterBoxed, wv: Seq<Seq<char>>, prior: Seq<usize>, max_depth: usize, rs: Seq<(Seq<usize>, usize)>, depth: int)
    requires
        results_ok(board, wv, prior, max_depth, rs, depth),
    ensures
        results_ok(board, wv, prior, max_depth, rs, depth + 1),
{
    reveal(results_ok);
}

/// The search's answer: the solutions if there are any, else the
/// best-effort record alone.
proof fn lemma_found(
    board: &LetterBoxed,
    wv: Seq<Seq<char>>,
    prior: Seq<usize>,
    max_depth: usize,
    max_results: usize,
    rs: Seq<(Seq<usize>, usize)>,
    depth: int,
    bp: Seq<usize>,
    bc: usize,
    out: Seq<(Seq<usize>, usize)>,
)
    requires
        results_ok(board, wv, prior, max_depth, rs, depth),
        best_ok(board, wv, prior, max_depth, bp, bc),
        rs.len() <= max_results || rs.len() <= 1,
        rs.len() > 0 ==> out == rs,
        rs.len() == 0 ==> out == seq![(bp, bc)],
        rs.len() == 0 ==> forall|q: Seq<usize>|
            #[trigger] covers(board, wv, prior, q) ==> !(q.len() <= max_depth || q.len() == prior.len()),
        rs.len() > 0 ==> first_shortest(board, wv, prior, rs),
        paths_distinct(rs),
        rs.len() == 0 && prior.len() == 0 && some_eligible(board, wv) ==> bc >= 1,
        rs.len() == 0 ==> best_below(board, wv, prior, bp, bc, depth + 1),
        rs.len() == 0 ==> forall|q: Seq<usize>|
            #[trigger] path_ok(board, wv, prior, q) && progressive(wv, prior, q) && q.len() > 0 && (q.len()
                <= max_depth || q.len() == prior.len()) ==> q.len() <= depth,
    ensures
        found_ok(board, wv, prior, max_depth, max_results, out),
{
    reveal(best_below);
    reveal(results_ok);
    reveal(best_ok);
    reveal(first_shortest);
    if rs.len() == 0 {
        assert(out[0] == (bp, bc));
    } else {
        assert forall|i: int| 0 <= i < rs.len() && (#[trigger] rs[i].0).len() > 0 implies rs[i].1 == covered(
            path_words(wv, rs[i].0),
        ).len() by {
            assert(full(board, wv, rs[i].0, rs[i].1));
        }
    }
}

impl LetterBoxed {
    /// One state for each board letter that some eligible word starts
    /// with, in ascending letter order.
    fn start_states(&self, wc: &Vec<Vec<char>>, g: &Vec<Vec<(char, usize)>>) -> (r: Vec<SearchState>)
        requires
            self.wf(),
            graph_ok(self, wc@.map_values(|w: Vec<char>| w@), g@),
            graph_complete(self, wc@.map_values(|w: Vec<char>| w@), g@),
        ensures
            forall|i: int|
                0 <= i < r@.len() ==> state_ok(
                    self,
                    wc@.map_values(|w: Vec<char>| w@),
                    Seq::empty(),
                    #[trigger] r@[i],
                    0,
                ),
            forall|k: int|
                0 <= k < wc@.len() && self.eligible(#[trigger] wc@[k]@) ==> has_start(r@, wc@[k]@[0]),
            key_distinct(r@),
    {
        let ghost wv = wc@.map_values(|w: Vec<char>| w@);
        let mut r: Vec<SearchState> = Vec::new();
        let mut p: usize = 0;
        while p < g.len()
            invariant
                self.wf(),
                wv == wc@.map_values(|w: Vec<char>| w@),
                graph_ok(self, wv, g@),
                p <= g@.len(),
                forall|i: int| 0 <= i < r@.len() ==> state_ok(self, wv, Seq::empty(), #[trigger] r@[i], 0),
                graph_complete(self, wv, g@),
                forall|k: int|
                    0 <= k < wv.len() && self.eligible(#[trigger] wv[k]) && self.letters@.subrange(0, p as int).contains(wv[k][0])
                        ==> has_start(r@, wv[k][0]),
                key_distinct(r@),
                forall|m: int| 0 <= m < r@.len() ==> self.letters@.subrange(0, p as int).contains((#[trigger] r@[m]).cur),
                g@.len() == self.letters@.len(),
            decreases g.len() - p,
        {
            proof {
                self.lemma_letters();
                assert forall|k: int|
                    0 <= k < wv.len() && self.eligible(#[trigger] wv[k]) && self.letters@.subrange(0, p + 1).contains(wv[k][0])
                        && !self.letters@.subrange(0, p as int).contains(wv[k][0])
                        implies wv[k][0] == self.letters@[p as int] && in_row(g@[p as int]@, k) by {
                    let j = choose|j: int| 0 <= j < p + 1 && #[trigger] self.letters@.subrange(0, p + 1)[j] == wv[k][0];
                    if j < p {
                        assert(self.letters@.subrange(0, p as int)[j] == wv[k][0]);
                    }
                    assert(wv[k][0] == self.letters@[p as int]);
                }
            }
            if g[p].len() > 0 {
                let a = self.letters[p];
                let mut visited: Vec<char> = Vec::new();
                visited.push(a);
                let s = SearchState { cur: a, visited, path: Vec::new() };
                proof {
                    let (b, k) = g@[p as int]@[0];
                    lemma_start_ok(self, wv, s, k);
                }
                let ghost before = r@;
                r.push(s);
                proof {
                    lemma_push_ok(self, wv, Seq::empty(), before, r@, s, 0);
                    lemma_push_index(before, r@, s);
                    assert forall|m: int| 0 <= m < r@.len() implies self.letters@.subrange(0, p + 1).contains((#[trigger] r@[m]).cur) by {
                        if m < before.len() {
                            assert(r@[m] == before[m]);
                            let j = choose|j: int| 0 <= j < p && #[trigger] self.letters@.subrange(0, p as int)[j] == before[m].cur;
                            assert(self.letters@.subrange(0, p + 1)[j] == before[m].cur);
                        } else {
                            assert(self.letters@.subrange(0, p + 1)[p as int] == a);
                        }
                    }
                    assert forall|m1: int, m2: int| 0 <= m1 < m2 < r@.len() implies !((#[trigger] r@[m1]).path@ == (#[trigger] r@[m2]).path@
                        && r@[m1].cur == r@[m2].cur) by {
                        assert(r@[m1] == before[m1]);
                        if m2 < before.len() {
                            assert(r@[m2] == before[m2]);
                        } else {
                            let j = choose|j: int| 0 <= j < p && #[trigger] self.letters@.subrange(0, p as int)[j] == before[m1].cur;
                            assert(self.letters@[j] < self.letters@[p as int]);
                        }
                    }
                    assert forall|k: int|
                        0 <= k < wv.len() && self.eligible(#[trigger] wv[k]) && self.letters@.subrange(0, p + 1).contains(wv[k][0])
                            implies has_start(r@, wv[k][0]) by {
                        if self.letters@.subrange(0, p as int).contains(wv[k][0]) {
                            let m = choose|m: int| 0 <= m < before.len() && (#[trigger] before[m]).cur == wv[k][0];
                            assert(r@[m] == before[m]);
                        } else {
                            assert(r@[before.len() as int].cur == wv[k][0]);
                        }
                    }
                }
            } else {
                proof {
                    assert forall|m: int| 0 <= m < r@.len() implies self.letters@.subrange(0, p + 1).contains((#[trigger] r@[m]).cur) by {
                        let j = choose|j: int| 0 <= j < p && #[trigger] self.letters@.subrange(0, p as int)[j] == r@[m].cur;
                        assert(self.letters@.subrange(0, p + 1)[j] == r@[m].cur);
                    }
                    assert forall|k: int|
                        0 <= k < wv.len() && self.eligible(#[trigger] wv[k]) && self.letters@.subrange(0, p + 1).contains(wv[k][0])
                            implies has_start(r@, wv[k][0]) by {
                        if !self.letters@.subrange(0, p as int).contains(wv[k][0]) {
                            assert(in_row(g@[p as int]@, k));
                        }
                    }
                }
            }
            p += 1;
        }
        proof {
            self.lemma_letters();
            assert(self.letters@.subrange(0, g@.len() as int) == self.letters@);
            assert forall|k: int| 0 <= k < wc@.len() && self.eligible(#[trigger] wc@[k]@) implies has_start(r@, wc@[k]@[0]) by {
                assert(wv[k] == wc@[k]@);
                assert(self.on_board(wv[k][0]));
            }
        }
        r
    }

    /// The state that continues a chain already played.
    fn resume_state(&self, wc: &Vec<Vec<char>>, prior: &[usize]) -> (s: SearchState)
        requires
            self.wf(),
            prior@.len() > 0,
            forall|k: int| 0 <= k < prior@.len() ==> (#[trigger] prior@[k] as int) < wc@.len(),
            wc@[prior@.last() as int]@.len() > 0,
        ensures
            state_ok(self, wc@.map_values(|w: Vec<char>| w@), prior@, s, prior@.len() as int),
    {
        let ghost wv = wc@.map_values(|w: Vec<char>| w@);
        let mut visited: Vec<char> = Vec::new();
        let mut path: Vec<usize> = Vec::new();
        let mut j: usize = 0;
        while j < prior.len()
            invariant
                wv == wc@.map_values(|w: Vec<char>| w@),
                forall|k: int| 0 <= k < prior@.len() ==> (#[trigger] prior@[k] as int) < wc@.len(),
                j <= prior@.len(),
                path@ == prior@.subrange(0, j as int),
                strictly_sorted(visited@),
                forall|c: char| visited@.contains(c) <==> covered(path_words(wv, path@)).contains(c),
            decreases prior.len() - j,
        {
            let k = prior[j];
            visited = with_letters(&visited, &wc[k]);
            proof {
                lemma_covered_push(wv, path@, k);
            }
            path.push(k);
            assert(path@ == prior@.subrange(0, j + 1));
            j += 1;
        }
        let last = &wc[prior[prior.len() - 1]];
        let cur = last[last.len() - 1];
        let s = SearchState { cur, visited, path };
        proof {
            reveal(state_ok);
            assert(path@ == prior@);
            assert(path@.subrange(0, prior@.len() as int) == prior@);
        }
        s
    }

    /// The breadth-first search over word indices. States are taken one
    /// layer of chain length at a time, in the order they were reached; a
    /// state that covers the board is a solution, and the search stops once
    /// `max_results` of them are found. A state is expanded only while its
    /// chain is shorter than `max_depth`. With no solution at all, the state
    /// with the most letters (the shortest among equals, the first among
    /// those) is returned instead.
    fn search(&self, wc: &Vec<Vec<char>>, prior: &[usize], max_depth: usize, max_results: usize) -> (rs: Vec<(Vec<usize>, usize)>)
        requires
            self.wf(),
            forall|k: int| 0 <= k < prior@.len() ==> (#[trigger] prior@[k] as int) < wc@.len(),
            prior@.len() > 0 ==> wc@[prior@.last() as int]@.len() > 0,
        ensures
            found_ok(self, wc@.map_values(|w: Vec<char>| w@), prior@, max_depth, max_results, index_view(rs@)),
    {
        let ghost wv = wc@.map_values(|w: Vec<char>| w@);
        let g = self.build_graph(wc);
        let mut layer: Vec<SearchState>;
        let mut best_count: usize = 0;
        let mut best_path: Vec<usize> = Vec::new();
        if prior.len() == 0 {
            layer = self.start_states(wc, &g);
            proof {
                reveal(layer_complete);
                assert forall|k: int| 0 <= k < wv.len() && self.eligible(#[trigger] wv[k]) implies has_start(layer@, wv[k][0]) by {
                    assert(wv[k] == wc@[k]@);
                }
                reveal(best_ok);
                assert(prior@ =~= Seq::<usize>::empty());
                assert(best_path@.subrange(0, 0) =~= Seq::<usize>::empty());
            }
        } else {
            let s = self.resume_state(wc, prior);
            proof {
                lemma_state_facts(self, wv, prior@, s, prior@.len() as int);
                lemma_best_from_state(self, wv, prior@, max_depth, s, prior@.len() as int);
            }
            best_count = s.visited.len();
            best_path = copy_vec(&s.path);
            layer = Vec::new();
            let ghost empty = layer@;
            layer.push(s);
            proof {
                lemma_push_ok(self, wv, prior@, empty, layer@, s, prior@.len() as int);
                lemma_push_index(empty, layer@, s);
                lemma_state_cover(self, wv, prior@, s, prior@.len() as int);
                assert(s.path@ =~= prior@);
                reveal(layer_complete);
                assert forall|q: Seq<usize>|
                    #[trigger] path_ok(self, wv, prior@, q) && progressive(wv, prior@, q) && q.len() == prior@.len() && q.len() > 0
                        implies has_path(layer@, q) by {
                    assert(q.subrange(0, prior@.len() as int) =~= q);
                    assert(layer@[0].path@ == q);
                }
            }
        }
        let mut depth: usize = prior.len();
        let mut results: Vec<(Vec<usize>, usize)> = Vec::new();
        proof {
            reveal(results_ok);
            reveal(reach_floor);
            reveal(best_below);
        }
        let mut done = false;
        loop
            invariant_except_break
                !done,
                results@.len() == 0 || results@.len() < max_results,
                forall|r: int| 0 <= r < index_view(results@).len() ==> (#[trigger] index_view(results@)[r]).0.len() < depth,
            invariant
                self.wf(),
                wv == wc@.map_values(|w: Vec<char>| w@),
                graph_ok(self, wv, g@),
                depth == prior@.len() || depth <= max_depth,
                forall|i: int| 0 <= i < layer@.len() ==> state_ok(self, wv, prior@, #[trigger] layer@[i], depth as int),
                best_ok(self, wv, prior@, max_depth, best_path@, best_count),
                results_ok(self, wv, prior@, max_depth, index_view(results@), depth as int),
                results@.len() <= max_results || results@.len() <= 1,
                prior@.len() <= depth,
                results@.len() == 0 ==> reach_floor(self, wv, prior@, depth as int) && layer_complete(
                    self,
                    wv,
                    prior@,
                    max_depth,
                    layer@,
                    depth as int,
                ),
                results@.len() > 0 ==> first_shortest(self, wv, prior@, index_view(results@)),
                graph_complete(self, wv, g@),
                best_path@.len() <= depth,
                results@.len() == 0 ==> best_below(self, wv, prior@, best_path@, best_count, depth as int),
                results@.len() == 0 && prior@.len() == 0 && some_eligible(self, wv) && depth > 0 ==> best_count >= 1,
                graph_distinct(g@),
                key_distinct(layer@),
                paths_distinct(index_view(results@)),
            ensures
                paths_distinct(index_view(results@)),
                results@.len() == 0 && prior@.len() == 0 && some_eligible(self, wv) ==> best_count >= 1,
                best_ok(self, wv, prior@, max_depth, best_path@, best_count),
                results_ok(self, wv, prior@, max_depth, index_view(results@), depth as int),
                results@.len() <= max_results || results@.len() <= 1,
                results@.len() == 0 ==> forall|q: Seq<usize>|
                    #[trigger] covers(self, wv, prior@, q) ==> !(q.len() <= max_depth || q.len() == prior@.len()),
                results@.len() > 0 ==> first_shortest(self, wv, prior@, index_view(results@)),
                results@.len() == 0 ==> best_below(self, wv, prior@, best_path@, best_count, depth + 1),
                results@.len() == 0 ==> forall|q: Seq<usize>|
                    #[trigger] path_ok(self, wv, prior@, q) && progressive(wv, prior@, q) && q.len() > 0 && (q.len()
                        <= max_depth || q.len() == prior@.len()) ==> q.len() <= depth,
            decreases max_depth - depth,
        {
            let mut next: Vec<SearchState> = Vec::new();
            let mut i: usize = 0;
            proof {
                reveal(next_complete);
                reveal(none_full);
                reveal(best_over_layer);
            }
            while i < layer.len() && !done
                invariant
                    self.wf(),
                    wv == wc@.map_values(|w: Vec<char>| w@),
                    graph_ok(self, wv, g@),
                    depth == prior@.len() || depth <= max_depth,
                    i <= layer@.len(),
                    forall|i: int| 0 <= i < layer@.len() ==> state_ok(self, wv, prior@, #[trigger] layer@[i], depth as int),
                    forall|i: int| 0 <= i < next@.len() ==> state_ok(self, wv, prior@, #[trigger] next@[i], depth + 1),
                    next@.len() > 0 ==> depth < max_depth,
                    best_ok(self, wv, prior@, max_depth, best_path@, best_count),
                    results_ok(self, wv, prior@, max_depth, index_view(results@), depth as int),
                    !done ==> (results@.len() == 0 || results@.len() < max_results),
                    results@.len() <= max_results || results@.len() <= 1,
                    prior@.len() <= depth,
                    results@.len() == 0 ==> reach_floor(self, wv, prior@, depth as int) && layer_complete(
                        self,
                        wv,
                        prior@,
                        max_depth,
                        layer@,
                        depth as int,
                    ),
                    results@.len() == 0 ==> next_complete(self, wv, prior@, max_depth, layer@, i as int, next@, depth as int)
                        && none_full(self.letters@, layer@, i as int),
                    results@.len() > 0 ==> first_shortest(self, wv, prior@, index_view(results@)),
                    done ==> results@.len() > 0,
                    graph_complete(self, wv, g@),
                    best_path@.len() <= depth,
                    results@.len() == 0 ==> best_below(self, wv, prior@, best_path@, best_count, depth as int)
                        && best_over_layer(layer@, i as int, best_path@, best_count),
                    results@.len() == 0 && prior@.len() == 0 && some_eligible(self, wv) && (depth > 0 || i > 0) ==> best_count >= 1,
                    graph_distinct(g@),
                    key_distinct(layer@),
                    key_distinct(next@),
                    next_from(wv, next@, layer@, i as int, depth as int),
                    paths_distinct(index_view(results@)),
                    results_from(index_view(results@), layer@, i as int, depth as int),
                decreases layer.len() - i,
            {
                let state = &layer[i];
                proof {
                    lemma_state_facts(self, wv, prior@, *state, depth as int);
                }
                let ghost bp0 = best_path@;
                let ghost bc0 = best_count;
                if state.visited.len() > best_count || (state.visited.len() == best_count
                    && state.path.len() < best_path.len()) {
                    proof {
                        lemma_best_from_state(self, wv, prior@, max_depth, *state, depth as int);
                    }
                    best_count = state.visited.len();
                    best_path = copy_vec(&state.path);
                }
                proof {
                    if results@.len() == 0 {
                        lemma_best_visit(self, wv, prior@, layer@, i as int, bp0, bc0, best_path@, best_count, depth as int);
                    }
                }
                if same_chars(&state.visited, &self.letters) {
                    let ghost before = results@;
                    proof {
                        self.lemma_letters();
                    }
                    results.push((copy_vec(&state.path), self.letters.len()));
                    proof {
                        assert(index_view(results@) =~= index_view(before).push((state.path@, self.letters.len())));
                        lemma_result_push(self, wv, prior@, max_depth, index_view(before), index_view(results@), state.path@, self.letters.len(), depth as int);
                        if before.len() > 0 {
                            assert(index_view(results@)[0] == index_view(before)[0]);
                        } else {
                            assert(index_view(results@)[0].0 == state.path@);
                        }
                        lemma_first_result(self, wv, prior@, index_view(results@), index_view(before), depth as int);
                        lemma_result_distinct(self, wv, prior@, layer@, i as int, index_view(before), index_view(results@), self.letters.len(), depth as int);
                    }
                    if results.len() >= max_results {
                        done = true;
                    }
                    proof {
                        assert(next_from(wv, next@, layer@, i + 1, depth as int)) by {
                            lemma_widen(wv, next@, index_view(before), layer@, i as int, depth as int);
                        }
                    }
                } else {
                    let ghost next0 = next@;
                    proof {
                        lemma_widen(wv, next@, index_view(results@), layer@, i as int, depth as int);
                    }
                    proof {
                        if results@.len() == 0 {
                            reveal(none_full);
                        }
                    }
                    match self.letter_pos(state.cur) {
                        Some(p) => {
                            if depth < max_depth {
                                let ghost before = next@;
                                self.expand(wc, Ghost(prior@), state, depth, &g[p], &mut next);
                                proof {
                                    assert forall|e: int| 0 <= e < g@[p as int]@.len() implies (g@[p as int]@[e].1 as int) < wv.len()
                                        && wv[(#[trigger] g@[p as int]@[e]).1 as int][0] == layer@[i as int].cur by {
                                        let (bb, kk) = g@[p as int]@[e];
                                        assert((kk as int) < wv.len());
                                    }
                                    lemma_next_distinct(wv, layer@, i as int, before, next@, depth as int, g@[p as int]@);
                                    if results@.len() == 0 {
                                        assert forall|k: int|
                                            0 <= k < wv.len() && self.eligible(#[trigger] wv[k]) && wv[k][0] == layer@[i as int].cur
                                                implies in_row(g@[p as int]@, k) by {}
                                        assert forall|e: int|
                                            0 <= e < g@[p as int]@.len() && new_letter(wv[(#[trigger] g@[p as int]@[e]).1 as int], layer@[i as int].visited@)
                                                implies has_path(next@, layer@[i as int].path@.push(g@[p as int]@[e].1)) by {
                                            assert(wv[g@[p as int]@[e].1 as int] == wc@[g@[p as int]@[e].1 as int]@);
                                        }
                                        lemma_step_expand(self, wv, prior@, max_depth, layer@, i as int, before, next@, depth as int, g@[p as int]@);
                                    }
                                }
                            } else {
                                proof {
                                    if results@.len() == 0 {
                                        lemma_step_skip(self, wv, prior@, max_depth, layer@, i as int, next@, depth as int);
                                    }
                                }
                            }
                        },
                        None => {
                            proof {
                                if results@.len() == 0 {
                                    lemma_step_skip(self, wv, prior@, max_depth, layer@, i as int, next@, depth as int);
                                }
                            }
                        },
                    }
                }
                i += 1;
            }
            proof {
                if !done {
                    lemma_results_short(self, wv, prior@, index_view(results@), layer@, depth as int);
                }
                if results@.len() == 0 && prior@.len() == 0 && some_eligible(self, wv) && depth == 0 {
                    reveal(layer_complete);
                    let k = choose|k: int| 0 <= k < wv.len() && self.eligible(#[trigger] wv[k]);
                    assert(has_start(layer@, wv[k][0]));
                }
                if results@.len() == 0 {
                    lemma_layer_end(self, wv, prior@, max_depth, layer@, next@, depth as int);
                    lemma_best_layer_end(self, wv, prior@, max_depth, layer@, best_path@, best_count, depth as int);
                    if next@.len() == 0 {
                        lemma_no_longer(self, wv, prior@, max_depth, layer@, next@, depth as int);
                    }
                }
            }
            if done || next.len() == 0 {
                break;
            }
            layer = next;
            depth += 1;
            proof {
                lemma_results_deeper(self, wv, prior@, max_depth, index_view(results@), depth - 1);
            }
        }
        let ghost found = index_view(results@);
        let ghost bp = best_path@;
        if results.len() == 0 {
            results.push((best_path, best_count));
            assert(index_view(results@) =~= seq![(bp, best_count)]);
        }
        proof {
            lemma_found(self, wv, prior@, max_depth, max_results, found, depth as int, bp, best_count, index_view(results@));
        }
        results
    }

    /// Solves the board over `words`: chains of at most `max_depth` words
    /// (the already played `prior_words_indices` among them), shortest first,
    /// up to `max_results` of them. Each entry holds the chain's words and
    /// the number of distinct letters it covers. When no chain covers the
    /// board, a single best-effort entry is returned instead.
    pub fn solve<'word>(
        &self,
        words: &[&'word str],
        prior_words_indices: &[usize],
        max_depth: usize,
        max_results: usize,
    ) -> (res: Vec<(Vec<&'word str>, usize)>)
        requires
            self.wf(),
            forall|k: int|
                0 <= k < prior_words_indices@.len() ==> (#[trigger] prior_words_indices@[k] as int)
                    < words@.len(),
            prior_words_indices@.len() > 0 ==> words@[prior_words_indices@.last() as int]@.len() > 0,
        ensures
            solve_ok(self, words@, prior_words_indices@, max_depth, max_results, result_view(res@)),
    {
        let wc = word_chars(words);
        proof {
            assert(wc@.map_values(|w: Vec<char>| w@) =~= word_views(words@));
        }
        let rs = self.search(&wc, prior_words_indices, max_depth, max_results);
        let ghost found = index_view(rs@);
        proof {
            assert forall|i: int, k: int|
                0 <= i < rs@.len() && 0 <= k < rs@[i].0@.len() implies (#[trigger] rs@[i].0@[k] as int) < words@.len() by {
                assert(found[i].0 == rs@[i].0@);
                assert(path_ok(self, word_views(words@), prior_words_indices@, found[i].0));
            }
        }
        let res = to_words(words, &rs);
        proof {
            assert(solve_ok(self, words@, prior_words_indices@, max_depth, max_results, result_view(res@))) by {
                assert(found.len() == result_view(res@).len());
            }
        }
        res
    }
}

/// The chains of a result list, as sequences of words.
pub open spec fn result_view<'word>(res: Seq<(Vec<&'word str>, usize)>) -> Seq<(Seq<&'word str>, usize)> {
    res.map_values(|r: (Vec<&'word str>, usize)| (r.0@, r.1))
}

/// The words that a path of indices names.
pub open spec fn chain_of<'word>(ws: Seq<&'word str>, p: Seq<usize>) -> Seq<&'word str> {
    p.map_values(|k: usize| ws[k as int])
}

/// What `solve` returns: the words of paths that the search may hand back
/// (see `found_ok`), with their letter counts.
pub open spec fn solve_ok<'word>(
    board: &LetterBoxed,
    ws: Seq<&'word str>,
    prior: Seq<usize>,
    max_depth: usize,
    max_results: usize,
    out: Seq<(Seq<&'word str>, usize)>,
) -> bool {
    exists|rs: Seq<(Seq<usize>, usize)>|
        {
            &&& #[trigger] found_ok(board, word_views(ws), prior, max_depth, max_results, rs)
            &&& rs.len() == out.len()
            &&& forall|i: int| 0 <= i < rs.len() ==> #[trigger] out[i] == (chain_of(ws, rs[i].0), rs[i].1)
        }
}

/// The words that one path of indices names.
fn words_of<'word>(words: &[&'word str], p: &Vec<usize>) -> (chain: Vec<&'word str>)
    requires
        forall|k: int| 0 <= k < p@.len() ==> (#[trigger] p@[k] as int) < words@.len(),
    ensures
        chain@ == chain_of(words@, p@),
{
    let mut chain: Vec<&'word str> = Vec::new();
    let mut j: usize = 0;
    while j < p.len()
        invariant
            j <= p@.len(),
            forall|k: int| 0 <= k < p@.len() ==> (#[trigger] p@[k] as int) < words@.len(),
            chain@ == chain_of(words@, p@.subrange(0, j as int)),
        decreases p.len() - j,
    {
        chain.push(words[p[j]]);
        assert(chain@ =~= chain_of(words@, p@.subrange(0, j + 1)));
        j += 1;
    }
    assert(p@.subrange(0, p@.len() as int) == p@);
    chain
}

/// Turns paths of indices into the words they name.
fn to_words<'word>(words: &[&'word str], rs: &Vec<(Vec<usize>, usize)>) -> (res: Vec<(Vec<&'word str>, usize)>)
    requires
        forall|i: int, k: int|
            0 <= i < rs@.len() && 0 <= k < rs@[i].0@.len() ==> (#[trigger] rs@[i].0@[k] as int) < words@.len(),
    ensures
        res@.len() == rs@.len(),
        forall|i: int| 0 <= i < rs@.len() ==> #[trigger] result_view(res@)[i] == (chain_of(words@, rs@[i].0@), rs@[i].1),
{
    let mut res: Vec<(Vec<&'word str>, usize)> = Vec::new();
    let mut i: usize = 0;
    while i < rs.len()
        invariant
            i <= rs@.len(),
            res@.len() == i,
            forall|i: int, k: int|
                0 <= i < rs@.len() && 0 <= k < rs@[i].0@.len() ==> (#[trigger] rs@[i].0@[k] as int) < words@.len(),
            forall|j: int| 0 <= j < i ==> #[trigger] result_view(res@)[j] == (chain_of(words@, rs@[j].0@), rs@[j].1),
        decreases rs.len() - i,
    {
        let chain = words_of(words, &rs[i].0);
        let ghost before = res@;
        res.push((chain, rs[i].1));
        assert forall|j: int| 0 <= j < i + 1 implies #[trigger] result_view(res@)[j] == (chain_of(words@, rs@[j].0@), rs@[j].1) by {
            assert(result_view(res@)[j] == (res@[j].0@, res@[j].1));
            if j < i {
                assert(res@[j] == before[j]);
                assert(result_view(before)[j] == (before[j].0@, before[j].1));
            }
        }
        i += 1;
    }
    res
}

/// `w` uses a letter outside `s`.
pub open spec fn adds_letter(w: Seq<char>, s: Set<char>) -> bool {
    exists|i: int| 0 <= i < w.len() && !s.contains(#[trigger] w[i])
}

/// Each word after the prefix uses a letter that no word before it uses.
/// The search follows only such chains.
pub open spec fn progressive(wv: Seq<Seq<char>>, prior: Seq<usize>, p: Seq<usize>) -> bool {
    forall|k: int|
        prior.len() <= k < p.len() ==> adds_letter(wv[p[k] as int], covered(path_words(wv, #[trigger] p.subrange(0, k))))
}

/// A non-empty, legal, progressive chain extending `prior` that covers the
/// board exactly.
pub open spec fn covers(board: &LetterBoxed, wv: Seq<Seq<char>>, prior: Seq<usize>, q: Seq<usize>) -> bool {
    &&& path_ok(board, wv, prior, q)
    &&& progressive(wv, prior, q)
    &&& q.len() > 0
    &&& covered(path_words(wv, q)) == board.letter_set()
}

/// No covering chain is shorter than `depth`.
#[verifier::opaque]
spec fn reach_floor(board: &LetterBoxed, wv: Seq<Seq<char>>, prior: Seq<usize>, depth: int) -> bool {
    forall|q: Seq<usize>| #[trigger] covers(board, wv, prior, q) ==> q.len() >= depth
}

/// The layer holds every progressive chain of its length (within the
/// bound), and at the very start a state on every letter that begins an
/// eligible word.
#[verifier::opaque]
spec fn layer_complete(board: &LetterBoxed, wv: Seq<Seq<char>>, prior: Seq<usize>, max_depth: usize, layer: Seq<SearchState>, depth: int) -> bool {
    &&& forall|q: Seq<usize>|
        #[trigger] path_ok(board, wv, prior, q) && progressive(wv, prior, q) && q.len() == depth && q.len() > 0
            && (depth <= max_depth || depth == prior.len()) ==> has_path(layer, q)
    &&& depth == 0 ==> forall|k: int| 0 <= k < wv.len() && board.eligible(#[trigger] wv[k]) ==> has_start(layer, wv[k][0])
}

/// `s` is the state that `q`, one word longer, grows from.
spec fn parent_at(wv: Seq<Seq<char>>, s: SearchState, q: Seq<usize>, depth: int) -> bool {
    &&& q.len() == depth + 1
    &&& s.path@ == q.subrange(0, depth)
    &&& s.cur == wv[q[depth] as int][0]
}

/// Every progressive chain one word deeper (within the bound) that grows
/// from one of the first `i` states of the layer is in `next`.
#[verifier::opaque]
spec fn next_complete(board: &LetterBoxed, wv: Seq<Seq<char>>, prior: Seq<usize>, max_depth: usize, layer: Seq<SearchState>, i: int, next: Seq<SearchState>, depth: int) -> bool {
    forall|q: Seq<usize>, j: int|
        #![trigger parent_at(wv, layer[j], q, depth)]
        0 <= j < i && parent_at(wv, layer[j], q, depth) && path_ok(board, wv, prior, q) && progressive(wv, prior, q)
            && depth + 1 <= max_depth ==> has_path(next, q)
}

/// None of the first `i` states of the layer covers the board.
#[verifier::opaque]
spec fn none_full(letters: Seq<char>, layer: Seq<SearchState>, i: int) -> bool {
    forall|j: int| 0 <= j < i ==> (#[trigger] layer[j]).visited@ != letters
}

/// The first result is no longer than any covering chain.
#[verifier::opaque]
spec fn first_shortest(board: &LetterBoxed, wv: Seq<Seq<char>>, prior: Seq<usize>, rs: Seq<(Seq<usize>, usize)>) -> bool {
    rs.len() > 0 && forall|q: Seq<usize>| #[trigger] covers(board, wv, prior, q) ==> rs[0].0.len() <= q.len()
}

/// A prefix (no shorter than `prior`) of a legal progressive chain is one too.
proof fn lemma_prefix_ok(board: &LetterBoxed, wv: Seq<Seq<char>>, prior: Seq<usize>, q: Seq<usize>, n: int)
    requires
        path_ok(board, wv, prior, q),
        progressive(wv, prior, q),
        prior.len() <= n <= q.len(),
    ensures
        path_ok(board, wv, prior, q.subrange(0, n)),
        progressive(wv, prior, q.subrange(0, n)),
{
    let r = q.subrange(0, n);
    assert(r.subrange(0, prior.len() as int) == q.subrange(0, prior.len() as int));
    assert forall|k: int| 0 <= k < r.len() implies (#[trigger] r[k] as int) < wv.len() by {
        assert(r[k] == q[k]);
    }
    assert forall|k: int| prior.len() <= k < r.len() implies board.eligible(wv[#[trigger] r[k] as int]) by {
        assert(r[k] == q[k]);
    }
    assert forall|k: int|
        prior.len() <= k < r.len() && 1 <= k implies last_char(wv[r[k - 1] as int]) == first_char(
            wv[#[trigger] r[k] as int],
        ) by {
        assert(r[k] == q[k]);
        assert(r[k - 1] == q[k - 1]);
    }
    assert forall|k: int|
        prior.len() <= k < r.len() implies adds_letter(wv[r[k] as int], covered(path_words(wv, #[trigger] r.subrange(0, k)))) by {
        assert(r.subrange(0, k) == q.subrange(0, k));
        assert(r[k] == q[k]);
    }
}

/// Two ascending sequences with the same members are equal.
proof fn lemma_sorted_eq(a: Seq<char>, b: Seq<char>)
    requires
        strictly_sorted(a),
        strictly_sorted(b),
        forall|c: char| a.contains(c) <==> b.contains(c),
    ensures
        a == b,
    decreases a.len(),
{
    if a.len() == 0 {
        if b.len() > 0 {
            assert(b.contains(b[0]));
        }
        assert(a =~= b);
    } else {
        assert(a.contains(a[0]));
        assert(b.len() > 0);
        assert(b.contains(b[0]));
        let ia = choose|i: int| 0 <= i < a.len() && a[i] == b[0];
        let ib = choose|i: int| 0 <= i < b.len() && b[i] == a[0];
        if ia > 0 {
            assert(a[0] < a[ia]);
        }
        if ib > 0 {
            assert(b[0] < b[ib]);
        }
        assert(a[0] == b[0]);
        let a1 = a.drop_first();
        let b1 = b.drop_first();
        assert forall|c: char| a1.contains(c) <==> b1.contains(c) by {
            if a1.contains(c) {
                let i = choose|i: int| 0 <= i < a1.len() && a1[i] == c;
                assert(a[i + 1] == c);
                assert(a[0] < a[i + 1]);
                assert(b.contains(c));
                let j = choose|j: int| 0 <= j < b.len() && b[j] == c;
                assert(j != 0);
                assert(b1[j - 1] == c);
            }
            if b1.contains(c) {
                let i = choose|i: int| 0 <= i < b1.len() && b1[i] == c;
                assert(b[i + 1] == c);
                assert(b[0] < b[i + 1]);
                assert(a.contains(c));
                let j = choose|j: int| 0 <= j < a.len() && a[j] == c;
                assert(j != 0);
                assert(a1[j - 1] == c);
            }
        }
        lemma_sorted_eq(a1, b1);
        assert(a =~= seq![a[0]] + a1);
        assert(b =~= seq![b[0]] + b1);
    }
}

/// What a state says of its letters and of where it stands.
proof fn lemma_state_cover(board: &LetterBoxed, wv: Seq<Seq<char>>, prior: Seq<usize>, s: SearchState, depth: int)
    requires
        state_ok(board, wv, prior, s, depth),
    ensures
        strictly_sorted(s.visited@),
        path_ok(board, wv, prior, s.path@),
        s.path@.len() == depth,
        s.path@.len() > 0 ==> forall|c: char| s.visited@.contains(c) <==> covered(path_words(wv, s.path@)).contains(c),
        s.path@.len() > 0 ==> last_char(wv[s.path@.last() as int]) == Some(s.cur),
        s.path@.len() == 0 ==> forall|c: char| s.visited@.contains(c) <==> c == s.cur,
{
    reveal(state_ok);
}

/// An eligible word never repeats its first letter next: the two stand on
/// one side.
proof fn lemma_second_letter(board: &LetterBoxed, w: Seq<char>)
    requires
        board.eligible(w),
    ensures
        w[1] != w[0],
{
    assert(board.on_board(w[0]));
    if w[1] == w[0] {
        let i = choose|i: int| 0 <= i < board.sides_view().len() && #[trigger] board.sides_view()[i].contains(w[0]);
        assert(board.forbidden(w[0], w[0]));
        let z: int = 0;
        assert(!board.forbidden(w[z], w[z + 1]));
    }
}

/// Expanding the `i`-th state of the layer puts into `next` every chain that
/// grows from it.
proof fn lemma_step_expand(
    board: &LetterBoxed,
    wv: Seq<Seq<char>>,
    prior: Seq<usize>,
    max_depth: usize,
    layer: Seq<SearchState>,
    i: int,
    before: Seq<SearchState>,
    after: Seq<SearchState>,
    depth: int,
    edges: Seq<(char, usize)>,
)
    requires
        0 <= i < layer.len(),
        state_ok(board, wv, prior, layer[i], depth),
        next_complete(board, wv, prior, max_depth, layer, i, before, depth),
        after.len() >= before.len(),
        forall|m: int| 0 <= m < before.len() ==> after[m] == before[m],
        forall|e: int|
            0 <= e < edges.len() && new_letter(wv[(#[trigger] edges[e]).1 as int], layer[i].visited@)
                ==> has_path(after, layer[i].path@.push(edges[e].1)),
        forall|k: int| 0 <= k < wv.len() && board.eligible(#[trigger] wv[k]) && wv[k][0] == layer[i].cur ==> in_row(edges, k),
    ensures
        next_complete(board, wv, prior, max_depth, layer, i + 1, after, depth),
{
    reveal(next_complete);
    let s = layer[i];
    lemma_state_cover(board, wv, prior, s, depth);
    assert forall|q: Seq<usize>, j: int|
        #![trigger parent_at(wv, layer[j], q, depth)]
        0 <= j < i + 1 && parent_at(wv, layer[j], q, depth) && path_ok(board, wv, prior, q) && progressive(wv, prior, q)
            && depth + 1 <= max_depth implies has_path(after, q) by {
        if j < i {
            assert(has_path(before, q));
            let m = choose|m: int| 0 <= m < before.len() && (#[trigger] before[m]).path@ == q;
            assert(after[m] == before[m]);
        } else {
            let k = q[depth];
            let w = wv[k as int];
            assert(board.eligible(w));
            assert(in_row(edges, k as int));
            let e = choose|e: int| 0 <= e < edges.len() && (#[trigger] edges[e]).1 == k;
            assert(q.subrange(0, depth) == s.path@);
            assert(adds_letter(w, covered(path_words(wv, q.subrange(0, depth)))));
            let t = choose|t: int| 0 <= t < w.len() && !covered(path_words(wv, q.subrange(0, depth))).contains(#[trigger] w[t]);
            if s.path@.len() > 0 {
                assert(!s.visited@.contains(w[t]));
            } else {
                lemma_second_letter(board, w);
                assert(!s.visited@.contains(w[1]));
            }
            assert(new_letter(wv[edges[e].1 as int], s.visited@));
            assert(s.path@.push(k) =~= q);
        }
    }
}

/// A state that is not expanded (too deep, or on a letter off the board)
/// has no chain growing from it that the bound admits.
proof fn lemma_step_skip(
    board: &LetterBoxed,
    wv: Seq<Seq<char>>,
    prior: Seq<usize>,
    max_depth: usize,
    layer: Seq<SearchState>,
    i: int,
    next: Seq<SearchState>,
    depth: int,
)
    requires
        0 <= i < layer.len(),
        state_ok(board, wv, prior, layer[i], depth),
        next_complete(board, wv, prior, max_depth, layer, i, next, depth),
        depth + 1 > max_depth || !board.on_board(layer[i].cur),
    ensures
        next_complete(board, wv, prior, max_depth, layer, i + 1, next, depth),
{
    reveal(next_complete);
    lemma_state_cover(board, wv, prior, layer[i], depth);
    assert forall|q: Seq<usize>, j: int|
        #![trigger parent_at(wv, layer[j], q, depth)]
        0 <= j < i + 1 && parent_at(wv, layer[j], q, depth) && path_ok(board, wv, prior, q) && progressive(wv, prior, q)
            && depth + 1 <= max_depth implies has_path(next, q) by {
        if j == i {
            let w = wv[q[depth] as int];
            assert(board.eligible(w));
            assert(board.on_board(w[0]));
        }
    }
}

/// The first full solution, found at the current depth, is a shortest one.
proof fn lemma_first_result(
    board: &LetterBoxed,
    wv: Seq<Seq<char>>,
    prior: Seq<usize>,
    rs: Seq<(Seq<usize>, usize)>,
    before: Seq<(Seq<usize>, usize)>,
    depth: int,
)
    requires
        before.len() == 0 ==> reach_floor(board, wv, prior, depth),
        before.len() == 0 ==> rs.len() > 0 && rs[0].0.len() == depth,
        before.len() > 0 ==> first_shortest(board, wv, prior, before) && rs.len() > 0 && rs[0] == before[0],
    ensures
        first_shortest(board, wv, prior, rs),
{
    reveal(first_shortest);
    reveal(reach_floor);
}

/// Once a layer with no solution is finished, every progressive chain one
/// word deeper (within the bound) is queued in the next layer.
proof fn lemma_in_next(
    board: &LetterBoxed,
    wv: Seq<Seq<char>>,
    prior: Seq<usize>,
    max_depth: usize,
    layer: Seq<SearchState>,
    next: Seq<SearchState>,
    depth: int,
    q: Seq<usize>,
)
    requires
        forall|j: int| 0 <= j < layer.len() ==> state_ok(board, wv, prior, #[trigger] layer[j], depth),
        layer_complete(board, wv, prior, max_depth, layer, depth),
        next_complete(board, wv, prior, max_depth, layer, layer.len() as int, next, depth),
        prior.len() <= depth,
        depth <= max_depth || depth == prior.len(),
        path_ok(board, wv, prior, q),
        progressive(wv, prior, q),
        q.len() == depth + 1,
        depth + 1 <= max_depth,
    ensures
        has_path(next, q),
{
    reveal(layer_complete);
    reveal(next_complete);
    let k = q[depth];
    assert(board.eligible(wv[k as int]));
    if depth == 0 {
        assert(has_start(layer, wv[k as int][0]));
        let j = choose|j: int| 0 <= j < layer.len() && (#[trigger] layer[j]).cur == wv[k as int][0];
        lemma_state_cover(board, wv, prior, layer[j], depth);
        assert(layer[j].path@ =~= q.subrange(0, depth));
        assert(parent_at(wv, layer[j], q, depth));
    } else {
        let q1 = q.subrange(0, depth);
        lemma_prefix_ok(board, wv, prior, q, depth);
        assert(has_path(layer, q1));
        let j = choose|j: int| 0 <= j < layer.len() && (#[trigger] layer[j]).path@ == q1;
        lemma_state_cover(board, wv, prior, layer[j], depth);
        assert(q1.last() == q[depth - 1]);
        assert(last_char(wv[q[depth - 1] as int]) == first_char(wv[q[depth] as int]));
        assert(parent_at(wv, layer[j], q, depth));
    }
}

/// A finished layer with no solution raises the floor of covering chains,
/// makes the next layer complete, and, if the next layer is empty, shows
/// that no covering chain fits the bound.
proof fn lemma_layer_end(
    board: &LetterBoxed,
    wv: Seq<Seq<char>>,
    prior: Seq<usize>,
    max_depth: usize,
    layer: Seq<SearchState>,
    next: Seq<SearchState>,
    depth: int,
)
    requires
        board.wf(),
        forall|j: int| 0 <= j < layer.len() ==> state_ok(board, wv, prior, #[trigger] layer[j], depth),
        reach_floor(board, wv, prior, depth),
        layer_complete(board, wv, prior, max_depth, layer, depth),
        none_full(board.letters@, layer, layer.len() as int),
        next_complete(board, wv, prior, max_depth, layer, layer.len() as int, next, depth),
        prior.len() <= depth,
        depth <= max_depth || depth == prior.len(),
    ensures
        reach_floor(board, wv, prior, depth + 1),
        depth + 1 <= max_depth ==> layer_complete(board, wv, prior, max_depth, next, depth + 1),
        next.len() == 0 ==> forall|q: Seq<usize>|
            #[trigger] covers(board, wv, prior, q) ==> !(q.len() <= max_depth || q.len() == prior.len()),
{
    board.lemma_letters();
    assert(reach_floor(board, wv, prior, depth + 1)) by {
        reveal(reach_floor);
        assert forall|q: Seq<usize>| #[trigger] covers(board, wv, prior, q) implies q.len() >= depth + 1 by {
            if q.len() == depth {
                reveal(layer_complete);
                assert(has_path(layer, q));
                let j = choose|j: int| 0 <= j < layer.len() && (#[trigger] layer[j]).path@ == q;
                let s = layer[j];
                lemma_state_cover(board, wv, prior, s, depth);
                assert forall|c: char| s.visited@.contains(c) <==> board.letters@.contains(c) by {
                    assert(covered(path_words(wv, q)).contains(c) <==> board.letter_set().contains(c));
                }
                lemma_sorted_eq(s.visited@, board.letters@);
                reveal(none_full);
                assert(layer[j].visited@ != board.letters@);
            }
        }
    }
    if depth + 1 <= max_depth {
        reveal(layer_complete);
        assert forall|q: Seq<usize>|
            #[trigger] path_ok(board, wv, prior, q) && progressive(wv, prior, q) && q.len() == depth + 1 && q.len() > 0
                && (depth + 1 <= max_depth || depth + 1 == prior.len()) implies has_path(next, q) by {
            lemma_in_next(board, wv, prior, max_depth, layer, next, depth, q);
        }
    }
    if next.len() == 0 {
        assert forall|q: Seq<usize>| #[trigger] covers(board, wv, prior, q) implies !(q.len() <= max_depth || q.len() == prior.len()) by {
            reveal(reach_floor);
            if q.len() <= max_depth || q.len() == prior.len() {
                assert(q.len() >= depth + 1);
                let q2 = q.subrange(0, depth + 1);
                lemma_prefix_ok(board, wv, prior, q, depth + 1);
                lemma_in_next(board, wv, prior, max_depth, layer, next, depth, q2);
            }
        }
    }
}

/// The record `(bp, bc)` is at least as good as chain `q`: it covers as
/// many letters, and if no more, it is no longer.
pub open spec fn dominated(wv: Seq<Seq<char>>, bp: Seq<usize>, bc: usize, q: Seq<usize>) -> bool {
    &&& bc >= covered(path_words(wv, q)).len()
    &&& bc == covered(path_words(wv, q)).len() ==> bp.len() <= q.len()
}

/// The record beats every non-empty progressive chain shorter than `depth`.
#[verifier::opaque]
spec fn best_below(board: &LetterBoxed, wv: Seq<Seq<char>>, prior: Seq<usize>, bp: Seq<usize>, bc: usize, depth: int) -> bool {
    forall|q: Seq<usize>|
        #[trigger] path_ok(board, wv, prior, q) && progressive(wv, prior, q) && 0 < q.len() < depth ==> dominated(wv, bp, bc, q)
}

/// The record beats the first `i` states of the layer that hold a word.
#[verifier::opaque]
spec fn best_over_layer(layer: Seq<SearchState>, i: int, bp: Seq<usize>, bc: usize) -> bool {
    forall|j: int|
        0 <= j < i && (#[trigger] layer[j]).path@.len() > 0 ==> bc >= layer[j].visited@.len() && (bc == layer[j].visited@.len()
            ==> bp.len() <= layer[j].path@.len())
}

/// Taking the `i`-th state into account, the record (updated or not) still
/// beats everything it beat, and that state too.
proof fn lemma_best_visit(
    board: &LetterBoxed,
    wv: Seq<Seq<char>>,
    prior: Seq<usize>,
    layer: Seq<SearchState>,
    i: int,
    bp: Seq<usize>,
    bc: usize,
    nbp: Seq<usize>,
    nbc: usize,
    depth: int,
)
    requires
        0 <= i < layer.len(),
        best_below(board, wv, prior, bp, bc, depth),
        best_over_layer(layer, i, bp, bc),
        layer[i].path@.len() == depth,
        bp.len() <= depth,
        (nbp == bp && nbc == bc && (layer[i].visited@.len() < bc || (layer[i].visited@.len() == bc && layer[i].path@.len() >= bp.len())))
            || (nbp == layer[i].path@ && nbc == layer[i].visited@.len() && (nbc > bc || (nbc == bc && nbp.len() < bp.len()))),
    ensures
        best_below(board, wv, prior, nbp, nbc, depth),
        best_over_layer(layer, i + 1, nbp, nbc),
        nbp.len() <= depth,
{
    reveal(best_below);
    reveal(best_over_layer);
    assert forall|q: Seq<usize>|
        #[trigger] path_ok(board, wv, prior, q) && progressive(wv, prior, q) && 0 < q.len() < depth implies dominated(wv, nbp, nbc, q) by {
        assert(dominated(wv, bp, bc, q));
    }
}

/// At the end of a layer with no solution the record beats every
/// progressive chain up to the layer's depth.
proof fn lemma_best_layer_end(
    board: &LetterBoxed,
    wv: Seq<Seq<char>>,
    prior: Seq<usize>,
    max_depth: usize,
    layer: Seq<SearchState>,
    bp: Seq<usize>,
    bc: usize,
    depth: int,
)
    requires
        board.wf(),
        forall|j: int| 0 <= j < layer.len() ==> state_ok(board, wv, prior, #[trigger] layer[j], depth),
        layer_complete(board, wv, prior, max_depth, layer, depth),
        best_below(board, wv, prior, bp, bc, depth),
        best_over_layer(layer, layer.len() as int, bp, bc),
        depth <= max_depth || depth == prior.len(),
    ensures
        best_below(board, wv, prior, bp, bc, depth + 1),
{
    reveal(best_below);
    assert forall|q: Seq<usize>|
        #[trigger] path_ok(board, wv, prior, q) && progressive(wv, prior, q) && 0 < q.len() < depth + 1 implies dominated(wv, bp, bc, q) by {
        if q.len() == depth {
            reveal(layer_complete);
            assert(has_path(layer, q));
            let j = choose|j: int| 0 <= j < layer.len() && (#[trigger] layer[j]).path@ == q;
            lemma_state_facts(board, wv, prior, layer[j], depth);
            reveal(best_over_layer);
            assert(layer[j].path@.len() > 0);
        }
    }
}

/// A finished search whose last layer had no successors leaves no
/// progressive chain in the bound longer than its depth.
proof fn lemma_no_longer(
    board: &LetterBoxed,
    wv: Seq<Seq<char>>,
    prior: Seq<usize>,
    max_depth: usize,
    layer: Seq<SearchState>,
    next: Seq<SearchState>,
    depth: int,
)
    requires
        forall|j: int| 0 <= j < layer.len() ==> state_ok(board, wv, prior, #[trigger] layer[j], depth),
        layer_complete(board, wv, prior, max_depth, layer, depth),
        next_complete(board, wv, prior, max_depth, layer, layer.len() as int, next, depth),
        prior.len() <= depth,
        depth <= max_depth || depth == prior.len(),
        next.len() == 0,
    ensures
        forall|q: Seq<usize>|
            #[trigger] path_ok(board, wv, prior, q) && progressive(wv, prior, q) && q.len() > 0 && (q.len()
                <= max_depth || q.len() == prior.len()) ==> q.len() <= depth,
{
    assert forall|q: Seq<usize>|
        #[trigger] path_ok(board, wv, prior, q) && progressive(wv, prior, q) && q.len() > 0 && (q.len()
            <= max_depth || q.len() == prior.len()) implies q.len() <= depth by {
        if q.len() > depth {
            lemma_prefix_ok(board, wv, prior, q, depth + 1);
            lemma_in_next(board, wv, prior, max_depth, layer, next, depth, q.subrange(0, depth + 1));
        }
    }
}

/// No two states share both their path and their letter.
spec fn key_distinct(states: Seq<SearchState>) -> bool {
    forall|m1: int, m2: int|
        0 <= m1 < m2 < states.len() ==> !((#[trigger] states[m1]).path@ == (#[trigger] states[m2]).path@ && states[m1].cur
            == states[m2].cur)
}

/// `x` is one word deeper than `p` and starts that word where `p` stands.
spec fn grown_from(wv: Seq<Seq<char>>, x: SearchState, p: SearchState, depth: int) -> bool {
    &&& x.path@.len() == depth + 1
    &&& x.path@.subrange(0, depth) == p.path@
    &&& wv[x.path@[depth] as int][0] == p.cur
}

/// `x` grows from one of the first `i` states of the layer.
spec fn has_parent(wv: Seq<Seq<char>>, x: SearchState, layer: Seq<SearchState>, i: int, depth: int) -> bool {
    exists|j: int| 0 <= j < i && #[trigger] grown_from(wv, x, layer[j], depth)
}

/// Every state of `next` grows from one of the first `i` states of the layer.
spec fn next_from(wv: Seq<Seq<char>>, next: Seq<SearchState>, layer: Seq<SearchState>, i: int, depth: int) -> bool {
    forall|m: int| 0 <= m < next.len() ==> #[trigger] has_parent(wv, next[m], layer, i, depth)
}

/// No path occurs twice in a result list.
pub open spec fn paths_distinct(rs: Seq<(Seq<usize>, usize)>) -> bool {
    forall|i: int, j: int| 0 <= i < j < rs.len() ==> (#[trigger] rs[i]).0 != (#[trigger] rs[j]).0
}

/// The result is the path of one of the first `i` states of the layer.
spec fn from_layer(r: Seq<usize>, layer: Seq<SearchState>, i: int) -> bool {
    exists|j: int| 0 <= j < i && (#[trigger] layer[j]).path@ == r
}

/// Each result is shorter than `depth` or is the path of one of the first
/// `i` states of the layer.
spec fn results_from(rs: Seq<(Seq<usize>, usize)>, layer: Seq<SearchState>, i: int, depth: int) -> bool {
    forall|r: int| 0 <= r < rs.len() ==> (#[trigger] rs[r]).0.len() < depth || from_layer(rs[r].0, layer, i)
}

/// Moving past the `i`-th state keeps what held of the first `i`.
proof fn lemma_widen(wv: Seq<Seq<char>>, next: Seq<SearchState>, rs: Seq<(Seq<usize>, usize)>, layer: Seq<SearchState>, i: int, depth: int)
    requires
        next_from(wv, next, layer, i, depth),
        results_from(rs, layer, i, depth),
    ensures
        next_from(wv, next, layer, i + 1, depth),
        results_from(rs, layer, i + 1, depth),
{
    assert forall|m: int| 0 <= m < next.len() implies #[trigger] has_parent(wv, next[m], layer, i + 1, depth) by {
        assert(has_parent(wv, next[m], layer, i, depth));
        let j = choose|j: int| 0 <= j < i && #[trigger] grown_from(wv, next[m], layer[j], depth);
        assert(grown_from(wv, next[m], layer[j], depth));
    }
    assert forall|r: int| 0 <= r < rs.len() implies (#[trigger] rs[r]).0.len() < depth || from_layer(rs[r].0, layer, i + 1) by {
        if rs[r].0.len() >= depth {
            assert(from_layer(rs[r].0, layer, i));
            let j = choose|j: int| 0 <= j < i && (#[trigger] layer[j]).path@ == rs[r].0;
            assert(layer[j].path@ == rs[r].0);
        }
    }
}

/// Results drawn from a layer at `depth` are no longer than it.
proof fn lemma_results_short(board: &LetterBoxed, wv: Seq<Seq<char>>, prior: Seq<usize>, rs: Seq<(Seq<usize>, usize)>, layer: Seq<SearchState>, depth: int)
    requires
        forall|j: int| 0 <= j < layer.len() ==> state_ok(board, wv, prior, #[trigger] layer[j], depth),
        results_from(rs, layer, layer.len() as int, depth),
    ensures
        forall|r: int| 0 <= r < rs.len() ==> (#[trigger] rs[r]).0.len() < depth + 1,
{
    assert forall|r: int| 0 <= r < rs.len() implies (#[trigger] rs[r]).0.len() < depth + 1 by {
        if rs[r].0.len() >= depth {
            assert(from_layer(rs[r].0, layer, layer.len() as int));
            let j = choose|j: int| 0 <= j < layer.len() && (#[trigger] layer[j]).path@ == rs[r].0;
            lemma_state_cover(board, wv, prior, layer[j], depth);
        }
    }
}

/// Expanding the `i`-th state keeps the next layer free of repeats, each of
/// its states growing from an earlier state of the layer.
proof fn lemma_next_distinct(
    wv: Seq<Seq<char>>,
    layer: Seq<SearchState>,
    i: int,
    before: Seq<SearchState>,
    after: Seq<SearchState>,
    depth: int,
    edges: Seq<(char, usize)>,
)
    requires
        0 <= i < layer.len(),
        key_distinct(layer),
        layer[i].path@.len() == depth,
        key_distinct(before),
        next_from(wv, before, layer, i, depth),
        after.len() >= before.len(),
        forall|m: int| 0 <= m < before.len() ==> after[m] == before[m],
        forall|m: int| before.len() <= m < after.len() ==> from_edges(#[trigger] after[m], layer[i], edges, edges.len() as int),
        forall|m1: int, m2: int| before.len() <= m1 < m2 < after.len() ==> (#[trigger] after[m1]).path@ != (#[trigger] after[m2]).path@,
        forall|e: int| 0 <= e < edges.len() ==> (edges[e].1 as int) < wv.len() && wv[(#[trigger] edges[e]).1 as int][0] == layer[i].cur,
    ensures
        key_distinct(after),
        next_from(wv, after, layer, i + 1, depth),
{
    let s = layer[i];
    assert forall|m: int| before.len() <= m < after.len() implies grown_from(wv, after[m], s, depth) by {
        assert(from_edges(after[m], s, edges, edges.len() as int));
        let e = choose|e: int| 0 <= e < edges.len() && after[m].path@ == s.path@.push((#[trigger] edges[e]).1);
        assert(after[m].path@.subrange(0, depth) =~= s.path@);
        assert(after[m].path@[depth] == edges[e].1);
    }
    assert forall|m: int| 0 <= m < after.len() implies #[trigger] has_parent(wv, after[m], layer, i + 1, depth) by {
        if m < before.len() {
            assert(after[m] == before[m]);
            assert(has_parent(wv, before[m], layer, i, depth));
            let j = choose|j: int| 0 <= j < i && #[trigger] grown_from(wv, before[m], layer[j], depth);
            assert(grown_from(wv, after[m], layer[j], depth));
        } else {
            assert(grown_from(wv, after[m], layer[i], depth));
        }
    }
    assert forall|m1: int, m2: int| 0 <= m1 < m2 < after.len() implies !((#[trigger] after[m1]).path@ == (#[trigger] after[m2]).path@
        && after[m1].cur == after[m2].cur) by {
        if m2 < before.len() {
            assert(after[m1] == before[m1]);
            assert(after[m2] == before[m2]);
        } else if m1 < before.len() {
            assert(after[m1] == before[m1]);
            assert(has_parent(wv, before[m1], layer, i, depth));
            let j = choose|j: int| 0 <= j < i && #[trigger] grown_from(wv, before[m1], layer[j], depth);
            assert(grown_from(wv, after[m2], s, depth));
            if after[m1].path@ == after[m2].path@ {
                assert(layer[j].path@ == s.path@);
                assert(layer[j].cur == s.cur);
            }
        }
    }
}

/// A new solution from the `i`-th state repeats no earlier one.
proof fn lemma_result_distinct(
    board: &LetterBoxed,
    wv: Seq<Seq<char>>,
    prior: Seq<usize>,
    layer: Seq<SearchState>,
    i: int,
    before: Seq<(Seq<usize>, usize)>,
    after: Seq<(Seq<usize>, usize)>,
    count: usize,
    depth: int,
)
    requires
        0 <= i < layer.len(),
        key_distinct(layer),
        forall|j: int| 0 <= j < layer.len() ==> state_ok(board, wv, prior, #[trigger] layer[j], depth),
        layer[i].path@.len() > 0,
        paths_distinct(before),
        results_from(before, layer, i, depth),
        after == before.push((layer[i].path@, count)),
    ensures
        paths_distinct(after),
        results_from(after, layer, i + 1, depth),
{
    lemma_push_index(before, after, (layer[i].path@, count));
    lemma_state_cover(board, wv, prior, layer[i], depth);
    assert forall|a: int, b: int| 0 <= a < b < after.len() implies (#[trigger] after[a]).0 != (#[trigger] after[b]).0 by {
        assert(after[a] == before[a]);
        if b < before.len() {
            assert(after[b] == before[b]);
        } else if before[a].0.len() >= depth {
            assert(from_layer(before[a].0, layer, i));
            let j = choose|j: int| 0 <= j < i && (#[trigger] layer[j]).path@ == before[a].0;
            lemma_state_cover(board, wv, prior, layer[j], depth);
            if before[a].0 == layer[i].path@ {
                assert(layer[j].cur == layer[i].cur);
            }
        }
    }
    assert forall|r: int| 0 <= r < after.len() implies (#[trigger] after[r]).0.len() < depth || from_layer(after[r].0, layer, i + 1) by {
        if r < before.len() {
            assert(after[r] == before[r]);
            if before[r].0.len() >= depth {
                assert(from_layer(before[r].0, layer, i));
                let j = choose|j: int| 0 <= j < i && (#[trigger] layer[j]).path@ == before[r].0;
                assert(layer[j].path@ == after[r].0);
            }
        } else {
            assert(layer[i].path@ == after[r].0);
        }
    }
}

} // verus!
