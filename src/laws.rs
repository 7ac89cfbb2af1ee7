//! What holds of every answer of `solve`, stated over its contract.
use vstd::prelude::*;
use crate::board::{LetterBoxed, chained};
use crate::search::{chain_of, covered, covers, dominated, found_ok, full, path_ok, path_words, progressive, solve_ok, word_views};

verus! {

/// The words of a path, seen through the word list's characters.
proof fn lemma_views_of_chain(ws: Seq<&str>, p: Seq<usize>)
    requires
        forall|k: int| 0 <= k < p.len() ==> (#[trigger] p[k] as int) < ws.len(),
    ensures
        word_views(chain_of(ws, p)) == path_words(word_views(ws), p),
{
    assert(word_views(chain_of(ws, p)) =~= path_words(word_views(ws), p));
}

/// A legal extension of a legal prefix is a legal chain.
proof fn lemma_path_legal(board: &LetterBoxed, wv: Seq<Seq<char>>, prior: Seq<usize>, p: Seq<usize>)
    requires
        path_ok(board, wv, prior, p),
        forall|k: int| 0 <= k < prior.len() ==> (#[trigger] prior[k] as int) < wv.len(),
        board.valid_chain(path_words(wv, prior)),
    ensures
        board.valid_chain(path_words(wv, p)),
{
    let c = path_words(wv, p);
    let cp = path_words(wv, prior);
    assert forall|k: int| 0 <= k < prior.len() implies p[k] == prior[k] by {
        assert(p.subrange(0, prior.len() as int)[k] == p[k]);
    }
    assert forall|k: int| 0 <= k < c.len() implies #[trigger] board.word_ok(c[k]) by {
        if k < prior.len() {
            assert(c[k] == cp[k]);
        } else {
            assert(board.eligible(wv[p[k] as int]));
        }
    }
    assert(chained(c)) by {
        assert forall|k: int| 0 <= k < c.len() - 1 implies crate::board::last_char(#[trigger] c[k])
            == crate::board::first_char(c[k + 1]) by {
            if k + 1 < prior.len() {
                assert(c[k] == cp[k]);
                assert(c[k + 1] == cp[k + 1]);
            } else {
                assert(prior.len() <= k + 1 < p.len() && 1 <= k + 1);
                assert(crate::board::last_char(wv[p[k + 1 - 1] as int]) == crate::board::first_char(
                    wv[p[k + 1] as int],
                ));
            }
        }
    }
}

/// Every chain that `solve` returns is legal on the board (each word
/// starts with the last letter of the one before it, and no word steps
/// between two letters of one side), provided the already played words
/// form a legal chain themselves.
pub proof fn lemma_results_are_legal(
    board: &LetterBoxed,
    ws: Seq<&str>,
    prior: Seq<usize>,
    max_depth: usize,
    max_results: usize,
    out: Seq<(Seq<&str>, usize)>,
)
    requires
        solve_ok(board, ws, prior, max_depth, max_results, out),
        forall|k: int| 0 <= k < prior.len() ==> (#[trigger] prior[k] as int) < ws.len(),
        board.valid_chain(word_views(chain_of(ws, prior))),
    ensures
        forall|i: int| 0 <= i < out.len() ==> board.valid_chain(word_views(#[trigger] out[i].0)),
{
    let rs = choose|rs: Seq<(Seq<usize>, usize)>|
        {
            &&& #[trigger] found_ok(board, word_views(ws), prior, max_depth, max_results, rs)
            &&& rs.len() == out.len()
            &&& forall|i: int| 0 <= i < rs.len() ==> #[trigger] out[i] == (chain_of(ws, rs[i].0), rs[i].1)
        };
    lemma_views_of_chain(ws, prior);
    assert forall|i: int| 0 <= i < out.len() implies board.valid_chain(word_views(#[trigger] out[i].0)) by {
        assert(out[i] == (chain_of(ws, rs[i].0), rs[i].1));
        assert(path_ok(board, word_views(ws), prior, rs[i].0));
        lemma_views_of_chain(ws, rs[i].0);
        lemma_path_legal(board, word_views(ws), prior, rs[i].0);
    }
}

/// A returned entry whose count equals the number of board letters uses
/// exactly the board's letters, provided the already played words use
/// only letters of the board.
pub proof fn lemma_full_count_covers_board(
    board: &LetterBoxed,
    ws: Seq<&str>,
    prior: Seq<usize>,
    max_depth: usize,
    max_results: usize,
    out: Seq<(Seq<&str>, usize)>,
)
    requires
        board.wf(),
        solve_ok(board, ws, prior, max_depth, max_results, out),
        forall|k: int| 0 <= k < prior.len() ==> (#[trigger] prior[k] as int) < ws.len(),
        covered(word_views(chain_of(ws, prior))).subset_of(board.letter_set()),
    ensures
        forall|i: int|
            0 <= i < out.len() && (#[trigger] out[i]).1 == board.letter_set().len() ==> covered(
                word_views(out[i].0),
            ) == board.letter_set(),
{
    let wv = word_views(ws);
    let rs = choose|rs: Seq<(Seq<usize>, usize)>|
        {
            &&& #[trigger] found_ok(board, word_views(ws), prior, max_depth, max_results, rs)
            &&& rs.len() == out.len()
            &&& forall|i: int| 0 <= i < rs.len() ==> #[trigger] out[i] == (chain_of(ws, rs[i].0), rs[i].1)
        };
    board.lemma_letters();
    lemma_views_of_chain(ws, prior);
    assert forall|i: int|
        0 <= i < out.len() && (#[trigger] out[i]).1 == board.letter_set().len() implies covered(
            word_views(out[i].0),
        ) == board.letter_set() by {
        let p = rs[i].0;
        assert(out[i] == (chain_of(ws, p), rs[i].1));
        assert(path_ok(board, wv, prior, p));
        lemma_views_of_chain(ws, p);
        let cov = covered(path_words(wv, p));
        if !full(board, wv, p, rs[i].1) {
            if p.len() == 0 {
                assert(rs[i].1 == 0);
                board.letter_set().lemma_len0_is_empty();
                assert(cov =~= board.letter_set());
            } else {
                assert(cov.subset_of(board.letter_set())) by {
                    assert forall|c: char| cov.contains(c) implies board.letter_set().contains(c) by {
                        let j = choose|j: int| 0 <= j < path_words(wv, p).len() && #[trigger] path_words(wv, p)[j].contains(c);
                        if j < prior.len() {
                            assert(p.subrange(0, prior.len() as int)[j] == p[j]);
                            assert(path_words(wv, prior)[j] == path_words(wv, p)[j]);
                            assert(covered(path_words(wv, prior)).contains(c));
                        } else {
                            let w = wv[p[j] as int];
                            assert(board.eligible(w));
                            let m = choose|m: int| 0 <= m < w.len() && w[m] == c;
                            assert(board.on_board(w[m]));
                        }
                    }
                }
                vstd::set_lib::lemma_len_subset(cov, board.letter_set());
                vstd::set_lib::lemma_subset_equality(cov, board.letter_set());
            }
        }
    }
}

/// No returned chain has more words than one returned after it: chains
/// come shortest first.
pub proof fn lemma_shortest_first(
    board: &LetterBoxed,
    ws: Seq<&str>,
    prior: Seq<usize>,
    max_depth: usize,
    max_results: usize,
    out: Seq<(Seq<&str>, usize)>,
)
    requires
        solve_ok(board, ws, prior, max_depth, max_results, out),
    ensures
        forall|i: int, j: int| 0 <= i < j < out.len() ==> (#[trigger] out[i]).0.len() <= (#[trigger] out[j]).0.len(),
{
    let rs = choose|rs: Seq<(Seq<usize>, usize)>|
        {
            &&& #[trigger] found_ok(board, word_views(ws), prior, max_depth, max_results, rs)
            &&& rs.len() == out.len()
            &&& forall|i: int| 0 <= i < rs.len() ==> #[trigger] out[i] == (chain_of(ws, rs[i].0), rs[i].1)
        };
    assert forall|i: int, j: int| 0 <= i < j < out.len() implies (#[trigger] out[i]).0.len() <= (#[trigger] out[j]).0.len() by {
        assert(out[i] == (chain_of(ws, rs[i].0), rs[i].1));
        assert(out[j] == (chain_of(ws, rs[j].0), rs[j].1));
        assert(rs[i].0.len() <= rs[j].0.len());
    }
}

/// `solve` never returns an empty list, and when no legal chain of at
/// most `max_depth` words (or the already played words alone) covers the
/// board, it returns exactly one best-effort entry.
pub proof fn lemma_fallback(
    board: &LetterBoxed,
    ws: Seq<&str>,
    prior: Seq<usize>,
    max_depth: usize,
    max_results: usize,
    out: Seq<(Seq<&str>, usize)>,
)
    requires
        solve_ok(board, ws, prior, max_depth, max_results, out),
    ensures
        out.len() >= 1,
        (forall|p: Seq<usize>|
            path_ok(board, word_views(ws), prior, p) && (p.len() <= max_depth || p.len() <= prior.len())
                ==> #[trigger] covered(path_words(word_views(ws), p)) != board.letter_set()) ==> out.len() == 1,
{
    let rs = choose|rs: Seq<(Seq<usize>, usize)>|
        {
            &&& #[trigger] found_ok(board, word_views(ws), prior, max_depth, max_results, rs)
            &&& rs.len() == out.len()
            &&& forall|i: int| 0 <= i < rs.len() ==> #[trigger] out[i] == (chain_of(ws, rs[i].0), rs[i].1)
        };
    if out.len() != 1 {
        assert(full(board, word_views(ws), rs[0].0, rs[0].1));
        assert(path_ok(board, word_views(ws), prior, rs[0].0));
        assert(rs[0].0.len() <= prior.len() || rs[0].0.len() <= max_depth);
    }
}

/// With already played words, every returned chain begins with exactly
/// those words.
pub proof fn lemma_resumes_prefix(
    board: &LetterBoxed,
    ws: Seq<&str>,
    prior: Seq<usize>,
    max_depth: usize,
    max_results: usize,
    out: Seq<(Seq<&str>, usize)>,
)
    requires
        solve_ok(board, ws, prior, max_depth, max_results, out),
    ensures
        forall|i: int|
            0 <= i < out.len() ==> (#[trigger] out[i]).0.len() >= prior.len() && out[i].0.subrange(
                0,
                prior.len() as int,
            ) == chain_of(ws, prior),
{
    let rs = choose|rs: Seq<(Seq<usize>, usize)>|
        {
            &&& #[trigger] found_ok(board, word_views(ws), prior, max_depth, max_results, rs)
            &&& rs.len() == out.len()
            &&& forall|i: int| 0 <= i < rs.len() ==> #[trigger] out[i] == (chain_of(ws, rs[i].0), rs[i].1)
        };
    assert forall|i: int| 0 <= i < out.len() implies (#[trigger] out[i]).0.len() >= prior.len() && out[i].0.subrange(
        0,
        prior.len() as int,
    ) == chain_of(ws, prior) by {
        let p = rs[i].0;
        assert(out[i] == (chain_of(ws, p), rs[i].1));
        assert(path_ok(board, word_views(ws), prior, p));
        assert(chain_of(ws, p).subrange(0, prior.len() as int) =~= chain_of(ws, prior)) by {
            assert forall|k: int| 0 <= k < prior.len() implies p[k] == prior[k] by {
                assert(p.subrange(0, prior.len() as int)[k] == p[k]);
            }
        }
    }
}

/// With `max_results` at least one, `solve` returns at most that many
/// entries.
pub proof fn lemma_results_bounded(
    board: &LetterBoxed,
    ws: Seq<&str>,
    prior: Seq<usize>,
    max_depth: usize,
    max_results: usize,
    out: Seq<(Seq<&str>, usize)>,
)
    requires
        solve_ok(board, ws, prior, max_depth, max_results, out),
        max_results >= 1,
    ensures
        out.len() <= max_results,
{
    let rs = choose|rs: Seq<(Seq<usize>, usize)>|
        {
            &&& #[trigger] found_ok(board, word_views(ws), prior, max_depth, max_results, rs)
            &&& rs.len() == out.len()
            &&& forall|i: int| 0 <= i < rs.len() ==> #[trigger] out[i] == (chain_of(ws, rs[i].0), rs[i].1)
        };
}

/// When some chain within the bound covers the board (each word after the
/// already played ones adding a letter), every returned entry covers the
/// board exactly, and the first one is as short as any such chain.
pub proof fn lemma_finds_shortest(
    board: &LetterBoxed,
    ws: Seq<&str>,
    prior: Seq<usize>,
    max_depth: usize,
    max_results: usize,
    out: Seq<(Seq<&str>, usize)>,
    q: Seq<usize>,
)
    requires
        solve_ok(board, ws, prior, max_depth, max_results, out),
        covers(board, word_views(ws), prior, q),
        q.len() <= max_depth || q.len() == prior.len(),
    ensures
        forall|i: int|
            0 <= i < out.len() ==> covered(word_views((#[trigger] out[i]).0)) == board.letter_set()
                && out[i].1 == board.letter_set().len(),
        out[0].0.len() <= q.len(),
{
    let wv = word_views(ws);
    let rs = choose|rs: Seq<(Seq<usize>, usize)>|
        {
            &&& #[trigger] found_ok(board, word_views(ws), prior, max_depth, max_results, rs)
            &&& rs.len() == out.len()
            &&& forall|i: int| 0 <= i < rs.len() ==> #[trigger] out[i] == (chain_of(ws, rs[i].0), rs[i].1)
        };
    assert(covers(board, wv, prior, q) && (q.len() <= max_depth || q.len() == prior.len()));
    assert forall|i: int|
        0 <= i < out.len() implies covered(word_views((#[trigger] out[i]).0)) == board.letter_set()
            && out[i].1 == board.letter_set().len() by {
        assert(out[i] == (chain_of(ws, rs[i].0), rs[i].1));
        assert(full(board, wv, rs[i].0, rs[i].1));
        assert(path_ok(board, wv, prior, rs[i].0));
        lemma_views_of_chain(ws, rs[i].0);
    }
    assert(out[0] == (chain_of(ws, rs[0].0), rs[0].1));
}

/// When the first entry does not cover the board, it is the best-effort
/// entry: it covers at least as many letters as any chain within the bound
/// (each word after the already played ones adding a letter), and is no
/// longer than any such chain that covers as many.
pub proof fn lemma_best_effort(
    board: &LetterBoxed,
    ws: Seq<&str>,
    prior: Seq<usize>,
    max_depth: usize,
    max_results: usize,
    out: Seq<(Seq<&str>, usize)>,
    q: Seq<usize>,
)
    requires
        solve_ok(board, ws, prior, max_depth, max_results, out),
        !(covered(word_views(out[0].0)) == board.letter_set() && out[0].1 == board.letter_set().len()),
        path_ok(board, word_views(ws), prior, q),
        progressive(word_views(ws), prior, q),
        q.len() > 0,
        q.len() <= max_depth || q.len() == prior.len(),
    ensures
        out[0].1 >= covered(path_words(word_views(ws), q)).len(),
        out[0].1 == covered(path_words(word_views(ws), q)).len() ==> out[0].0.len() <= q.len(),
{
    let wv = word_views(ws);
    let rs = choose|rs: Seq<(Seq<usize>, usize)>|
        {
            &&& #[trigger] found_ok(board, word_views(ws), prior, max_depth, max_results, rs)
            &&& rs.len() == out.len()
            &&& forall|i: int| 0 <= i < rs.len() ==> #[trigger] out[i] == (chain_of(ws, rs[i].0), rs[i].1)
        };
    assert(out[0] == (chain_of(ws, rs[0].0), rs[0].1));
    assert(path_ok(board, wv, prior, rs[0].0));
    lemma_views_of_chain(ws, rs[0].0);
    assert(!full(board, wv, rs[0].0, rs[0].1));
    assert(dominated(wv, rs[0].0, rs[0].1, q));
}

} // verus!
