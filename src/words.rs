//! Solving against a list of words named by their text, and the built-in list.
use vstd::prelude::*;
use vstd::string::*;
use crate::board::LetterBoxed;
use crate::search::{solve_ok, result_view};

verus! {

/// How many words the built-in list holds.
pub const BUILTIN_LEN: usize = 210;

/// Why a solve request could not start.
#[derive(Debug, Clone, Copy, PartialEq, Eq)]
pub enum SolveError {
    /// The already played word at this position is not in the word list.
    UnknownPriorWord(usize),
    /// The last already played word is empty, so no letter ends the chain.
    EmptyPriorWord,
}

/// The words of the built-in list, in order: upper-case English words,
/// alphabetical.
pub open spec fn builtin_list() -> Seq<Seq<char>> {
    seq![
        "ABLE"@, "ABOUT"@, "ABOVE"@, "ABUSE"@, "ACHE"@, "ACORN"@, "ACTION"@, "ACTOR"@,
        "ACUTE"@, "ADULT"@, "AFTER"@, "AGAIN"@, "AGENT"@, "ALARM"@, "ALBUM"@, "ALERT"@,
        "ALIEN"@, "ALIVE"@, "ALTER"@, "AMBER"@, "AMPLE"@, "ANCHOR"@, "ANGEL"@, "ANGER"@,
        "ANKLE"@, "APRON"@, "ARENA"@, "ARISE"@, "ARMOR"@, "ARROW"@, "ATOLL"@, "AUDIT"@,
        "AUTHOR"@, "AUTHORITY"@, "AVOID"@, "AWAKE"@, "BACON"@, "BADGE"@, "BAKER"@, "BALLET"@,
        "BANANA"@, "BARON"@, "BASIC"@, "BEACON"@, "BEAUTY"@, "BEFORE"@, "BEHAVE"@, "BELOW"@,
        "BIRTHS"@, "BISON"@, "BLEACH"@, "BOASTFUL"@, "BONUS"@, "BOTANY"@, "BOTH"@, "BREATH"@,
        "BRIEF"@, "BRIEFS"@, "BUSY"@, "BUTTER"@, "CABIN"@, "CACTUS"@, "CAMEL"@, "CANAL"@,
        "CANOE"@, "CARBON"@, "CASTLE"@, "CELLAR"@, "CHAIR"@, "CHAPEL"@, "CHARITY"@, "CITRUS"@,
        "CLARITY"@, "CLOUT"@, "COBALT"@, "COLUMN"@, "COMET"@, "CORAL"@, "COTTON"@, "COUNTRY"@,
        "CRATER"@, "CRAZILY"@, "CRYSTAL"@, "CULPRIT"@, "CURLY"@, "CURTAIN"@, "CYCLE"@,
        "DANCER"@, "DECAL"@, "DIVER"@, "ECHO"@, "EIGHT"@, "ELBOW"@, "ELECTRIC"@, "EMPTY"@,
        "ENTRY"@, "EQUAL"@, "ERUPT"@, "ETHIC"@, "EVICT"@, "FABRIC"@, "FABRICS"@, "FACTOR"@,
        "FEATHER"@, "FIBULA"@, "FIRST"@, "FORBID"@, "FORESTRY"@, "FORTUNE"@, "FRUIT"@, "FURY"@,
        "GALLERY"@, "HAIRCUT"@, "HAIRY"@, "HAZILY"@, "HEALTHY"@, "HELIUM"@, "HERO"@,
        "HOSTILE"@, "HURT"@, "ICON"@, "INERT"@, "INLET"@, "INPUT"@, "IRONY"@, "ISLAND"@,
        "JUICE"@, "KETTLE"@, "LANTERN"@, "LAUNCH"@, "LAZILY"@, "LEAKY"@, "LOCUST"@, "LOTUS"@,
        "LUCID"@, "LUCRE"@, "LUNAR"@, "LYRIC"@, "NAUTICAL"@, "NICKEL"@, "NOTICE"@, "NUANCE"@,
        "NUCLEI"@, "OBESITY"@, "OCEAN"@, "OPERA"@, "ORBIT"@, "ORBITS"@, "OUTRAN"@, "PALACE"@,
        "PECULIAR"@, "PELICAN"@, "PENCIL"@, "PILOT"@, "PLANET"@, "POCKET"@, "PORTAL"@,
        "PUNCTUAL"@, "RACKET"@, "RECITAL"@, "RETINA"@, "RITZILY"@, "RIVET"@, "ROBUST"@,
        "RUSTIC"@, "SATIRE"@, "SHOUT"@, "SHUTTER"@, "SOFA"@, "SOFTY"@, "STATUE"@, "STATUTORY"@,
        "SUBTLE"@, "TABLET"@, "TALKER"@, "THIRSTY"@, "TOFU"@, "TOUCAN"@, "TRAVEL"@, "TRIBAL"@,
        "TROPHY"@, "TULIP"@, "TUNIC"@, "TYRANT"@, "ULTRA"@, "UNCLE"@, "UNICORN"@, "UPLOAD"@,
        "URBAN"@, "UTOPIA"@, "VALUE"@, "VEHICLE"@, "VEHICULAR"@, "VELVET"@, "VICAR"@,
        "VIRTUE"@, "VITAL"@, "VIVID"@, "YACHT"@, "YEARBOOK"@, "YEARLY"@, "YEAST"@, "YOGURT"@,
        "YOUTH"@, "ZEALOT"@, "ZEBRA"@, "ZENITH"@, "ZERO"@, "ZILCH"@, "ZITHER"@,
    ]
}

/// The built-in word list: upper-case English words, in alphabetical order.
pub fn builtin_words() -> (r: Vec<&'static str>)
    ensures
        r@.len() == BUILTIN_LEN,
        r@.map_values(|s: &str| s@) == builtin_list(),
{
    let r = vec![
        "ABLE", "ABOUT", "ABOVE", "ABUSE", "ACHE", "ACORN", "ACTION", "ACTOR", "ACUTE",
        "ADULT", "AFTER", "AGAIN", "AGENT", "ALARM", "ALBUM", "ALERT", "ALIEN", "ALIVE",
        "ALTER", "AMBER", "AMPLE", "ANCHOR", "ANGEL", "ANGER", "ANKLE", "APRON", "ARENA",
        "ARISE", "ARMOR", "ARROW", "ATOLL", "AUDIT", "AUTHOR", "AUTHORITY", "AVOID", "AWAKE",
        "BACON", "BADGE", "BAKER", "BALLET", "BANANA", "BARON", "BASIC", "BEACON", "BEAUTY",
        "BEFORE", "BEHAVE", "BELOW", "BIRTHS", "BISON", "BLEACH", "BOASTFUL", "BONUS",
        "BOTANY", "BOTH", "BREATH", "BRIEF", "BRIEFS", "BUSY", "BUTTER", "CABIN", "CACTUS",
        "CAMEL", "CANAL", "CANOE", "CARBON", "CASTLE", "CELLAR", "CHAIR", "CHAPEL", "CHARITY",
        "CITRUS", "CLARITY", "CLOUT", "COBALT", "COLUMN", "COMET", "CORAL", "COTTON",
        "COUNTRY", "CRATER", "CRAZILY", "CRYSTAL", "CULPRIT", "CURLY", "CURTAIN", "CYCLE",
        "DANCER", "DECAL", "DIVER", "ECHO", "EIGHT", "ELBOW", "ELECTRIC", "EMPTY", "ENTRY",
        "EQUAL", "ERUPT", "ETHIC", "EVICT", "FABRIC", "FABRICS", "FACTOR", "FEATHER", "FIBULA",
        "FIRST", "FORBID", "FORESTRY", "FORTUNE", "FRUIT", "FURY", "GALLERY", "HAIRCUT",
        "HAIRY", "HAZILY", "HEALTHY", "HELIUM", "HERO", "HOSTILE", "HURT", "ICON", "INERT",
        "INLET", "INPUT", "IRONY", "ISLAND", "JUICE", "KETTLE", "LANTERN", "LAUNCH", "LAZILY",
        "LEAKY", "LOCUST", "LOTUS", "LUCID", "LUCRE", "LUNAR", "LYRIC", "NAUTICAL", "NICKEL",
        "NOTICE", "NUANCE", "NUCLEI", "OBESITY", "OCEAN", "OPERA", "ORBIT", "ORBITS", "OUTRAN",
        "PALACE", "PECULIAR", "PELICAN", "PENCIL", "PILOT", "PLANET", "POCKET", "PORTAL",
        "PUNCTUAL", "RACKET", "RECITAL", "RETINA", "RITZILY", "RIVET", "ROBUST", "RUSTIC",
        "SATIRE", "SHOUT", "SHUTTER", "SOFA", "SOFTY", "STATUE", "STATUTORY", "SUBTLE",
        "TABLET", "TALKER", "THIRSTY", "TOFU", "TOUCAN", "TRAVEL", "TRIBAL", "TROPHY", "TULIP",
        "TUNIC", "TYRANT", "ULTRA", "UNCLE", "UNICORN", "UPLOAD", "URBAN", "UTOPIA", "VALUE",
        "VEHICLE", "VEHICULAR", "VELVET", "VICAR", "VIRTUE", "VITAL", "VIVID", "YACHT",
        "YEARBOOK", "YEARLY", "YEAST", "YOGURT", "YOUTH", "ZEALOT", "ZEBRA", "ZENITH", "ZERO",
        "ZILCH", "ZITHER",
    ];
    assert(r@.map_values(|s: &str| s@) =~= builtin_list());
    r
}

/// Whether two strings hold the same characters.
fn same_text(a: &str, b: &str) -> (r: bool)
    ensures
        r == (a@ == b@),
{
    let n = a.unicode_len();
    if n != b.unicode_len() {
        return false;
    }
    let mut i: usize = 0;
    while i < n
        invariant
            n == a@.len(),
            n == b@.len(),
            i <= n,
            forall|k: int| 0 <= k < i ==> a@[k] == b@[k],
        decreases n - i,
    {
        if a.get_char(i) != b.get_char(i) {
            return false;
        }
        i += 1;
    }
    assert(a@ =~= b@);
    true
}

/// The position of the first word of `words` that reads `w`.
fn position_of(words: &[&str], w: &str) -> (r: Option<usize>)
    ensures
        match r {
            Some(j) => first_index(words@, w@, j as int),
            None => forall|j: int| 0 <= j < words@.len() ==> (#[trigger] words@[j])@ != w@,
        },
{
    let mut j: usize = 0;
    while j < words.len()
        invariant
            j <= words@.len(),
            forall|k: int| 0 <= k < j ==> (#[trigger] words@[k])@ != w@,
        decreases words.len() - j,
    {
        if same_text(words[j], w) {
            return Some(j);
        }
        j += 1;
    }
    None
}

/// Some word of `ws` reads `w`.
pub open spec fn in_list(ws: Seq<&str>, w: Seq<char>) -> bool {
    exists|j: int| 0 <= j < ws.len() && (#[trigger] ws[j])@ == w
}

/// `j` is where `w` first occurs in `ws`.
pub open spec fn first_index(ws: Seq<&str>, w: Seq<char>, j: int) -> bool {
    &&& 0 <= j < ws.len()
    &&& ws[j]@ == w
    &&& forall|k: int| 0 <= k < j ==> (#[trigger] ws[k])@ != w
}

/// The already played words, found in `words` by their text.
pub open spec fn prior_found(ws: Seq<&str>, prior: Seq<&str>, idx: Seq<usize>) -> bool {
    &&& idx.len() == prior.len()
    &&& forall|k: int| 0 <= k < prior.len() ==> first_index(ws, (#[trigger] prior[k])@, idx[k] as int)
}

/// What `solve_with_words` returns on `words`: an unknown prior word (the
/// first one) is an error, an empty last prior word is an error, and
/// otherwise the result of `solve` from the positions of the prior words.
pub open spec fn solve_words_ok<'word>(
    board: &LetterBoxed,
    ws: Seq<&'word str>,
    prior: Seq<&str>,
    max_depth: usize,
    max_results: usize,
    r: Result<Seq<(Seq<&'word str>, usize)>, SolveError>,
) -> bool {
    match r {
        Err(SolveError::UnknownPriorWord(k)) => {
            &&& 0 <= k < prior.len()
            &&& !in_list(ws, prior[k as int]@)
            &&& forall|m: int|
                0 <= m < k ==> in_list(ws, (#[trigger] prior[m])@)
        },
        Err(SolveError::EmptyPriorWord) => {
            &&& prior.len() > 0
            &&& prior.last()@.len() == 0
            &&& forall|m: int|
                0 <= m < prior.len() ==> in_list(ws, (#[trigger] prior[m])@)
        },
        Ok(res) => exists|idx: Seq<usize>|
            {
                &&& #[trigger] prior_found(ws, prior, idx)
                &&& (prior.len() == 0 || prior.last()@.len() > 0)
                &&& solve_ok(board, ws, idx, max_depth, max_results, res)
            },
    }
}

/// The result list of a `Result`, as sequences of words.
pub open spec fn result_seq<'word>(r: Result<Vec<(Vec<&'word str>, usize)>, SolveError>) -> Result<Seq<(Seq<&'word str>, usize)>, SolveError> {
    match r {
        Ok(res) => Ok(result_view(res@)),
        Err(e) => Err(e),
    }
}

impl LetterBoxed {
    /// Solves the board over `words`, continuing the already played
    /// `prior_words`, each looked up by its text (its first occurrence).
    pub fn solve_with_words<'word>(
        &self,
        words: &[&'word str],
        prior_words: &[&str],
        max_depth: usize,
        max_results: usize,
    ) -> (r: Result<Vec<(Vec<&'word str>, usize)>, SolveError>)
        requires
            self.wf(),
        ensures
            solve_words_ok(self, words@, prior_words@, max_depth, max_results, result_seq(r)),
    {
        let mut idx: Vec<usize> = Vec::new();
        let mut k: usize = 0;
        while k < prior_words.len()
            invariant
                k <= prior_words@.len(),
                prior_found(words@, prior_words@.subrange(0, k as int), idx@),
            decreases prior_words.len() - k,
        {
            match position_of(words, prior_words[k]) {
                Some(j) => {
                    let ghost before = idx@;
                    idx.push(j);
                    assert(prior_found(words@, prior_words@.subrange(0, k + 1), idx@)) by {
                        assert forall|m: int| 0 <= m < k + 1 implies first_index(words@, (#[trigger] prior_words@.subrange(0, k + 1)[m])@, idx@[m] as int) by {
                            if m < k {
                                assert(prior_words@.subrange(0, k + 1)[m] == prior_words@.subrange(0, k as int)[m]);
                            }
                        }
                    }
                },
                None => {
                    proof {
                        assert forall|m: int| 0 <= m < k implies in_list(words@, (#[trigger] prior_words@[m])@) by {
                            assert(prior_words@.subrange(0, k as int)[m] == prior_words@[m]);
                            assert(first_index(words@, prior_words@.subrange(0, k as int)[m]@, idx@[m] as int));
                            assert(words@[idx@[m] as int]@ == prior_words@[m]@);
                        }
                    }
                    return Err(SolveError::UnknownPriorWord(k));
                },
            }
            k += 1;
        }
        proof {
            assert(prior_words@.subrange(0, prior_words@.len() as int) == prior_words@);
            assert forall|m: int| 0 <= m < prior_words@.len() implies (#[trigger] idx@[m] as int) < words@.len() by {
                assert(first_index(words@, prior_words@[m]@, idx@[m] as int));
            }
            assert forall|m: int| 0 <= m < prior_words@.len() implies in_list(words@, (#[trigger] prior_words@[m])@) by {
                assert(first_index(words@, prior_words@[m]@, idx@[m] as int));
                assert(words@[idx@[m] as int]@ == prior_words@[m]@);
            }
        }
        if prior_words.len() > 0 && prior_words[prior_words.len() - 1].unicode_len() == 0 {
            return Err(SolveError::EmptyPriorWord);
        }
        proof {
            if prior_words@.len() > 0 {
                assert(first_index(words@, prior_words@.last()@, idx@.last() as int));
            }
        }
        let res = self.solve(words, &idx, max_depth, max_results);
        assert(prior_found(words@, prior_words@, idx@));
        Ok(res)
    }

    /// Solves the board over the built-in word list, continuing the already
    /// played `prior_words` (upper case, each of them a word of the list).
    pub fn solve_with_builtin_list(
        &self,
        prior_words: &[&str],
        max_depth: usize,
        max_results: usize,
    ) -> (r: Result<Vec<(Vec<&'static str>, usize)>, SolveError>)
        requires
            self.wf(),
        ensures
            exists|ws: Seq<&'static str>|
                ws.map_values(|s: &str| s@) == builtin_list() && #[trigger] solve_words_ok(
                    self,
                    ws,
                    prior_words@,
                    max_depth,
                    max_results,
                    result_seq(r),
                ),
    {
        let words = builtin_words();
        let r = self.solve_with_words(words.as_slice(), prior_words, max_depth, max_results);
        assert(solve_words_ok(self, words@, prior_words@, max_depth, max_results, result_seq(r)));
        r
    }
}

} // verus!
