use vstd::prelude::*;
use vstd::string::StrSliceExecFns;
use crate::PatinaError;
use crate::text::{is_alnum_char, lower_of, lowercase, string_from_chars, chars_vec};

verus! {

// ---------------------------------------------------------------------------
// Tokenizing text into lowercase words.
// ---------------------------------------------------------------------------

/// The tokens gathered so far, and the alphanumeric run being read.
pub open spec fn tok_fold(s: Seq<char>) -> (Seq<Seq<char>>, Seq<char>)
    decreases s.len(),
{
    if s.len() == 0 {
        (Seq::empty(), Seq::empty())
    } else {
        let prev = tok_fold(s.drop_last());
        let c = s.last();
        if is_alnum_char(c) {
            (prev.0, prev.1.push(c))
        } else if prev.1.len() > 0 {
            (prev.0.push(lower_of(prev.1)), Seq::empty())
        } else {
            (prev.0, Seq::empty())
        }
    }
}

/// The lowercased maximal alphanumeric runs of the text, in order.
pub open spec fn tokenize_spec(s: Seq<char>) -> Seq<Seq<char>> {
    let f = tok_fold(s);
    if f.1.len() > 0 {
        f.0.push(lower_of(f.1))
    } else {
        f.0
    }
}

/// Splits text on non-alphanumeric boundaries into lowercase words.
pub fn tokenize(text: &str) -> (r: Vec<String>)
    ensures
        r@.len() == tokenize_spec(text@).len(),
        forall|k: int| 0 <= k < r@.len() ==> (#[trigger] r@[k])@ == tokenize_spec(text@)[k],
{
    let cs = chars_vec(text);
    let mut tokens: Vec<String> = Vec::new();
    let mut cur: Vec<char> = Vec::new();
    let mut i: usize = 0;
    while i < cs.len()
        invariant
            i <= cs@.len(),
            cs@ == text@,
            cur@ == tok_fold(cs@.take(i as int)).1,
            tokens@.len() == tok_fold(cs@.take(i as int)).0.len(),
            forall|k: int|
                0 <= k < tokens@.len() ==> (#[trigger] tokens@[k])@ == tok_fold(
                    cs@.take(i as int),
                ).0[k],
        decreases cs@.len() - i,
    {
        proof {
            assert(cs@.take(i as int + 1).drop_last() =~= cs@.take(i as int));
            assert(cs@.take(i as int + 1).last() == cs@[i as int]);
        }
        let c = cs[i];
        if c.is_alphanumeric() {
            cur.push(c);
        } else if cur.len() > 0 {
            let run = string_from_chars(&cur);
            tokens.push(lowercase(run.as_str()));
            cur.clear();
        }
        i += 1;
    }
    proof {
        assert(cs@.take(cs@.len() as int) =~= cs@);
    }
    if cur.len() > 0 {
        let run = string_from_chars(&cur);
        tokens.push(lowercase(run.as_str()));
    }
    tokens
}

// ---------------------------------------------------------------------------
// Candidate topic words.
// ---------------------------------------------------------------------------

pub open spec fn is_digit_char(c: char) -> bool {
    48 <= c as u32 <= 57
}

pub open spec fn all_digits(w: Seq<char>) -> bool {
    forall|i: int| 0 <= i < w.len() ==> is_digit_char(#[trigger] w[i])
}

/// The fixed list of common English function words that never count as
/// topics.
pub open spec fn is_stop_word(w: Seq<char>) -> bool {
    ||| w == "the"@
    ||| w == "a"@
    ||| w == "an"@
    ||| w == "and"@
    ||| w == "or"@
    ||| w == "but"@
    ||| w == "in"@
    ||| w == "on"@
    ||| w == "at"@
    ||| w == "to"@
    ||| w == "for"@
    ||| w == "of"@
    ||| w == "with"@
    ||| w == "by"@
    ||| w == "from"@
    ||| w == "as"@
    ||| w == "is"@
    ||| w == "was"@
    ||| w == "are"@
    ||| w == "were"@
    ||| w == "been"@
    ||| w == "be"@
    ||| w == "have"@
    ||| w == "has"@
    ||| w == "had"@
    ||| w == "do"@
    ||| w == "does"@
    ||| w == "did"@
    ||| w == "will"@
    ||| w == "would"@
    ||| w == "could"@
    ||| w == "should"@
    ||| w == "may"@
    ||| w == "might"@
    ||| w == "must"@
    ||| w == "shall"@
    ||| w == "can"@
    ||| w == "need"@
    ||| w == "dare"@
    ||| w == "ought"@
    ||| w == "used"@
    ||| w == "it"@
    ||| w == "its"@
    ||| w == "this"@
    ||| w == "that"@
    ||| w == "these"@
    ||| w == "those"@
    ||| w == "i"@
    ||| w == "you"@
    ||| w == "he"@
    ||| w == "she"@
    ||| w == "we"@
    ||| w == "they"@
    ||| w == "what"@
    ||| w == "which"@
    ||| w == "who"@
    ||| w == "whom"@
    ||| w == "where"@
    ||| w == "when"@
    ||| w == "why"@
    ||| w == "how"@
    ||| w == "all"@
    ||| w == "each"@
    ||| w == "every"@
    ||| w == "both"@
    ||| w == "few"@
    ||| w == "more"@
    ||| w == "most"@
    ||| w == "other"@
    ||| w == "some"@
    ||| w == "such"@
    ||| w == "no"@
    ||| w == "nor"@
    ||| w == "not"@
    ||| w == "only"@
    ||| w == "own"@
    ||| w == "same"@
    ||| w == "so"@
    ||| w == "than"@
    ||| w == "too"@
    ||| w == "very"@
    ||| w == "just"@
    ||| w == "also"@
    ||| w == "now"@
    ||| w == "new"@
    ||| w == "one"@
    ||| w == "two"@
    ||| w == "first"@
    ||| w == "last"@
    ||| w == "many"@
    ||| w == "much"@
    ||| w == "get"@
    ||| w == "got"@
    ||| w == "go"@
    ||| w == "going"@
    ||| w == "make"@
    ||| w == "made"@
    ||| w == "take"@
    ||| w == "use"@
    ||| w == "using"@
    ||| w == "via"@
    ||| w == "about"@
    ||| w == "into"@
    ||| w == "over"@
    ||| w == "after"@
    ||| w == "before"@
    ||| w == "between"@
    ||| w == "through"@
}

/// A candidate topic word: at least three characters, not a stop word,
/// not all digits.
pub open spec fn is_valid_word(w: Seq<char>) -> bool {
    w.len() >= 3 && !is_stop_word(w) && !all_digits(w)
}

fn is_stop_word_exec(w: &str) -> (r: bool)
    ensures
        r == is_stop_word(w@),
{
    if crate::text::str_eq(w, "the") {
        return true;
    }
    if crate::text::str_eq(w, "a") {
        return true;
    }
    if crate::text::str_eq(w, "an") {
        return true;
    }
    if crate::text::str_eq(w, "and") {
        return true;
    }
    if crate::text::str_eq(w, "or") {
        return true;
    }
    if crate::text::str_eq(w, "but") {
        return true;
    }
    if crate::text::str_eq(w, "in") {
        return true;
    }
    if crate::text::str_eq(w, "on") {
        return true;
    }
    if crate::text::str_eq(w, "at") {
        return true;
    }
    if crate::text::str_eq(w, "to") {
        return true;
    }
    if crate::text::str_eq(w, "for") {
        return true;
    }
    if crate::text::str_eq(w, "of") {
        return true;
    }
    if crate::text::str_eq(w, "with") {
        return true;
    }
    if crate::text::str_eq(w, "by") {
        return true;
    }
    if crate::text::str_eq(w, "from") {
        return true;
    }
    if crate::text::str_eq(w, "as") {
        return true;
    }
    if crate::text::str_eq(w, "is") {
        return true;
    }
    if crate::text::str_eq(w, "was") {
        return true;
    }
    if crate::text::str_eq(w, "are") {
        return true;
    }
    if crate::text::str_eq(w, "were") {
        return true;
    }
    if crate::text::str_eq(w, "been") {
        return true;
    }
    if crate::text::str_eq(w, "be") {
        return true;
    }
    if crate::text::str_eq(w, "have") {
        return true;
    }
    if crate::text::str_eq(w, "has") {
        return true;
    }
    if crate::text::str_eq(w, "had") {
        return true;
    }
    if crate::text::str_eq(w, "do") {
        return true;
    }
    if crate::text::str_eq(w, "does") {
        return true;
    }
    if crate::text::str_eq(w, "did") {
        return true;
    }
    if crate::text::str_eq(w, "will") {
        return true;
    }
    if crate::text::str_eq(w, "would") {
        return true;
    }
    if crate::text::str_eq(w, "could") {
        return true;
    }
    if crate::text::str_eq(w, "should") {
        return true;
    }
    if crate::text::str_eq(w, "may") {
        return true;
    }
    if crate::text::str_eq(w, "might") {
        return true;
    }
    if crate::text::str_eq(w, "must") {
        return true;
    }
    if crate::text::str_eq(w, "shall") {
        return true;
    }
    if crate::text::str_eq(w, "can") {
        return true;
    }
    if crate::text::str_eq(w, "need") {
        return true;
    }
    if crate::text::str_eq(w, "dare") {
        return true;
    }
    if crate::text::str_eq(w, "ought") {
        return true;
    }
    if crate::text::str_eq(w, "used") {
        return true;
    }
    if crate::text::str_eq(w, "it") {
        return true;
    }
    if crate::text::str_eq(w, "its") {
        return true;
    }
    if crate::text::str_eq(w, "this") {
        return true;
    }
    if crate::text::str_eq(w, "that") {
        return true;
    }
    if crate::text::str_eq(w, "these") {
        return true;
    }
    if crate::text::str_eq(w, "those") {
        return true;
    }
    if crate::text::str_eq(w, "i") {
        return true;
    }
    if crate::text::str_eq(w, "you") {
        return true;
    }
    if crate::text::str_eq(w, "he") {
        return true;
    }
    if crate::text::str_eq(w, "she") {
        return true;
    }
    if crate::text::str_eq(w, "we") {
        return true;
    }
    if crate::text::str_eq(w, "they") {
        return true;
    }
    if crate::text::str_eq(w, "what") {
        return true;
    }
    if crate::text::str_eq(w, "which") {
        return true;
    }
    if crate::text::str_eq(w, "who") {
        return true;
    }
    if crate::text::str_eq(w, "whom") {
        return true;
    }
    if crate::text::str_eq(w, "where") {
        return true;
    }
    if crate::text::str_eq(w, "when") {
        return true;
    }
    if crate::text::str_eq(w, "why") {
        return true;
    }
    if crate::text::str_eq(w, "how") {
        return true;
    }
    if crate::text::str_eq(w, "all") {
        return true;
    }
    if crate::text::str_eq(w, "each") {
        return true;
    }
    if crate::text::str_eq(w, "every") {
        return true;
    }
    if crate::text::str_eq(w, "both") {
        return true;
    }
    if crate::text::str_eq(w, "few") {
        return true;
    }
    if crate::text::str_eq(w, "more") {
        return true;
    }
    if crate::text::str_eq(w, "most") {
        return true;
    }
    if crate::text::str_eq(w, "other") {
        return true;
    }
    if crate::text::str_eq(w, "some") {
        return true;
    }
    if crate::text::str_eq(w, "such") {
        return true;
    }
    if crate::text::str_eq(w, "no") {
        return true;
    }
    if crate::text::str_eq(w, "nor") {
        return true;
    }
    if crate::text::str_eq(w, "not") {
        return true;
    }
    if crate::text::str_eq(w, "only") {
        return true;
    }
    if crate::text::str_eq(w, "own") {
        return true;
    }
    if crate::text::str_eq(w, "same") {
        return true;
    }
    if crate::text::str_eq(w, "so") {
        return true;
    }
    if crate::text::str_eq(w, "than") {
        return true;
    }
    if crate::text::str_eq(w, "too") {
        return true;
    }
    if crate::text::str_eq(w, "very") {
        return true;
    }
    if crate::text::str_eq(w, "just") {
        return true;
    }
    if crate::text::str_eq(w, "also") {
        return true;
    }
    if crate::text::str_eq(w, "now") {
        return true;
    }
    if crate::text::str_eq(w, "new") {
        return true;
    }
    if crate::text::str_eq(w, "one") {
        return true;
    }
    if crate::text::str_eq(w, "two") {
        return true;
    }
    if crate::text::str_eq(w, "first") {
        return true;
    }
    if crate::text::str_eq(w, "last") {
        return true;
    }
    if crate::text::str_eq(w, "many") {
        return true;
    }
    if crate::text::str_eq(w, "much") {
        return true;
    }
    if crate::text::str_eq(w, "get") {
        return true;
    }
    if crate::text::str_eq(w, "got") {
        return true;
    }
    if crate::text::str_eq(w, "go") {
        return true;
    }
    if crate::text::str_eq(w, "going") {
        return true;
    }
    if crate::text::str_eq(w, "make") {
        return true;
    }
    if crate::text::str_eq(w, "made") {
        return true;
    }
    if crate::text::str_eq(w, "take") {
        return true;
    }
    if crate::text::str_eq(w, "use") {
        return true;
    }
    if crate::text::str_eq(w, "using") {
        return true;
    }
    if crate::text::str_eq(w, "via") {
        return true;
    }
    if crate::text::str_eq(w, "about") {
        return true;
    }
    if crate::text::str_eq(w, "into") {
        return true;
    }
    if crate::text::str_eq(w, "over") {
        return true;
    }
    if crate::text::str_eq(w, "after") {
        return true;
    }
    if crate::text::str_eq(w, "before") {
        return true;
    }
    if crate::text::str_eq(w, "between") {
        return true;
    }
    if crate::text::str_eq(w, "through") {
        return true;
    }
    false
}

/// Whether a word may become a topic.
pub fn is_valid_topic_word(word: &str) -> (r: bool)
    ensures
        r == is_valid_word(word@),
{
    if word.unicode_len() < 3 {
        return false;
    }
    if is_stop_word_exec(word) {
        return false;
    }
    let cs = chars_vec(word);
    let mut i: usize = 0;
    while i < cs.len()
        invariant
            i <= cs@.len(),
            cs@ == word@,
            word@.len() >= 3,
            !is_stop_word(word@),
            forall|q: int| 0 <= q < i ==> is_digit_char(#[trigger] cs@[q]),
        decreases cs@.len() - i,
    {
        let u = cs[i] as u32;
        if u < 48 || u > 57 {
            proof {
                assert(!is_digit_char(word@[i as int]));
            }
            return true;
        }
        i += 1;
    }
    false
}


// ---------------------------------------------------------------------------
// Scoring candidate words.
// ---------------------------------------------------------------------------

/// How often this exact word occurs among the tokens.
pub open spec fn count_occ(ts: Seq<Seq<char>>, w: Seq<char>) -> int
    decreases ts.len(),
{
    if ts.len() == 0 {
        0
    } else {
        count_occ(ts.drop_last(), w) + if ts.last() == w {
            1 as int
        } else {
            0 as int
        }
    }
}

/// How many of the tokens are candidate topic words.
pub open spec fn valid_count(ts: Seq<Seq<char>>) -> int
    decreases ts.len(),
{
    if ts.len() == 0 {
        0
    } else {
        valid_count(ts.drop_last()) + if is_valid_word(ts.last()) {
            1 as int
        } else {
            0 as int
        }
    }
}

/// The weighted count of a candidate word: every title occurrence counts
/// three times, every summary occurrence once; a non-candidate counts zero.
pub open spec fn word_count(tt: Seq<Seq<char>>, st: Seq<Seq<char>>, w: Seq<char>) -> int {
    if is_valid_word(w) {
        3 * count_occ(tt, w) + count_occ(st, w)
    } else {
        0
    }
}

/// The accumulated weighted count across all candidate words.
pub open spec fn total_count(tt: Seq<Seq<char>>, st: Seq<Seq<char>>) -> int {
    3 * valid_count(tt) + valid_count(st)
}

proof fn lemma_count_bounds(ts: Seq<Seq<char>>, w: Seq<char>)
    ensures
        0 <= count_occ(ts, w) <= ts.len(),
        0 <= valid_count(ts) <= ts.len(),
    decreases ts.len(),
{
    if ts.len() > 0 {
        lemma_count_bounds(ts.drop_last(), w);
    }
}

proof fn lemma_occ_le_valid(ts: Seq<Seq<char>>, w: Seq<char>)
    requires
        is_valid_word(w),
    ensures
        0 <= count_occ(ts, w) <= valid_count(ts),
    decreases ts.len(),
{
    if ts.len() > 0 {
        lemma_occ_le_valid(ts.drop_last(), w);
    }
}

proof fn lemma_word_le_total(tt: Seq<Seq<char>>, st: Seq<Seq<char>>, w: Seq<char>)
    ensures
        0 <= word_count(tt, st, w) <= total_count(tt, st),
        0 <= total_count(tt, st),
{
    lemma_count_bounds(tt, w);
    lemma_count_bounds(st, w);
    if is_valid_word(w) {
        lemma_occ_le_valid(tt, w);
        lemma_occ_le_valid(st, w);
    }
}

proof fn lemma_occ_zero(ts: Seq<Seq<char>>, w: Seq<char>)
    requires
        forall|j: int| 0 <= j < ts.len() ==> #[trigger] ts[j] != w,
    ensures
        count_occ(ts, w) == 0,
    decreases ts.len(),
{
    if ts.len() > 0 {
        let rest = ts.drop_last();
        assert(forall|j: int| 0 <= j < rest.len() ==> #[trigger] rest[j] == ts[j]);
        lemma_occ_zero(rest, w);
    }
}

proof fn lemma_valid_at(ts: Seq<Seq<char>>, j: int)
    requires
        0 <= j < ts.len(),
        is_valid_word(ts[j]),
    ensures
        valid_count(ts) >= 1,
    decreases ts.len(),
{
    if j == ts.len() - 1 {
        lemma_count_bounds(ts.drop_last(), ts[j]);
    } else {
        let rest = ts.drop_last();
        assert(rest[j] == ts[j]);
        lemma_valid_at(rest, j);
    }
}

fn find_word_pos(acc: &Vec<(String, u128)>, w: &str) -> (r: Option<usize>)
    ensures
        (match r {
            Some(k) => k < acc@.len() && acc@[k as int].0@ == w@,
            None => forall|k: int| 0 <= k < acc@.len() ==> (#[trigger] acc@[k]).0@ != w@,
        }),
{
    let mut k: usize = 0;
    while k < acc.len()
        invariant
            k <= acc@.len(),
            forall|q: int| 0 <= q < k ==> (#[trigger] acc@[q]).0@ != w@,
        decreases acc@.len() - k,
    {
        if crate::text::str_eq(acc[k].0.as_str(), w) {
            return Some(k);
        }
        k += 1;
    }
    None
}

/// The tokens of an optional summary: none means no tokens.
pub open spec fn summary_tokens(summary: Option<String>) -> Seq<Seq<char>> {
    match summary {
        Some(s) => tokenize_spec(s@),
        None => Seq::<Seq<char>>::empty(),
    }
}

/// What topic extraction yields for the given token lists: scores exact in
/// millionths of the accumulated count, only candidate words over the
/// minimum share, distinct, heaviest first, at most ten, and every
/// qualifying token either listed or dominated by the last listed word.
pub open spec fn topics_post(tt: Seq<Seq<char>>, st: Seq<Seq<char>>, v: Seq<(String, u64)>) -> bool {
    let total = total_count(tt, st);
    &&& (total == 0 ==> v.len() == 0)
    &&& v.len() <= 10
    &&& forall|k: int|
        0 <= k < v.len() ==> {
            &&& is_valid_word((#[trigger] v[k]).0@)
            &&& word_count(tt, st, v[k].0@) > 0
            &&& 20 * word_count(tt, st, v[k].0@) >= total
            &&& v[k].1 as int == word_count(tt, st, v[k].0@) * 1000000 / total
        }
    &&& forall|k1: int, k2: int| 0 <= k1 < k2 < v.len() ==> (#[trigger] v[k1]).0@ != (#[trigger] v[k2]).0@
    &&& forall|k1: int, k2: int|
        0 <= k1 < k2 < v.len() ==> word_count(tt, st, (#[trigger] v[k1]).0@) >= word_count(
            tt,
            st,
            (#[trigger] v[k2]).0@,
        )
    &&& forall|j: int|
        0 <= j < tt.len() && is_valid_word(#[trigger] tt[j]) && 20 * word_count(tt, st, tt[j])
            >= total ==> (exists|k: int| 0 <= k < v.len() && (#[trigger] v[k]).0@ == tt[j]) || (
        v.len() == 10 && word_count(tt, st, tt[j]) <= word_count(tt, st, v.last().0@))
    &&& forall|j: int|
        0 <= j < st.len() && is_valid_word(#[trigger] st[j]) && 20 * word_count(tt, st, st[j])
            >= total ==> (exists|k: int| 0 <= k < v.len() && (#[trigger] v[k]).0@ == st[j]) || (
        v.len() == 10 && word_count(tt, st, st[j]) <= word_count(tt, st, v.last().0@))
}

/// Extracts ranked topics from an article title and optional summary: the
/// candidate words are counted (title hits weigh three times summary hits),
/// scored as their share of the accumulated count in millionths, thinned to
/// those scoring at least a twentieth, and the ten heaviest are returned,
/// heaviest first (ties in no promised order).  Degenerate input yields an
/// empty list, not an error.
pub fn extract_topics(title: &str, summary: Option<&str>) -> (r: Result<
    Vec<(String, u64)>,
    PatinaError,
>)
    ensures
        r is Ok,
        ({
            let tt = tokenize_spec(title@);
            let st = (match summary {
                Some(s) => tokenize_spec(s@),
                None => Seq::<Seq<char>>::empty(),
            });
            match r {
                Ok(v) => topics_post(tt, st, v@),
                Err(_) => false,
            }
        }),
{
    let ghost tt = tokenize_spec(title@);
    let ghost st = (match summary {
        Some(s) => tokenize_spec(s@),
        None => Seq::<Seq<char>>::empty(),
    });
    let tvec = tokenize(title);
    let svec = match summary {
        Some(s) => tokenize(s),
        None => Vec::new(),
    };
    let mut acc: Vec<(String, u128)> = Vec::new();
    let mut valid_t: usize = 0;
    let mut j: usize = 0;
    while j < tvec.len()
        invariant
            j <= tvec@.len(),
            tvec@.len() == tt.len(),
            forall|k: int| 0 <= k < tt.len() ==> (#[trigger] tvec@[k])@ == tt[k],
            valid_t == valid_count(tt.take(j as int)),
            valid_t <= j,
            forall|k: int|
                0 <= k < acc@.len() ==> (#[trigger] acc@[k]).1 as int == word_count(
                    tt.take(j as int),
                    Seq::<Seq<char>>::empty(),
                    acc@[k].0@,
                ),
            forall|k: int| 0 <= k < acc@.len() ==> is_valid_word((#[trigger] acc@[k]).0@),
            forall|k: int| 0 <= k < acc@.len() ==> (#[trigger] acc@[k]).1 > 0,
            forall|k1: int, k2: int|
                0 <= k1 < k2 < acc@.len() ==> (#[trigger] acc@[k1]).0@ != (#[trigger] acc@[k2]).0@,
            forall|j2: int|
                0 <= j2 < j && is_valid_word(#[trigger] tt[j2]) ==> exists|k: int|
                    0 <= k < acc@.len() && (#[trigger] acc@[k]).0@ == tt[j2],
        decreases tvec@.len() - j,
    {
        proof {
            assert(tt.take(j as int + 1).drop_last() =~= tt.take(j as int));
            assert(tt.take(j as int + 1).last() == tt[j as int]);
        }
        let ghost prev = acc@;
        if is_valid_topic_word(tvec[j].as_str()) {
            valid_t += 1;
            match find_word_pos(&acc, tvec[j].as_str()) {
                Some(k) => {
                    proof {
                        lemma_count_bounds(tt.take(j as int), prev[k as int].0@);
                    }
                    let t = acc[k].0.clone();
                    let total = acc[k].1 + 3;
                    acc.set(k, (t, total));
                    proof {
                        assert forall|k2: int|
                            0 <= k2 < acc@.len() implies (#[trigger] acc@[k2]).1 as int
                            == word_count(
                            tt.take(j as int + 1),
                            Seq::<Seq<char>>::empty(),
                            acc@[k2].0@,
                        ) by {
                            if k2 == k as int {
                                assert(acc@[k2].0@ == tt[j as int]);
                            } else {
                                assert(acc@[k2] == prev[k2]);
                                assert(prev[k2].0@ != prev[k as int].0@);
                            }
                        }
                        assert forall|j2: int|
                            0 <= j2 < j + 1 && is_valid_word(#[trigger] tt[j2]) implies exists|
                            k2: int,
                        |
                            0 <= k2 < acc@.len() && (#[trigger] acc@[k2]).0@ == tt[j2] by {
                            if j2 == j as int {
                                assert(acc@[k as int].0@ == tt[j2]);
                            } else {
                                let k2 = choose|k2: int|
                                    0 <= k2 < prev.len() && (#[trigger] prev[k2]).0@ == tt[j2];
                                assert(acc@[k2].0@ == tt[j2]);
                            }
                        }
                    }
                },
                None => {
                    proof {
                        assert forall|j2: int|
                            0 <= j2 < j implies #[trigger] tt.take(j as int)[j2] != tt[j as int] by {
                            if tt[j2] == tt[j as int] {
                                assert(is_valid_word(tt[j2]));
                                let k = choose|k: int|
                                    0 <= k < prev.len() && (#[trigger] prev[k]).0@ == tt[j2];
                            }
                        }
                        lemma_occ_zero(tt.take(j as int), tt[j as int]);
                    }
                    acc.push((tvec[j].clone(), 3));
                    proof {
                        assert forall|k2: int|
                            0 <= k2 < acc@.len() implies (#[trigger] acc@[k2]).1 as int
                            == word_count(
                            tt.take(j as int + 1),
                            Seq::<Seq<char>>::empty(),
                            acc@[k2].0@,
                        ) by {
                            if k2 == acc@.len() - 1 {
                                assert(acc@[k2].0@ == tt[j as int]);
                            } else {
                                assert(acc@[k2] == prev[k2]);
                            }
                        }
                        assert forall|j2: int|
                            0 <= j2 < j + 1 && is_valid_word(#[trigger] tt[j2]) implies exists|
                            k2: int,
                        |
                            0 <= k2 < acc@.len() && (#[trigger] acc@[k2]).0@ == tt[j2] by {
                            if j2 == j as int {
                                assert(acc@[acc@.len() - 1].0@ == tt[j2]);
                            } else {
                                let k2 = choose|k2: int|
                                    0 <= k2 < prev.len() && (#[trigger] prev[k2]).0@ == tt[j2];
                                assert(acc@[k2].0@ == tt[j2]);
                            }
                        }
                    }
                },
            }
        } else {
            proof {
                assert(forall|k: int|
                    0 <= k < acc@.len() ==> word_count(
                        tt.take(j as int + 1),
                        Seq::<Seq<char>>::empty(),
                        (#[trigger] acc@[k]).0@,
                    ) == word_count(tt.take(j as int), Seq::<Seq<char>>::empty(), acc@[k].0@));
            }
        }
        j += 1;
    }
    proof {
        assert(tt.take(tt.len() as int) =~= tt);
        assert(st.take(0) =~= Seq::<Seq<char>>::empty());
    }
    let mut valid_s: usize = 0;
    let mut j: usize = 0;
    while j < svec.len()
        invariant
            j <= svec@.len(),
            svec@.len() == st.len(),
            tvec@.len() == tt.len(),
            forall|k: int| 0 <= k < st.len() ==> (#[trigger] svec@[k])@ == st[k],
            valid_s == valid_count(st.take(j as int)),
            valid_s <= j,
            forall|k: int|
                0 <= k < acc@.len() ==> (#[trigger] acc@[k]).1 as int == word_count(
                    tt,
                    st.take(j as int),
                    acc@[k].0@,
                ),
            forall|k: int| 0 <= k < acc@.len() ==> is_valid_word((#[trigger] acc@[k]).0@),
            forall|k: int| 0 <= k < acc@.len() ==> (#[trigger] acc@[k]).1 > 0,
            forall|k1: int, k2: int|
                0 <= k1 < k2 < acc@.len() ==> (#[trigger] acc@[k1]).0@ != (#[trigger] acc@[k2]).0@,
            forall|j2: int|
                0 <= j2 < tt.len() && is_valid_word(#[trigger] tt[j2]) ==> exists|k: int|
                    0 <= k < acc@.len() && (#[trigger] acc@[k]).0@ == tt[j2],
            forall|j2: int|
                0 <= j2 < j && is_valid_word(#[trigger] st[j2]) ==> exists|k: int|
                    0 <= k < acc@.len() && (#[trigger] acc@[k]).0@ == st[j2],
        decreases svec@.len() - j,
    {
        proof {
            assert(st.take(j as int + 1).drop_last() =~= st.take(j as int));
            assert(st.take(j as int + 1).last() == st[j as int]);
        }
        let ghost prev = acc@;
        if is_valid_topic_word(svec[j].as_str()) {
            valid_s += 1;
            match find_word_pos(&acc, svec[j].as_str()) {
                Some(k) => {
                    proof {
                        lemma_count_bounds(tt, prev[k as int].0@);
                        lemma_count_bounds(st.take(j as int), prev[k as int].0@);
                        broadcast use vstd::std_specs::vec::axiom_spec_len;

                        assert(vstd::std_specs::vec::spec_vec_len(&tvec) == tvec@.len());
                        assert(tt.len() <= usize::MAX as int);
                    }
                    let t = acc[k].0.clone();
                    let total = acc[k].1 + 1;
                    acc.set(k, (t, total));
                    proof {
                        assert forall|k2: int|
                            0 <= k2 < acc@.len() implies (#[trigger] acc@[k2]).1 as int
                            == word_count(tt, st.take(j as int + 1), acc@[k2].0@) by {
                            if k2 == k as int {
                                assert(acc@[k2].0@ == st[j as int]);
                            } else {
                                assert(acc@[k2] == prev[k2]);
                                assert(prev[k2].0@ != prev[k as int].0@);
                            }
                        }
                        assert forall|j2: int|
                            0 <= j2 < j + 1 && is_valid_word(#[trigger] st[j2]) implies exists|
                            k2: int,
                        |
                            0 <= k2 < acc@.len() && (#[trigger] acc@[k2]).0@ == st[j2] by {
                            if j2 == j as int {
                                assert(acc@[k as int].0@ == st[j2]);
                            } else {
                                let k2 = choose|k2: int|
                                    0 <= k2 < prev.len() && (#[trigger] prev[k2]).0@ == st[j2];
                                assert(acc@[k2].0@ == st[j2]);
                            }
                        }
                        assert forall|j2: int|
                            0 <= j2 < tt.len() && is_valid_word(#[trigger] tt[j2]) implies exists|
                            k2: int,
                        |
                            0 <= k2 < acc@.len() && (#[trigger] acc@[k2]).0@ == tt[j2] by {
                            let k2 = choose|k2: int|
                                0 <= k2 < prev.len() && (#[trigger] prev[k2]).0@ == tt[j2];
                            assert(acc@[k2].0@ == tt[j2]);
                        }
                    }
                },
                None => {
                    proof {
                        assert forall|j2: int|
                            0 <= j2 < j implies #[trigger] st.take(j as int)[j2] != st[j as int] by {
                            if st[j2] == st[j as int] {
                                assert(is_valid_word(st[j2]));
                                let k = choose|k: int|
                                    0 <= k < prev.len() && (#[trigger] prev[k]).0@ == st[j2];
                            }
                        }
                        lemma_occ_zero(st.take(j as int), st[j as int]);
                        assert forall|j2: int|
                            0 <= j2 < tt.len() implies #[trigger] tt[j2] != st[j as int] by {
                            if tt[j2] == st[j as int] {
                                assert(is_valid_word(tt[j2]));
                                let k = choose|k: int|
                                    0 <= k < prev.len() && (#[trigger] prev[k]).0@ == tt[j2];
                            }
                        }
                        lemma_occ_zero(tt, st[j as int]);
                    }
                    acc.push((svec[j].clone(), 1));
                    proof {
                        assert forall|k2: int|
                            0 <= k2 < acc@.len() implies (#[trigger] acc@[k2]).1 as int
                            == word_count(tt, st.take(j as int + 1), acc@[k2].0@) by {
                            if k2 == acc@.len() - 1 {
                                assert(acc@[k2].0@ == st[j as int]);
                            } else {
                                assert(acc@[k2] == prev[k2]);
                            }
                        }
                        assert forall|j2: int|
                            0 <= j2 < j + 1 && is_valid_word(#[trigger] st[j2]) implies exists|
                            k2: int,
                        |
                            0 <= k2 < acc@.len() && (#[trigger] acc@[k2]).0@ == st[j2] by {
                            if j2 == j as int {
                                assert(acc@[acc@.len() - 1].0@ == st[j2]);
                            } else {
                                let k2 = choose|k2: int|
                                    0 <= k2 < prev.len() && (#[trigger] prev[k2]).0@ == st[j2];
                                assert(acc@[k2].0@ == st[j2]);
                            }
                        }
                        assert forall|j2: int|
                            0 <= j2 < tt.len() && is_valid_word(#[trigger] tt[j2]) implies exists|
                            k2: int,
                        |
                            0 <= k2 < acc@.len() && (#[trigger] acc@[k2]).0@ == tt[j2] by {
                            let k2 = choose|k2: int|
                                0 <= k2 < prev.len() && (#[trigger] prev[k2]).0@ == tt[j2];
                            assert(acc@[k2].0@ == tt[j2]);
                        }
                    }
                },
            }
        } else {
            proof {
                assert(forall|k: int|
                    0 <= k < acc@.len() ==> word_count(
                        tt,
                        st.take(j as int + 1),
                        (#[trigger] acc@[k]).0@,
                    ) == word_count(tt, st.take(j as int), acc@[k].0@));
            }
        }
        j += 1;
    }
    proof {
        assert(st.take(st.len() as int) =~= st);
    }
    let total_u: u128 = 3 * (valid_t as u128) + (valid_s as u128);
    proof {
        assert(total_u as int == total_count(tt, st));
    }
    if total_u == 0 {
        proof {
            assert forall|j2: int|
                0 <= j2 < tt.len() implies !is_valid_word(#[trigger] tt[j2]) by {
                if is_valid_word(tt[j2]) {
                    lemma_valid_at(tt, j2);
                    lemma_count_bounds(st, tt[j2]);
                }
            }
            assert forall|j2: int|
                0 <= j2 < st.len() implies !is_valid_word(#[trigger] st[j2]) by {
                if is_valid_word(st[j2]) {
                    lemma_valid_at(st, j2);
                    lemma_count_bounds(tt, st[j2]);
                }
            }
        }
        return Ok(Vec::new());
    }
    proof {
        assert(total_u <= 4 * (u64::MAX as u128));
    }
    // thin out the words under the minimum share
    let mut filtered: Vec<(String, u128)> = Vec::new();
    let mut k: usize = 0;
    while k < acc.len()
        invariant
            k <= acc@.len(),
            total_u as int == total_count(tt, st),
            total_u > 0,
            forall|k2: int|
                0 <= k2 < acc@.len() ==> (#[trigger] acc@[k2]).1 as int == word_count(
                    tt,
                    st,
                    acc@[k2].0@,
                ),
            forall|k2: int| 0 <= k2 < acc@.len() ==> is_valid_word((#[trigger] acc@[k2]).0@),
            forall|k2: int| 0 <= k2 < acc@.len() ==> (#[trigger] acc@[k2]).1 > 0,
            forall|k1: int, k2: int|
                0 <= k1 < k2 < acc@.len() ==> (#[trigger] acc@[k1]).0@ != (#[trigger] acc@[k2]).0@,
            forall|k2: int|
                0 <= k2 < filtered@.len() ==> (#[trigger] filtered@[k2]).1 as int == word_count(
                    tt,
                    st,
                    filtered@[k2].0@,
                ) && is_valid_word(filtered@[k2].0@) && filtered@[k2].1 > 0 && 20 * (
                filtered@[k2].1 as int) >= total_u as int,
            forall|k1: int, k2: int|
                0 <= k1 < k2 < filtered@.len() ==> (#[trigger] filtered@[k1]).0@
                    != (#[trigger] filtered@[k2]).0@,
            forall|k2: int|
                0 <= k2 < k && 20 * ((#[trigger] acc@[k2]).1 as int) >= total_u as int
                    ==> exists|k3: int|
                    0 <= k3 < filtered@.len() && (#[trigger] filtered@[k3]).0@ == acc@[k2].0@,
            forall|k3: int|
                0 <= k3 < filtered@.len() ==> exists|k2: int|
                    0 <= k2 < k && (#[trigger] filtered@[k3]).0@ == acc@[k2].0@,
            total_u <= 4 * (u64::MAX as u128),
        decreases acc@.len() - k,
    {
        proof {
            lemma_word_le_total(tt, st, acc@[k as int].0@);
            assert(acc@[k as int].1 <= total_u);
        }
        if 20 * acc[k].1 >= total_u {
            let ghost prevf = filtered@;
            filtered.push((acc[k].0.clone(), acc[k].1));
            proof {
                assert forall|k1: int, k2: int|
                    0 <= k1 < k2 < filtered@.len() implies (#[trigger] filtered@[k1]).0@
                    != (#[trigger] filtered@[k2]).0@ by {
                    if k2 == filtered@.len() - 1 {
                        let ka = choose|k3: int|
                            0 <= k3 < k && (#[trigger] prevf[k1]).0@ == acc@[k3].0@;
                        assert(acc@[ka].0@ != acc@[k as int].0@);
                    } else {
                        assert(filtered@[k1] == prevf[k1] && filtered@[k2] == prevf[k2]);
                    }
                }
                assert forall|k2: int|
                    0 <= k2 < k + 1 && 20 * ((#[trigger] acc@[k2]).1 as int)
                        >= total_u as int implies exists|k3: int|
                    0 <= k3 < filtered@.len() && (#[trigger] filtered@[k3]).0@
                        == acc@[k2].0@ by {
                    if k2 == k as int {
                        assert(filtered@[filtered@.len() - 1].0@ == acc@[k2].0@);
                    } else {
                        let k3 = choose|k3: int|
                            0 <= k3 < prevf.len() && (#[trigger] prevf[k3]).0@ == acc@[k2].0@;
                        assert(filtered@[k3].0@ == acc@[k2].0@);
                    }
                }
            }
        }
        k += 1;
    }
    // rank what is left, heaviest first
    let ghost groups = filtered@;
    let mut pairs: Vec<(u128, (String, u128))> = Vec::new();
    let mut filtered = filtered;
    while filtered.len() > 0
        invariant
            groups.len() == pairs@.len() + filtered@.len(),
            filtered@ == groups.skip(pairs@.len() as int),
            crate::order::strip_seq(pairs@) == groups.take(pairs@.len() as int),
            forall|k2: int|
                0 <= k2 < pairs@.len() ==> (#[trigger] pairs@[k2]).0 == pairs@[k2].1.1,
        decreases filtered@.len(),
    {
        let ghost n = pairs@.len() as int;
        let e = filtered.remove(0);
        proof {
            assert(groups.skip(n)[0] == groups[n]);
            assert(groups.skip(n).remove(0) =~= groups.skip(n + 1));
        }
        pairs.push((e.1, e));
        proof {
            assert(crate::order::strip_seq(pairs@) =~= groups.take(n + 1)) by {
                assert(groups.take(n + 1)[n] == groups[n]);
                assert(forall|q: int| 0 <= q < n ==> groups.take(n + 1)[q] == groups.take(n)[q]);
            }
        }
    }
    proof {
        assert(groups.take(pairs@.len() as int) =~= groups);
    }
    let ghost orig_pairs = pairs@;
    crate::order::sort_pairs_desc(&mut pairs);
    proof {
        crate::order::lemma_strip_multiset(orig_pairs, pairs@);
        crate::order::lemma_multiset_transfer(
            orig_pairs,
            pairs@,
            |pr: (u128, (String, u128))| pr.0 == pr.1.1,
        );
    }
    let mut v = crate::order::strip_pairs(pairs);
    let ghost full = v@;
    proof {
        crate::order::lemma_multiset_transfer(
            groups,
            full,
            |e: (String, u128)| e.1 as int == word_count(tt, st, e.0@) && is_valid_word(e.0@)
                && e.1 > 0 && 20 * (e.1 as int) >= total_count(tt, st),
        );
        crate::order::lemma_distinct_by_transfer(groups, full, |e: (String, u128)| e.0@);
        assert forall|i2: int, j2: int| 0 <= i2 < j2 < full.len() implies (#[trigger] full[i2]).1
            >= (#[trigger] full[j2]).1 by {
            assert(full[i2] == crate::order::strip_seq(pairs@)[i2]);
            assert(full[j2] == crate::order::strip_seq(pairs@)[j2]);
        }
        broadcast use vstd::seq_lib::group_to_multiset_ensures;

        assert(full.len() == full.to_multiset().len());
        assert(groups.len() == groups.to_multiset().len());
    }
    let m: usize = if v.len() < 10 {
        v.len()
    } else {
        10
    };
    v.truncate(m);
    proof {
        assert(v@ =~= full.take(m as int));
        crate::order::lemma_take_multiset_subset(full, m as int);
        if m > 0 {
            let le = |x: (String, u128), y: (String, u128)| x.1 >= y.1;
            assert(vstd::relations::sorted_by(full, le));
            crate::order::lemma_sorted_cut(full, m as int, le);
            assert(v@.last() == full[m as int - 1]);
        }
    }
    // convert weighted counts to normalized scores
    let mut out: Vec<(String, u64)> = Vec::new();
    let mut k: usize = 0;
    while k < v.len()
        invariant
            k <= v@.len(),
            total_u > 0,
            total_u as int == total_count(tt, st),
            total_u <= 4 * (u64::MAX as u128),
            forall|k2: int|
                0 <= k2 < v@.len() ==> (#[trigger] v@[k2]).1 as int == word_count(
                    tt,
                    st,
                    v@[k2].0@,
                ) && is_valid_word(v@[k2].0@) && v@[k2].1 > 0 && 20 * (v@[k2].1 as int)
                    >= total_u as int,
            out@.len() == k,
            forall|k2: int|
                0 <= k2 < k ==> (#[trigger] out@[k2]).0@ == v@[k2].0@ && out@[k2].1 as int == (
                v@[k2].1 as int) * 1000000 / (total_u as int),
        decreases v@.len() - k,
    {
        proof {
            lemma_word_le_total(tt, st, v@[k as int].0@);
            assert(v@[k as int].1 <= total_u);
            vstd::arithmetic::mul::lemma_mul_inequality(
                v@[k as int].1 as int,
                total_u as int,
                1000000,
            );
            vstd::arithmetic::div_mod::lemma_div_is_ordered(
                (v@[k as int].1 as int) * 1000000,
                (total_u as int) * 1000000,
                total_u as int,
            );
            vstd::arithmetic::div_mod::lemma_div_by_multiple(1000000, total_u as int);
            assert((total_u as int) * 1000000 == 1000000 * (total_u as int))
                by (nonlinear_arith);
            assert(((total_u as int) * 1000000) / (total_u as int) == 1000000);
        }
        let sc = (v[k].1 * 1000000) / total_u;
        out.push((v[k].0.clone(), sc as u64));
        k += 1;
    }
    proof {
        // the returned pairs inherit distinctness, order and the thinning
        // bound from the ranked words they mirror
        assert forall|k1: int, k2: int|
            0 <= k1 < k2 < out@.len() implies (#[trigger] out@[k1]).0@
            != (#[trigger] out@[k2]).0@ by {
            assert(v@[k1].0@ != v@[k2].0@);
        }
        assert forall|k1: int, k2: int|
            0 <= k1 < k2 < out@.len() implies word_count(tt, st, (#[trigger] out@[k1]).0@)
            >= word_count(tt, st, (#[trigger] out@[k2]).0@) by {
            assert(full[k1].1 >= full[k2].1);
        }
        assert forall|j2: int|
            0 <= j2 < tt.len() && is_valid_word(#[trigger] tt[j2]) && 20 * word_count(
            tt,
            st,
            tt[j2],
        ) >= total_count(tt, st) implies (exists|k2: int|
            0 <= k2 < out@.len() && (#[trigger] out@[k2]).0@ == tt[j2]) || (out@.len() == 10
            && word_count(tt, st, tt[j2]) <= word_count(tt, st, out@.last().0@)) by {
            let t = tt[j2];
            let ka = choose|k2: int| 0 <= k2 < acc@.len() && (#[trigger] acc@[k2]).0@ == t;
            assert(20 * (acc@[ka].1 as int) >= total_u as int);
            let kg = choose|k2: int| 0 <= k2 < groups.len() && (#[trigger] groups[k2]).0@ == t;
            let e = groups[kg];
            assert(groups.contains(e));
            broadcast use vstd::seq_lib::group_to_multiset_ensures;

            assert(groups.to_multiset().count(e) > 0);
            assert(full.to_multiset().count(e) > 0);
            assert(full.contains(e));
            let kf = choose|k2: int| 0 <= k2 < full.len() && full[k2] == e;
            if kf < m {
                assert(v@[kf] == e);
                assert(out@[kf].0@ == t);
            } else {
                assert(full.len() > m as int);
                assert(m == 10);
                assert(out@.len() == 10);
                if exists|k2: int| 0 <= k2 < out@.len() && (#[trigger] out@[k2]).0@ == t {
                } else {
                    assert forall|k2: int| 0 <= k2 < m implies full[k2] != e by {
                        if full[k2] == e {
                            assert(v@[k2] == e);
                            assert(out@[k2].0@ == t);
                        }
                    }
                    assert(v@.to_multiset().count(e) == 0) by {
                        if v@.to_multiset().count(e) > 0 {
                            assert(v@.contains(e));
                            let kk = choose|k2: int| 0 <= k2 < v@.len() && v@[k2] == e;
                            assert(full[kk] == e);
                        }
                    }
                    assert(full.to_multiset().count(e) > v@.to_multiset().count(e));
                    assert(e.1 <= full[m as int - 1].1);
                    assert(word_count(tt, st, t) <= word_count(tt, st, out@.last().0@));
                }
            }
        }
        assert forall|j2: int|
            0 <= j2 < st.len() && is_valid_word(#[trigger] st[j2]) && 20 * word_count(
            tt,
            st,
            st[j2],
        ) >= total_count(tt, st) implies (exists|k2: int|
            0 <= k2 < out@.len() && (#[trigger] out@[k2]).0@ == st[j2]) || (out@.len() == 10
            && word_count(tt, st, st[j2]) <= word_count(tt, st, out@.last().0@)) by {
            let t = st[j2];
            let ka = choose|k2: int| 0 <= k2 < acc@.len() && (#[trigger] acc@[k2]).0@ == t;
            assert(20 * (acc@[ka].1 as int) >= total_u as int);
            let kg = choose|k2: int| 0 <= k2 < groups.len() && (#[trigger] groups[k2]).0@ == t;
            let e = groups[kg];
            assert(groups.contains(e));
            broadcast use vstd::seq_lib::group_to_multiset_ensures;

            assert(groups.to_multiset().count(e) > 0);
            assert(full.to_multiset().count(e) > 0);
            assert(full.contains(e));
            let kf = choose|k2: int| 0 <= k2 < full.len() && full[k2] == e;
            if kf < m {
                assert(v@[kf] == e);
                assert(out@[kf].0@ == t);
            } else {
                assert(full.len() > m as int);
                assert(m == 10);
                assert(out@.len() == 10);
                if exists|k2: int| 0 <= k2 < out@.len() && (#[trigger] out@[k2]).0@ == t {
                } else {
                    assert forall|k2: int| 0 <= k2 < m implies full[k2] != e by {
                        if full[k2] == e {
                            assert(v@[k2] == e);
                            assert(out@[k2].0@ == t);
                        }
                    }
                    assert(v@.to_multiset().count(e) == 0) by {
                        if v@.to_multiset().count(e) > 0 {
                            assert(v@.contains(e));
                            let kk = choose|k2: int| 0 <= k2 < v@.len() && v@[k2] == e;
                            assert(full[kk] == e);
                        }
                    }
                    assert(full.to_multiset().count(e) > v@.to_multiset().count(e));
                    assert(e.1 <= full[m as int - 1].1);
                    assert(word_count(tt, st, t) <= word_count(tt, st, out@.last().0@));
                }
            }
        }
    }
    Ok(out)
}



// ---------------------------------------------------------------------------
// Promotion of well-read topics into automatic reading patterns.
// ---------------------------------------------------------------------------

/// Recomputes the heaviest topics over read articles and promotes each one
/// whose aggregate score reaches two (in millionths) into a "topic" pattern
/// from source "auto"; re-promotion strengthens the existing pattern's
/// weight instead of duplicating it.  Patterns are never removed here, and
/// every new or strengthened pattern is such a qualifying topic.
pub fn update_auto_patterns(db: &mut crate::db::Database) -> (r: Result<(), PatinaError>)
    requires
        old(db).wf(),
    ensures
        final(db).wf(),
        r matches Err(e) ==> e is DatabaseError && final(db).next_pattern_id == i64::MAX,
        r is Ok ==> exists|top: Seq<(String, u128)>|
            crate::db::top_topics_post(old(db).topics@, old(db).articles@, top, 20) && (forall|
                k: int,
            |
                0 <= k < top.len() && (#[trigger] top[k]).1 >= 2000000
                    ==> crate::db::has_pattern_key(final(db).patterns@, "topic"@, top[k].0@)),
        final(db).feeds@ == old(db).feeds@,
        final(db).articles@ == old(db).articles@,
        final(db).topics@ == old(db).topics@,
        final(db).next_feed_id == old(db).next_feed_id,
        final(db).next_article_id == old(db).next_article_id,
        final(db).patterns@.len() >= old(db).patterns@.len(),
        forall|j: int|
            0 <= j < old(db).patterns@.len() ==> {
                let po = #[trigger] old(db).patterns@[j];
                let pn = final(db).patterns@[j];
                &&& pn.id == po.id
                &&& pn.pattern_type == po.pattern_type
                &&& pn.value == po.value
                &&& pn.source == po.source
                &&& pn.created_at == po.created_at
                &&& (pn.weight_tenths == po.weight_tenths || pn.weight_tenths
                    == crate::db::bump_weight(po.weight_tenths))
                &&& (pn.weight_tenths != po.weight_tenths ==> po.pattern_type@ == "topic"@
                    && crate::db::read_topic_total(old(db).topics@, old(db).articles@, po.value@)
                    >= 2000000)
            },
        forall|j: int|
            old(db).patterns@.len() <= j < final(db).patterns@.len() ==> {
                let pn = #[trigger] final(db).patterns@[j];
                &&& pn.pattern_type@ == "topic"@
                &&& pn.source@ == "auto"@
                &&& pn.weight_tenths == 10
                &&& crate::db::read_topic_total(old(db).topics@, old(db).articles@, pn.value@)
                    >= 2000000
            },
{
    let top = match db.get_top_read_topics(20) {
        Ok(t) => t,
        Err(e) => {
            return Err(e);
        },
    };
    let ghost base = *db;
    let mut k: usize = 0;
    while k < top.len()
        invariant
            base == *old(db),
            base.wf(),
            db.wf(),
            k <= top@.len(),
            forall|k2: int|
                0 <= k2 < top@.len() ==> (#[trigger] top@[k2]).1 as int
                    == crate::db::read_topic_total(base.topics@, base.articles@, top@[k2].0@),
            forall|k1: int, k2: int|
                0 <= k1 < k2 < top@.len() ==> (#[trigger] top@[k1]).0@ != (#[trigger] top@[k2]).0@,
            crate::db::top_topics_post(base.topics@, base.articles@, top@, 20),
            forall|k2: int|
                0 <= k2 < k && (#[trigger] top@[k2]).1 >= 2000000 ==> crate::db::has_pattern_key(
                    db.patterns@,
                    "topic"@,
                    top@[k2].0@,
                ),
            db.feeds@ == base.feeds@,
            db.articles@ == base.articles@,
            db.topics@ == base.topics@,
            db.next_feed_id == base.next_feed_id,
            db.next_article_id == base.next_article_id,
            db.patterns@.len() >= base.patterns@.len(),
            forall|j: int|
                0 <= j < base.patterns@.len() ==> {
                    let po = #[trigger] base.patterns@[j];
                    let pn = db.patterns@[j];
                    &&& pn.id == po.id
                    &&& pn.pattern_type == po.pattern_type
                    &&& pn.value == po.value
                    &&& pn.source == po.source
                    &&& pn.created_at == po.created_at
                    &&& (pn.weight_tenths == po.weight_tenths || pn.weight_tenths
                        == crate::db::bump_weight(po.weight_tenths))
                    &&& (pn.weight_tenths != po.weight_tenths ==> po.pattern_type@ == "topic"@
                        && crate::db::read_topic_total(base.topics@, base.articles@, po.value@)
                        >= 2000000 && (exists|k2: int|
                        0 <= k2 < k && po.value@ == (#[trigger] top@[k2]).0@))
                },
            forall|j: int|
                base.patterns@.len() <= j < db.patterns@.len() ==> {
                    let pn = #[trigger] db.patterns@[j];
                    &&& pn.pattern_type@ == "topic"@
                    &&& pn.source@ == "auto"@
                    &&& pn.weight_tenths == 10
                    &&& crate::db::read_topic_total(base.topics@, base.articles@, pn.value@)
                        >= 2000000
                    &&& (exists|k2: int| 0 <= k2 < k && pn.value@ == (#[trigger] top@[k2]).0@)
                },
        decreases top@.len() - k,
    {
        if top[k].1 >= 2000000 {
            let ghost mid = *db;
            let added = db.add_reading_pattern("topic", top[k].0.as_str(), "auto");
            match added {
                Ok(_) => {
                    proof {
                        let t = top@[k as int].0@;
                        if crate::db::has_pattern_key(mid.patterns@, "topic"@, t) {
                            assert forall|j: int|
                                0 <= j < base.patterns@.len() implies {
                                let po = #[trigger] base.patterns@[j];
                                let pn = db.patterns@[j];
                                &&& pn.id == po.id
                                &&& pn.pattern_type == po.pattern_type
                                &&& pn.value == po.value
                                &&& pn.source == po.source
                                &&& pn.created_at == po.created_at
                                &&& (pn.weight_tenths == po.weight_tenths || pn.weight_tenths
                                    == crate::db::bump_weight(po.weight_tenths))
                                &&& (pn.weight_tenths != po.weight_tenths ==> po.pattern_type@
                                    == "topic"@ && crate::db::read_topic_total(
                                    base.topics@,
                                    base.articles@,
                                    po.value@,
                                ) >= 2000000 && (exists|k2: int|
                                    0 <= k2 < k + 1 && po.value@ == (#[trigger] top@[k2]).0@))
                            } by {
                                let pm = mid.patterns@[j];
                                if pm.pattern_type@ == "topic"@ && pm.value@ == t {
                                    assert(db.patterns@[j].weight_tenths
                                        == crate::db::bump_weight(pm.weight_tenths));
                                    if pm.weight_tenths != base.patterns@[j].weight_tenths {
                                        let k2 = choose|k2: int|
                                            0 <= k2 < k && base.patterns@[j].value@
                                                == (#[trigger] top@[k2]).0@;
                                        assert(top@[k2].0@ != top@[k as int].0@);
                                        assert(false);
                                    }
                                    assert(base.patterns@[j].value@ == top@[k as int].0@);
                                } else {
                                    assert(db.patterns@[j] == pm);
                                }
                            }
                            assert forall|j: int|
                                base.patterns@.len() <= j < db.patterns@.len() implies {
                                let pn = #[trigger] db.patterns@[j];
                                &&& pn.pattern_type@ == "topic"@
                                &&& pn.source@ == "auto"@
                                &&& pn.weight_tenths == 10
                                &&& crate::db::read_topic_total(
                                    base.topics@,
                                    base.articles@,
                                    pn.value@,
                                ) >= 2000000
                                &&& (exists|k2: int|
                                    0 <= k2 < k + 1 && pn.value@ == (#[trigger] top@[k2]).0@)
                            } by {
                                let pm = mid.patterns@[j];
                                if pm.pattern_type@ == "topic"@ && pm.value@ == t {
                                    let k2 = choose|k2: int|
                                        0 <= k2 < k && pm.value@ == (#[trigger] top@[k2]).0@;
                                    assert(top@[k2].0@ != top@[k as int].0@);
                                    assert(false);
                                } else {
                                    assert(db.patterns@[j] == pm);
                                }
                            }
                            assert forall|k2: int|
                                0 <= k2 < k + 1 && (#[trigger] top@[k2]).1
                                    >= 2000000 implies crate::db::has_pattern_key(
                                db.patterns@,
                                "topic"@,
                                top@[k2].0@,
                            ) by {
                                if k2 == k as int {
                                    let j = choose|j: int|
                                        0 <= j < mid.patterns@.len() && (#[trigger] mid.patterns@[j]).pattern_type@
                                            == "topic"@ && mid.patterns@[j].value@ == t;
                                    assert(db.patterns@[j].pattern_type@ == "topic"@
                                        && db.patterns@[j].value@ == t);
                                } else {
                                    let j = choose|j: int|
                                        0 <= j < mid.patterns@.len() && (#[trigger] mid.patterns@[j]).pattern_type@
                                            == "topic"@ && mid.patterns@[j].value@ == top@[k2].0@;
                                    if mid.patterns@[j].pattern_type@ == "topic"@
                                        && mid.patterns@[j].value@ == t {
                                        assert(db.patterns@[j].pattern_type@ == "topic"@
                                            && db.patterns@[j].value@ == top@[k2].0@);
                                    } else {
                                        assert(db.patterns@[j] == mid.patterns@[j]);
                                    }
                                }
                            }
                        } else {
                            assert(db.patterns@.len() == mid.patterns@.len() + 1);
                            assert(db.patterns@.last().value@ == t);
                            assert forall|j: int|
                                base.patterns@.len() <= j < db.patterns@.len() implies {
                                let pn = #[trigger] db.patterns@[j];
                                &&& pn.pattern_type@ == "topic"@
                                &&& pn.source@ == "auto"@
                                &&& pn.weight_tenths == 10
                                &&& crate::db::read_topic_total(
                                    base.topics@,
                                    base.articles@,
                                    pn.value@,
                                ) >= 2000000
                                &&& (exists|k2: int|
                                    0 <= k2 < k + 1 && pn.value@ == (#[trigger] top@[k2]).0@)
                            } by {
                                if j < mid.patterns@.len() {
                                    assert(db.patterns@[j] == mid.patterns@[j]);
                                    let k2 = choose|k2: int|
                                        0 <= k2 < k && mid.patterns@[j].value@
                                            == (#[trigger] top@[k2]).0@;
                                    assert(db.patterns@[j].value@ == top@[k2].0@);
                                } else {
                                    assert(db.patterns@[j] == db.patterns@.last());
                                    assert(db.patterns@[j].value@ == top@[k as int].0@);
                                }
                            }
                            assert forall|k2: int|
                                0 <= k2 < k + 1 && (#[trigger] top@[k2]).1
                                    >= 2000000 implies crate::db::has_pattern_key(
                                db.patterns@,
                                "topic"@,
                                top@[k2].0@,
                            ) by {
                                if k2 == k as int {
                                    assert(db.patterns@.last().pattern_type@ == "topic"@
                                        && db.patterns@.last().value@ == t);
                                } else {
                                    let j = choose|j: int|
                                        0 <= j < mid.patterns@.len() && (#[trigger] mid.patterns@[j]).pattern_type@
                                            == "topic"@ && mid.patterns@[j].value@ == top@[k2].0@;
                                    assert(db.patterns@[j] == mid.patterns@[j]);
                                }
                            }
                        }
                    }
                },
                Err(e) => {
                    return Err(e);
                },
            }
        }
        k += 1;
    }
    proof {
        assert(crate::db::top_topics_post(old(db).topics@, old(db).articles@, top@, 20));
    }
    Ok(())
}


} // verus!
