//! The frequency-weighted visual summary of a group: corpus construction,
//! whitespace tokenization, exclusion filtering, frequency counting with a
//! counting ceiling, the bucketed saturation policy, and the slug transform
//! that names the rendered artifact.

use vstd::prelude::*;
use vstd::pervasive::VecAdditionalExecFns;

verus! {

broadcast use vstd::string::group_string_axioms;

/// The characters treated as whitespace when splitting a corpus into tokens.
pub open spec fn is_space_char(c: char) -> bool {
    c == ' ' || c == '\t' || c == '\n' || c == '\r'
}

pub(crate) fn space_char(c: char) -> (r: bool)
    ensures
        r == is_space_char(c),
{
    c == ' ' || c == '\t' || c == '\n' || c == '\r'
}

/// One step of a left-to-right scan over the corpus: finished tokens so far,
/// and the unfinished run of non-whitespace characters.
pub open spec fn token_fold(s: Seq<char>) -> (Seq<Seq<char>>, Seq<char>)
    decreases s.len(),
{
    if s.len() == 0 {
        (Seq::empty(), Seq::empty())
    } else {
        let prev = token_fold(s.drop_last());
        let c = s.last();
        if is_space_char(c) {
            if prev.1.len() > 0 {
                (prev.0.push(prev.1), Seq::<char>::empty())
            } else {
                prev
            }
        } else {
            (prev.0, prev.1.push(c))
        }
    }
}

/// The tokens of a corpus: maximal runs of non-whitespace characters, in
/// order, case preserved.
pub open spec fn tokens_of(s: Seq<char>) -> Seq<Seq<char>> {
    let fold = token_fold(s);
    if fold.1.len() > 0 {
        fold.0.push(fold.1)
    } else {
        fold.0
    }
}

/// Splits a corpus into its tokens: the maximal runs of non-whitespace
/// characters, in order, case preserved.
pub fn tokenize(text: &str) -> (toks: Vec<String>)
    ensures
        toks.deep_view() == tokens_of(text@),
{
    let n = text.unicode_len();
    let mut toks: Vec<String> = Vec::new();
    let mut i: usize = 0;
    let mut start: usize = 0;
    while i < n
        invariant
            n == text@.len(),
            start <= i <= n,
            token_fold(text@.take(i as int)).0 == toks.deep_view(),
            token_fold(text@.take(i as int)).1 == text@.subrange(start as int, i as int),
        decreases n - i,
    {
        proof {
            assert(text@.take(i + 1 as int).drop_last() =~= text@.take(i as int));
            assert(text@.take(i + 1 as int).last() == text@[i as int]);
        }
        let c = text.get_char(i);
        if space_char(c) {
            if start < i {
                let token = text.substring_char(start, i).to_string();
                proof {
                    assert(text@.subrange(start as int, i as int).len() > 0);
                }
                toks.push(token);
                proof {
                    assert(toks.deep_view() =~= token_fold(text@.take(i + 1 as int)).0);
                }
            }
            start = i + 1;
            proof {
                assert(token_fold(text@.take(i + 1 as int)).1 =~= text@.subrange(
                    i + 1 as int,
                    i + 1 as int,
                ));
            }
        } else {
            proof {
                assert(token_fold(text@.take(i + 1 as int)).1 =~= text@.subrange(
                    start as int,
                    i + 1 as int,
                ));
            }
        }
        i = i + 1;
    }
    proof {
        assert(text@.take(n as int) =~= text@);
    }
    if start < n {
        let token = text.substring_char(start, n).to_string();
        toks.push(token);
        proof {
            assert(toks.deep_view() =~= tokens_of(text@));
        }
    }
    toks
}

/// The tokens that survive exclusion filtering: those not exactly equal to a
/// literal of the vocabulary, in order, occurrence counts preserved.
pub open spec fn retained_tokens(toks: Seq<Seq<char>>, vocab: Seq<Seq<char>>) -> Seq<Seq<char>>
    decreases toks.len(),
{
    if toks.len() == 0 {
        Seq::empty()
    } else {
        let rest = retained_tokens(toks.drop_last(), vocab);
        if vocab.contains(toks.last()) {
            rest
        } else {
            rest.push(toks.last())
        }
    }
}

/// A token exactly equal to a literal of the exclusion vocabulary never
/// appears among the retained tokens, regardless of its raw frequency.
pub proof fn lemma_excluded_token_never_retained(
    toks: Seq<Seq<char>>,
    vocab: Seq<Seq<char>>,
    t: Seq<char>,
)
    requires
        vocab.contains(t),
    ensures
        !retained_tokens(toks, vocab).contains(t),
    decreases toks.len(),
{
    broadcast use vstd::seq_lib::lemma_seq_contains_after_push;

    if toks.len() > 0 {
        lemma_excluded_token_never_retained(toks.drop_last(), vocab, t);
    }
}

/// Every retained token came from the corpus and is outside the vocabulary.
pub proof fn lemma_retained_token_from_corpus(
    toks: Seq<Seq<char>>,
    vocab: Seq<Seq<char>>,
    t: Seq<char>,
)
    requires
        retained_tokens(toks, vocab).contains(t),
    ensures
        toks.contains(t),
        !vocab.contains(t),
    decreases toks.len(),
{
    broadcast use vstd::seq_lib::lemma_seq_contains_after_push;

    if toks.len() > 0 {
        let rest = retained_tokens(toks.drop_last(), vocab);
        if rest.contains(t) {
            lemma_retained_token_from_corpus(toks.drop_last(), vocab, t);
            assert(toks.drop_last().push(toks.last()).contains(t));
            assert(toks.drop_last().push(toks.last()) =~= toks);
        } else {
            assert(t == toks.last());
            assert(toks.drop_last().push(toks.last()) =~= toks);
            assert(toks.drop_last().push(toks.last()).contains(t));
        }
    }
}

/// True when some entry of `vocab` equals `t`.
pub fn contains_token(vocab: &Vec<String>, t: &String) -> (r: bool)
    ensures
        r == vocab.deep_view().contains(t@),
{
    let mut j: usize = 0;
    while j < vocab.len()
        invariant
            j <= vocab@.len(),
            forall|m: int| 0 <= m < j ==> vocab.deep_view()[m] != t@,
        decreases vocab@.len() - j,
    {
        if vocab[j].eq(t) {
            proof {
                assert(vocab.deep_view()[j as int] == t@);
            }
            return true;
        }
        j = j + 1;
    }
    false
}

/// Removes from `toks` every token exactly equal to a vocabulary literal,
/// keeping the rest in order with their multiplicity.
pub fn filter_excluded(toks: &Vec<String>, vocab: &Vec<String>) -> (kept: Vec<String>)
    ensures
        kept.deep_view() == retained_tokens(toks.deep_view(), vocab.deep_view()),
{
    let mut kept: Vec<String> = Vec::new();
    let mut i: usize = 0;
    while i < toks.len()
        invariant
            i <= toks@.len(),
            kept.deep_view() == retained_tokens(
                toks.deep_view().take(i as int),
                vocab.deep_view(),
            ),
        decreases toks@.len() - i,
    {
        proof {
            assert(toks.deep_view().take(i + 1 as int).drop_last() =~= toks.deep_view().take(
                i as int,
            ));
            assert(toks.deep_view().take(i + 1 as int).last() == toks.deep_view()[i as int]);
        }
        if !contains_token(vocab, &toks[i]) {
            kept.push(toks[i].clone());
            proof {
                assert(kept.deep_view() =~= retained_tokens(
                    toks.deep_view().take(i + 1 as int),
                    vocab.deep_view(),
                ));
            }
        }
        i = i + 1;
    }
    proof {
        assert(toks.deep_view().take(toks@.len() as int) =~= toks.deep_view());
    }
    kept
}

/// How many times token `t` occurs in `toks`.
pub open spec fn count_of(toks: Seq<Seq<char>>, t: Seq<char>) -> nat
    decreases toks.len(),
{
    if toks.len() == 0 {
        0
    } else {
        count_of(toks.drop_last(), t) + if toks.last() == t {
            1nat
        } else {
            0nat
        }
    }
}

proof fn lemma_count_of_le_len(toks: Seq<Seq<char>>, t: Seq<char>)
    ensures
        count_of(toks, t) <= toks.len(),
    decreases toks.len(),
{
    if toks.len() > 0 {
        lemma_count_of_le_len(toks.drop_last(), t);
    }
}

fn find_key(counts: &Vec<(String, usize)>, t: &String) -> (r: Option<usize>)
    ensures
        match r {
            Some(p) => 0 <= p < counts@.len() && counts@[p as int].0@ == t@,
            None => forall|p: int| 0 <= p < counts@.len() ==> counts@[p].0@ != t@,
        },
{
    let mut p: usize = 0;
    while p < counts.len()
        invariant
            p <= counts@.len(),
            forall|m: int| 0 <= m < p ==> counts@[m].0@ != t@,
        decreases counts@.len() - p,
    {
        if counts[p].0.eq(t) {
            return Some(p);
        }
        p = p + 1;
    }
    None
}

/// Counts the occurrences of each distinct token of `toks`, keys in first
/// occurrence order: every token of the corpus has exactly one entry, and
/// each entry carries its exact occurrence count.
pub fn count_frequencies(toks: &Vec<String>) -> (counts: Vec<(String, usize)>)
    ensures
        forall|p: int|
            0 <= p < counts@.len() ==> #[trigger] counts@[p].1 == count_of(
                toks.deep_view(),
                counts@[p].0@,
            ),
        forall|p: int, q: int|
            0 <= p < q < counts@.len() ==> counts@[p].0@ != counts@[q].0@,
        forall|p: int| 0 <= p < counts@.len() ==> toks.deep_view().contains(#[trigger] counts@[p].0@),
        forall|j: int|
            0 <= j < toks@.len() ==> exists|p: int|
                0 <= p < counts@.len() && counts@[p].0@ == #[trigger] toks.deep_view()[j],
{
    let ghost deep = toks.deep_view();
    let mut counts: Vec<(String, usize)> = Vec::new();
    let mut j: usize = 0;
    while j < toks.len()
        invariant
            j <= toks@.len(),
            deep == toks.deep_view(),
            forall|p: int|
                0 <= p < counts@.len() ==> #[trigger] counts@[p].1 == count_of(
                    deep.take(j as int),
                    counts@[p].0@,
                ),
            forall|p: int, q: int| 0 <= p < q < counts@.len() ==> counts@[p].0@ != counts@[q].0@,
            forall|p: int|
                0 <= p < counts@.len() ==> deep.take(j as int).contains(#[trigger] counts@[p].0@),
            forall|m: int|
                0 <= m < j ==> exists|p: int|
                    0 <= p < counts@.len() && counts@[p].0@ == #[trigger] deep[m],
        decreases toks@.len() - j,
    {
        proof {
            assert(deep.take(j + 1 as int).drop_last() =~= deep.take(j as int));
            assert(deep.take(j + 1 as int).last() == deep[j as int]);
            assert(deep[j as int] == toks@[j as int]@);
            lemma_count_of_le_len(deep.take(j as int), deep[j as int]);
        }
        let token = &toks[j];
        let ghost before = counts@;
        match find_key(&counts, token) {
            Some(p) => {
                let prior = counts[p].1;
                let key = counts[p].0.clone();
                proof {
                    assert(counts@[p as int].1 == count_of(deep.take(j as int), deep[j as int]));
                }
                counts.set(p, (key, prior + 1));
                proof {
                    assert(forall|q: int|
                        0 <= q < counts@.len() ==> #[trigger] counts@[q].0 == before[q].0);
                    assert forall|m: int| 0 <= m < j + 1 implies exists|q: int|
                        0 <= q < counts@.len() && counts@[q].0@ == #[trigger] deep[m] by {
                        if m < j {
                            let q = choose|q: int|
                                0 <= q < before.len() && before[q].0@ == #[trigger] deep[m];
                            assert(counts@[q].0@ == deep[m]);
                        } else {
                            assert(counts@[p as int].0@ == deep[j as int]);
                        }
                    }
                }
            },
            None => {
                proof {
                    assert(forall|q: int| 0 <= q < counts@.len() ==> counts@[q].0@ != deep[j as int]);
                    assert forall|m: int| 0 <= m < j implies deep[m] != deep[j as int] by {
                        let q = choose|q: int|
                            0 <= q < counts@.len() && counts@[q].0@ == #[trigger] deep[m];
                    }
                    lemma_count_of_zero(deep.take(j as int), deep[j as int]);
                }
                counts.push((token.clone(), 1));
                proof {
                    assert forall|m: int| 0 <= m < j + 1 implies exists|q: int|
                        0 <= q < counts@.len() && counts@[q].0@ == #[trigger] deep[m] by {
                        if m < j {
                            let q = choose|q: int|
                                0 <= q < before.len() && before[q].0@ == #[trigger] deep[m];
                            assert(counts@[q].0@ == deep[m]);
                        } else {
                            assert(counts@[before.len() as int].0@ == deep[j as int]);
                        }
                    }
                }
            },
        }
        proof {
            assert forall|q: int| 0 <= q < counts@.len() implies deep.take(j + 1 as int).contains(
                #[trigger] counts@[q].0@,
            ) by {
                lemma_take_contains_iff(deep, j as int, counts@[q].0@);
            }
        }
        j = j + 1;
    }
    proof {
        assert(deep.take(toks@.len() as int) =~= deep);
        assert forall|m: int| 0 <= m < toks@.len() implies exists|p: int|
            0 <= p < counts@.len() && counts@[p].0@ == #[trigger] toks.deep_view()[m] by {
            let p = choose|p: int| 0 <= p < counts@.len() && counts@[p].0@ == #[trigger] deep[m];
            assert(counts@[p].0@ == toks.deep_view()[m]);
        }
    }
    counts
}

proof fn lemma_count_of_zero(toks: Seq<Seq<char>>, t: Seq<char>)
    requires
        forall|m: int| 0 <= m < toks.len() ==> toks[m] != t,
    ensures
        count_of(toks, t) == 0,
    decreases toks.len(),
{
    if toks.len() > 0 {
        lemma_count_of_zero(toks.drop_last(), t);
    }
}

proof fn lemma_take_contains_iff(s: Seq<Seq<char>>, j: int, t: Seq<char>)
    requires
        0 <= j < s.len(),
    ensures
        s.take(j + 1).contains(t) <==> (s.take(j).contains(t) || s[j] == t),
{
    broadcast use vstd::seq_lib::lemma_seq_contains_after_push;

    assert(s.take(j + 1) =~= s.take(j).push(s[j]));
}

/// The greatest occurrence count among the entries, or 0 when there are none.
pub fn max_count(counts: &Vec<(String, usize)>) -> (m: usize)
    ensures
        forall|p: int| 0 <= p < counts@.len() ==> #[trigger] counts@[p].1 <= m,
        counts@.len() > 0 ==> exists|p: int| 0 <= p < counts@.len() && #[trigger] counts@[p].1 == m,
        counts@.len() == 0 ==> m == 0,
{
    let mut m: usize = 0;
    let mut p: usize = 0;
    while p < counts.len()
        invariant
            p <= counts@.len(),
            forall|q: int| 0 <= q < p ==> #[trigger] counts@[q].1 <= m,
            p > 0 ==> exists|q: int| 0 <= q < p && #[trigger] counts@[q].1 == m,
            p == 0 ==> m == 0,
        decreases counts@.len() - p,
    {
        if counts[p].1 > m || p == 0 {
            m = counts[p].1;
        }
        p = p + 1;
    }
    m
}

/// The first `cap` tokens of the corpus: the ceiling on how many occurrences
/// are counted when weighting a large corpus.
pub fn take_capped(toks: Vec<String>, cap: usize) -> (capped: Vec<String>)
    ensures
        toks@.len() <= cap ==> capped == toks,
        toks@.len() > cap ==> capped@ == toks@.take(cap as int),
{
    if toks.len() <= cap {
        toks
    } else {
        let mut capped = toks;
        capped.truncate(cap);
        capped
    }
}

/// Saturation, in hundredths, assigned to a token whose normalized frequency
/// in percent is `pct` (0 to 100): the frequency itself at the top of the
/// table, then fixed steps downward.
pub open spec fn saturation_spec(pct: int) -> int {
    if 90 <= pct <= 100 {
        pct
    } else if 20 <= pct <= 89 {
        100
    } else if 10 <= pct <= 19 {
        80
    } else if 6 <= pct <= 9 {
        60
    } else if 3 <= pct <= 5 {
        30
    } else {
        20
    }
}

/// Saturation bucket, in hundredths, for a token seen `count` times when the
/// most frequent retained token was seen `max_count` times.
pub fn saturation_hundredths(count: usize, max_count: usize) -> (r: usize)
    requires
        1 <= count <= max_count,
        max_count <= 100_000,
    ensures
        r == saturation_spec(100 * count as int / max_count as int),
{
    proof {
        assert(100 * count as int / max_count as int <= 100) by (nonlinear_arith)
            requires
                1 <= count as int <= max_count as int,
        ;
    }
    let pct: usize = 100 * count / max_count;
    if 90 <= pct {
        pct
    } else if 20 <= pct {
        100
    } else if 10 <= pct {
        80
    } else if 6 <= pct {
        60
    } else if 3 <= pct {
        30
    } else {
        20
    }
}

/// The first `cap` tokens of a corpus: what the counting ceiling leaves.
pub open spec fn capped_tokens(toks: Seq<Seq<char>>, cap: nat) -> Seq<Seq<char>> {
    if toks.len() <= cap {
        toks
    } else {
        toks.take(cap as int)
    }
}

/// The rendered token set of a corpus: its tokens up to the counting
/// ceiling, with every exclusion-vocabulary literal removed.
pub open spec fn report_tokens(corpus: Seq<char>, vocab: Seq<Seq<char>>, cap: nat) -> Seq<
    Seq<char>,
> {
    retained_tokens(capped_tokens(tokens_of(corpus), cap), vocab)
}

proof fn lemma_count_pos(toks: Seq<Seq<char>>, t: Seq<char>)
    requires
        toks.contains(t),
    ensures
        count_of(toks, t) >= 1,
    decreases toks.len(),
{
    if toks.len() > 0 && toks.last() != t {
        let i = choose|i: int| 0 <= i < toks.len() && toks[i] == t;
        assert(toks.drop_last()[i] == t);
        assert(toks.drop_last().contains(t));
        lemma_count_pos(toks.drop_last(), t);
    }
}

proof fn lemma_retained_len_le(toks: Seq<Seq<char>>, vocab: Seq<Seq<char>>)
    ensures
        retained_tokens(toks, vocab).len() <= toks.len(),
    decreases toks.len(),
{
    if toks.len() > 0 {
        lemma_retained_len_le(toks.drop_last(), vocab);
    }
}

/// The greatest count among the summary's entries, 0 when there are none.
pub open spec fn max_entry_count(ws: Seq<(String, usize, usize)>) -> nat
    decreases ws.len(),
{
    if ws.len() == 0 {
        0
    } else {
        let rest = max_entry_count(ws.drop_last());
        if ws.last().1 > rest {
            ws.last().1 as nat
        } else {
            rest
        }
    }
}

proof fn lemma_max_entry_le(ws: Seq<(String, usize, usize)>, m: usize)
    requires
        forall|p: int| 0 <= p < ws.len() ==> (#[trigger] ws[p]).1 <= m,
    ensures
        max_entry_count(ws) <= m,
    decreases ws.len(),
{
    if ws.len() > 0 {
        assert(forall|p: int| 0 <= p < ws.drop_last().len() ==> (#[trigger] ws.drop_last()[p]).1
            <= m);
        lemma_max_entry_le(ws.drop_last(), m);
    }
}

proof fn lemma_max_entry_ge(ws: Seq<(String, usize, usize)>, p: int)
    requires
        0 <= p < ws.len(),
    ensures
        max_entry_count(ws) >= ws[p].1,
    decreases ws.len(),
{
    if p < ws.len() - 1 {
        assert(ws.drop_last()[p] == ws[p]);
        lemma_max_entry_ge(ws.drop_last(), p);
    }
}

/// The frequency-weighted summary of a corpus: tokens counted up to the
/// ceiling `cap`, the exclusion vocabulary removed, and each distinct
/// retained token listed once, in first occurrence order, with its exact
/// occurrence count and the saturation bucket of its frequency normalized
/// to the most frequent retained token.
pub fn weighted_tokens(corpus: &str, vocab: &Vec<String>, cap: usize) -> (ws: Vec<
    (String, usize, usize),
>)
    requires
        1 <= cap <= 100_000,
    ensures
        forall|p: int|
            0 <= p < ws@.len() ==> (#[trigger] ws@[p]).1 == count_of(
                report_tokens(corpus@, vocab.deep_view(), cap as nat),
                ws@[p].0@,
            ),
        forall|p: int, q: int| 0 <= p < q < ws@.len() ==> ws@[p].0@ != ws@[q].0@,
        forall|p: int|
            0 <= p < ws@.len() ==> report_tokens(corpus@, vocab.deep_view(), cap as nat).contains(
                (#[trigger] ws@[p]).0@,
            ),
        forall|j: int|
            0 <= j < report_tokens(corpus@, vocab.deep_view(), cap as nat).len() ==> exists|p: int|
                0 <= p < ws@.len() && ws@[p].0@ == #[trigger] report_tokens(
                    corpus@,
                    vocab.deep_view(),
                    cap as nat,
                )[j],
        forall|p: int|
            0 <= p < ws@.len() ==> (#[trigger] ws@[p]).2 == saturation_spec(
                100 * ws@[p].1 as int / max_entry_count(ws@) as int,
            ),
{
    let toks = tokenize(corpus);
    let capped = take_capped(toks, cap);
    proof {
        assert(capped.deep_view() =~= capped_tokens(tokens_of(corpus@), cap as nat));
    }
    let kept = filter_excluded(&capped, vocab);
    let ghost target = report_tokens(corpus@, vocab.deep_view(), cap as nat);
    proof {
        assert(kept.deep_view() == target);
        lemma_retained_len_le(capped.deep_view(), vocab.deep_view());
    }
    let counts = count_frequencies(&kept);
    let m = max_count(&counts);
    proof {
        if counts@.len() > 0 {
            let q = choose|q: int| 0 <= q < counts@.len() && #[trigger] counts@[q].1 == m;
            lemma_count_of_le_len(target, counts@[q].0@);
        }
    }
    let mut ws: Vec<(String, usize, usize)> = Vec::new();
    let mut j: usize = 0;
    while j < counts.len()
        invariant
            j <= counts@.len(),
            ws@.len() == j,
            1 <= cap <= 100_000,
            kept.deep_view() == target,
            m <= 100_000,
            forall|p: int| 0 <= p < counts@.len() ==> (#[trigger] counts@[p]).1 <= m,
            forall|p: int|
                0 <= p < counts@.len() ==> (#[trigger] counts@[p]).1 == count_of(
                    target,
                    counts@[p].0@,
                ),
            forall|p: int, q: int| 0 <= p < q < counts@.len() ==> counts@[p].0@ != counts@[q].0@,
            forall|p: int|
                0 <= p < counts@.len() ==> target.contains(#[trigger] counts@[p].0@),
            forall|p: int|
                0 <= p < j ==> #[trigger] ws@[p] == (
                    counts@[p].0,
                    counts@[p].1,
                    saturation_spec(100 * counts@[p].1 as int / m as int) as usize,
                ),
        decreases counts@.len() - j,
    {
        let count = counts[j].1;
        proof {
            lemma_count_pos(target, counts@[j as int].0@);
        }
        let sat = saturation_hundredths(count, m);
        ws.push((counts[j].0.clone(), count, sat));
        j = j + 1;
    }
    proof {
        lemma_max_entry_le(ws@, m);
        if counts@.len() > 0 {
            let q = choose|q: int| 0 <= q < counts@.len() && #[trigger] counts@[q].1 == m;
            assert(ws@[q].1 == m);
            lemma_max_entry_ge(ws@, q);
        }
        assert forall|jj: int| 0 <= jj < target.len() implies exists|p: int|
            0 <= p < ws@.len() && ws@[p].0@ == #[trigger] target[jj] by {
            let p = choose|p: int|
                0 <= p < counts@.len() && counts@[p].0@ == #[trigger] kept.deep_view()[jj];
            assert(ws@[p].0@ == target[jj]);
        }
    }
    ws
}

/// The domain exclusion terms removed from every corpus besides the general
/// stop-word baseline: brand and vendor names, product lines, generic tech
/// references, and survey meta terms, each as exact literals in its lower,
/// upper and capitalized variants (matching is by exact literal only, never
/// case-insensitive).
pub const DOMAIN_EXCLUSION_TEXT: &'static str = "Dell dell DELL DellEMC dellemc DELLEMC
DellEMC2 dellemc2 DELLEMC2 DellTechnologies delltechnologies DELLTECHNOLOGIES
DellTech delltech DELLTECH Alienware alienware ALIENWARE HPE hpe Hpe
HewlettPackardEnterprise hewlettpackardenterprise HEWLETTPACKARDENTERPRISE
HP hp Hp Lenovo lenovo LENOVO IBM ibm Ibm Apple apple APPLE Acer acer ACER
Asus asus ASUS Microsoft microsoft MICROSOFT Intel intel INTEL AMD amd Amd
Nvidia nvidia NVIDIA VMware vmware VMWARE Cisco cisco CISCO Oracle oracle
ORACLE EMC emc Emc Inspiron inspiron INSPIRON Latitude latitude LATITUDE
Precision precision PRECISION OptiPlex optiplex OPTIPLEX XPS xps Xps
Vostro vostro VOSTRO Wyse wyse WYSE PowerEdge poweredge POWEREDGE
PowerVault powervault POWERVAULT EqualLogic equallogic EQUALLOGIC
Compellent compellent COMPELLENT Tech tech TECH Technologies technologies
TECHNOLOGIES Technology technology TECHNOLOGY InfoTech infotech INFOTECH
IT it It Survey survey SURVEY Questionnaire questionnaire QUESTIONNAIRE
Respondent respondent RESPONDENT Response response RESPONSE Feedback
feedback FEEDBACK N/A n/a NA na Na None none NONE Nothing nothing NOTHING
NotApplicable notapplicable NOTAPPLICABLE Comment comment COMMENT Form
form FORM Please please PLEASE Thank thank THANK Thanks thanks THANKS
User user USER Q1 q1 Q2 q2 Q3 q3 Q4 q4 Q5 q5
ID id Id TicketNumber ticketnumber TICKETNUMBER CaseNumber casenumber
CASENUMBER RefNumber refnumber REFNUMBER";

/// The full exclusion vocabulary: the tokens of a general stop-word baseline
/// followed by the domain exclusion terms.
pub fn exclusion_vocabulary(base_text: &str) -> (vocab: Vec<String>)
    ensures
        vocab.deep_view() == tokens_of(base_text@) + tokens_of(DOMAIN_EXCLUSION_TEXT@),
{
    let mut vocab = tokenize(base_text);
    let mut domain = tokenize(DOMAIN_EXCLUSION_TEXT);
    vocab.append(&mut domain);
    proof {
        assert(vocab.deep_view() =~= tokens_of(base_text@) + tokens_of(DOMAIN_EXCLUSION_TEXT@));
    }
    vocab
}

/// The Unicode White_Space characters: exactly what trimming surrounding
/// whitespace removes.
pub open spec fn is_unicode_space(c: char) -> bool {
    c == '\u{0009}' || c == '\u{000A}' || c == '\u{000B}' || c == '\u{000C}' || c
        == '\u{000D}' || c == '\u{0020}' || c == '\u{0085}' || c == '\u{00A0}' || c
        == '\u{1680}' || ('\u{2000}' <= c && c <= '\u{200A}') || c == '\u{2028}' || c
        == '\u{2029}' || c == '\u{202F}' || c == '\u{205F}' || c == '\u{3000}'
}

pub(crate) fn unicode_space_char(c: char) -> (r: bool)
    ensures
        r == is_unicode_space(c),
{
    c == '\u{0009}' || c == '\u{000A}' || c == '\u{000B}' || c == '\u{000C}' || c
        == '\u{000D}' || c == '\u{0020}' || c == '\u{0085}' || c == '\u{00A0}' || c
        == '\u{1680}' || ('\u{2000}' <= c && c <= '\u{200A}') || c == '\u{2028}' || c
        == '\u{2029}' || c == '\u{202F}' || c == '\u{205F}' || c == '\u{3000}'
}

/// What `str::to_lowercase` returns, as a function of the characters alone.
pub uninterp spec fn lower_of(s: Seq<char>) -> Seq<char>;

/// Relies on `str::to_lowercase`: the Unicode lowercase mapping of the
/// string, depending on its characters alone; an empty string stays empty.
#[verifier::external_body]
fn lowercase(s: &str) -> (r: String)
    ensures
        r@ == lower_of(s@),
        s@.len() == 0 ==> r@.len() == 0,
{
    s.to_lowercase()
}

/// The character replacement of the slug transform: whitespace and path
/// separators become underscores; every other character is kept as it is.
pub open spec fn slug_char(c: char) -> char {
    if is_unicode_space(c) || c == '/' || c == '\\' {
        '_'
    } else {
        c
    }
}

/// The filesystem-safe name of a group's artifact: the key lower-cased by
/// the Unicode mapping, then each whitespace or path-separator character
/// replaced with an underscore.
pub open spec fn slug_of(name: Seq<char>) -> Seq<char> {
    lower_of(name).map_values(|c: char| slug_char(c))
}

/// Relies on `String::push`: appends exactly the given character.
#[verifier::external_body]
fn push_char(s: &mut String, c: char)
    ensures
        final(s)@ == old(s)@.push(c),
{
    s.push(c);
}

/// Derives a group's artifact name from its key: lower-cased, whitespace
/// and path separators replaced with underscores.
pub fn slug(name: &str) -> (r: String)
    ensures
        r@ == slug_of(name@),
{
    let lowered = lowercase(name);
    let n = lowered.as_str().unicode_len();
    let mut r = String::new();
    let mut i: usize = 0;
    while i < n
        invariant
            n == lowered@.len(),
            lowered@ == lower_of(name@),
            i <= n,
            r@.len() == i,
            forall|m: int| 0 <= m < i ==> r@[m] == slug_char(lowered@[m]),
        decreases n - i,
    {
        let c = lowered.as_str().get_char(i);
        let mapped: char = if unicode_space_char(c) || c == '/' || c == '\\' {
            '_'
        } else {
            c
        };
        push_char(&mut r, mapped);
        i = i + 1;
    }
    proof {
        assert(r@ =~= slug_of(name@));
    }
    r
}

/// The group's lines joined into one corpus with single-space separators.
pub open spec fn joined_with_spaces(values: Seq<Seq<char>>) -> Seq<char>
    decreases values.len(),
{
    if values.len() == 0 {
        Seq::empty()
    } else if values.len() == 1 {
        values.last()
    } else {
        joined_with_spaces(values.drop_last()) + seq![' '] + values.last()
    }
}

/// Concatenates a group's lines with a single space between consecutive
/// lines, forming the corpus the word summary is computed from.
pub fn join_with_spaces(values: &Vec<String>) -> (corpus: String)
    ensures
        corpus@ == joined_with_spaces(values.deep_view()),
{
    let mut corpus = String::new();
    let mut i: usize = 0;
    while i < values.len()
        invariant
            i <= values@.len(),
            corpus@ == joined_with_spaces(values.deep_view().take(i as int)),
        decreases values@.len() - i,
    {
        proof {
            assert(values.deep_view().take(i + 1 as int).drop_last() =~= values.deep_view().take(
                i as int,
            ));
            assert(values.deep_view().take(i + 1 as int).last() == values.deep_view()[i as int]);
            reveal_strlit(" ");
        }
        if i > 0 {
            corpus.append(" ");
            proof {
                assert(corpus@ =~= joined_with_spaces(values.deep_view().take(i as int)) + seq![
                    ' ',
                ]);
            }
        }
        corpus.append(values[i].as_str());
        proof {
            assert(corpus@ =~= joined_with_spaces(values.deep_view().take(i + 1 as int)));
        }
        i = i + 1;
    }
    proof {
        assert(values.deep_view().take(values@.len() as int) =~= values.deep_view());
    }
    corpus
}

} // verus!
