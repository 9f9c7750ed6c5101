//! The BPE model: word counting, merge-rule learning, and tokenization.

use vstd::prelude::*;
use crate::text::{good_word, split_ws, str_views, split_words, lex_lt, str_lex_lt};
use crate::merge::{
    apply_merge, chars_of, encode_word, encode_words, encode_text, merge_views,
    chars_to_symbols, apply_merge_vec, encode_word_vec,
};

verus! {

/// A trained model: the learned merge rules, in the order they were learned,
/// and the vocabulary of every symbol the training run produced.
#[derive(Clone)]
pub struct BPE {
    pub merges: Vec<(String, String)>,
    pub vocab: Vec<String>,
}

/// How many times `w` occurs in `ws`.
pub open spec fn count_in(ws: Seq<Seq<char>>, w: Seq<char>) -> nat
    decreases ws.len(),
{
    if ws.len() == 0 {
        0
    } else {
        (if ws[0] == w {
            1nat
        } else {
            0nat
        }) + count_in(ws.skip(1), w)
    }
}

pub proof fn lemma_count_in_le(ws: Seq<Seq<char>>, w: Seq<char>)
    ensures
        count_in(ws, w) <= ws.len(),
    decreases ws.len(),
{
    if ws.len() > 0 {
        lemma_count_in_le(ws.skip(1), w);
    }
}

pub proof fn lemma_count_in_push(ws: Seq<Seq<char>>, x: Seq<char>, w: Seq<char>)
    ensures
        count_in(ws.push(x), w) == count_in(ws, w) + (if x == w {
            1nat
        } else {
            0nat
        }),
    decreases ws.len(),
{
    if ws.len() == 0 {
        assert(ws.push(x)[0] == x);
        assert(ws.push(x).skip(1) =~= Seq::<Seq<char>>::empty());
        assert(count_in(Seq::<Seq<char>>::empty(), w) == 0);
        assert(count_in(ws, w) == 0);
    } else {
        assert(ws.push(x)[0] == ws[0]);
        assert(ws.push(x).skip(1) =~= ws.skip(1).push(x));
        lemma_count_in_push(ws.skip(1), x, w);
        assert(count_in(ws.push(x), w) == (if ws[0] == w {
            1nat
        } else {
            0nat
        }) + count_in(ws.skip(1).push(x), w));
        assert(count_in(ws, w) == (if ws[0] == w {
            1nat
        } else {
            0nat
        }) + count_in(ws.skip(1), w));
    }
}

/// The distinct-word counts of a vector of entries, as the trainer keeps them.
pub open spec fn keys_distinct(cs: Seq<(String, usize)>) -> bool {
    forall|i: int, j: int| 0 <= i < j < cs.len() ==> cs[i].0@ != cs[j].0@
}

/// The keys of a count list.
pub open spec fn keys_of(cs: Seq<(String, usize)>) -> Seq<Seq<char>> {
    cs.map_values(|e: (String, usize)| e.0@)
}

/// The distinct words of `ws`, each at its first appearance, in order.
pub open spec fn first_keys(ws: Seq<Seq<char>>) -> Seq<Seq<char>>
    decreases ws.len(),
{
    if ws.len() == 0 {
        Seq::empty()
    } else {
        let prev = first_keys(ws.drop_last());
        if prev.contains(ws.last()) {
            prev
        } else {
            prev.push(ws.last())
        }
    }
}

/// How many of the adjacent positions of `ps` before position `k` hold `p`.
pub open spec fn occ_upto(ps: Seq<Seq<char>>, k: int, p: (Seq<char>, Seq<char>)) -> nat
    decreases k,
{
    if k <= 0 {
        0
    } else {
        occ_upto(ps, k - 1, p) + (if k < ps.len() && ps[k - 1] == p.0 && ps[k] == p.1 {
            1nat
        } else {
            0nat
        })
    }
}

/// How many adjacent positions of `ps` hold the pair `p`.
pub open spec fn pair_occ(ps: Seq<Seq<char>>, p: (Seq<char>, Seq<char>)) -> nat {
    occ_upto(ps, ps.len() as int, p)
}

/// The weighted count of `p` over a word-count list at rule stage `ms`:
/// each word's occurrences of `p`, weighted by the word's count.
pub open spec fn words_weight(
    wl: Seq<(String, usize)>,
    ms: Seq<(Seq<char>, Seq<char>)>,
    p: (Seq<char>, Seq<char>),
) -> nat
    decreases wl.len(),
{
    if wl.len() == 0 {
        0
    } else {
        (wl[0].1 as nat) * pair_occ(encode_word(wl[0].0@, ms), p) + words_weight(wl.skip(1), ms, p)
    }
}

/// As `words_weight`, over a plain list of distinct words with their counts
/// taken from the corpus.
pub open spec fn key_weight(
    ds: Seq<Seq<char>>,
    ws: Seq<Seq<char>>,
    ms: Seq<(Seq<char>, Seq<char>)>,
    p: (Seq<char>, Seq<char>),
) -> nat
    decreases ds.len(),
{
    if ds.len() == 0 {
        0
    } else {
        count_in(ws, ds[0]) * pair_occ(encode_word(ds[0], ms), p) + key_weight(
            ds.skip(1),
            ws,
            ms,
            p,
        )
    }
}

/// The weighted count of the pair `p` across a corpus's words at rule stage
/// `ms`: each distinct word's occurrences of `p` in its current split,
/// weighted by the word's occurrence count.
pub open spec fn corpus_weight(
    ws: Seq<Seq<char>>,
    ms: Seq<(Seq<char>, Seq<char>)>,
    p: (Seq<char>, Seq<char>),
) -> nat {
    key_weight(first_keys(ws), ws, ms, p)
}

/// A count as the trainer accumulates it: capped at the machine's maximum.
pub open spec fn sat_cap(n: nat) -> nat {
    if n > usize::MAX {
        usize::MAX as nat
    } else {
        n
    }
}

/// Rule `i` of `ms` was a best pair when it was learned: no pair that then
/// occurred in any corpus word's split had a greater weighted count, and
/// among pairs of equal weighted count none was lexicographically less.
pub open spec fn rule_maximal(ws: Seq<Seq<char>>, ms: Seq<(Seq<char>, Seq<char>)>, i: int) -> bool {
    forall|wi: int, kk: int|
        0 <= wi < ws.len() && 0 <= kk < encode_word(ws[wi], ms.take(i)).len() - 1 ==> {
            let q = (
                #[trigger] encode_word(ws[wi], ms.take(i))[kk],
                encode_word(ws[wi], ms.take(i))[kk + 1],
            );
            sat_cap(corpus_weight(ws, ms.take(i), q)) <= sat_cap(corpus_weight(ws, ms.take(i), ms[i]))
                && (sat_cap(corpus_weight(ws, ms.take(i), q)) == sat_cap(
                corpus_weight(ws, ms.take(i), ms[i]),
            ) ==> !pair_lt(q, ms[i]))
        }
}

pub proof fn lemma_words_weight_push(
    wl: Seq<(String, usize)>,
    e: (String, usize),
    ms: Seq<(Seq<char>, Seq<char>)>,
    p: (Seq<char>, Seq<char>),
)
    ensures
        words_weight(wl.push(e), ms, p) == words_weight(wl, ms, p) + (e.1 as nat) * pair_occ(
            encode_word(e.0@, ms),
            p,
        ),
    decreases wl.len(),
{
    if wl.len() == 0 {
        assert(wl.push(e)[0] == e);
        assert(wl.push(e).skip(1) =~= Seq::<(String, usize)>::empty());
        assert(words_weight(Seq::<(String, usize)>::empty(), ms, p) == 0);
        assert(words_weight(wl, ms, p) == 0);
    } else {
        assert(wl.push(e)[0] == wl[0]);
        assert(wl.push(e).skip(1) =~= wl.skip(1).push(e));
        lemma_words_weight_push(wl.skip(1), e, ms, p);
    }
}

/// A pair that never occurs contributes no weight.
pub proof fn lemma_occ_upto_zero(ps: Seq<Seq<char>>, k: int, p: (Seq<char>, Seq<char>))
    requires
        forall|j: int|
            0 <= j < k && j + 1 < ps.len() ==> !(#[trigger] ps[j] == p.0 && ps[j + 1] == p.1),
    ensures
        occ_upto(ps, k, p) == 0,
    decreases k,
{
    if k > 0 {
        lemma_occ_upto_zero(ps, k - 1, p);
    }
}

pub proof fn lemma_words_weight_zero(
    wl: Seq<(String, usize)>,
    ms: Seq<(Seq<char>, Seq<char>)>,
    p: (Seq<char>, Seq<char>),
)
    requires
        forall|i: int|
            0 <= i < wl.len() ==> pair_occ(encode_word(#[trigger] wl[i].0@, ms), p) == 0,
    ensures
        words_weight(wl, ms, p) == 0,
    decreases wl.len(),
{
    if wl.len() > 0 {
        assert(pair_occ(encode_word(wl[0].0@, ms), p) == 0);
        assert forall|i: int| 0 <= i < wl.skip(1).len() implies pair_occ(
            encode_word(#[trigger] wl.skip(1)[i].0@, ms),
            p,
        ) == 0 by {
            assert(wl.skip(1)[i] == wl[i + 1]);
        }
        lemma_words_weight_zero(wl.skip(1), ms, p);
    }
}

/// A word-count list whose counts come from the corpus weighs pairs exactly
/// as the corpus does.
pub proof fn lemma_key_weight_words(
    wl: Seq<(String, usize)>,
    ws: Seq<Seq<char>>,
    ms: Seq<(Seq<char>, Seq<char>)>,
    p: (Seq<char>, Seq<char>),
)
    requires
        forall|i: int| 0 <= i < wl.len() ==> #[trigger] wl[i].1 == count_in(ws, wl[i].0@),
    ensures
        key_weight(keys_of(wl), ws, ms, p) == words_weight(wl, ms, p),
    decreases wl.len(),
{
    if wl.len() == 0 {
        assert(keys_of(wl) =~= Seq::<Seq<char>>::empty());
    } else {
        assert(keys_of(wl)[0] == wl[0].0@);
        assert(keys_of(wl).skip(1) =~= keys_of(wl.skip(1)));
        assert forall|i: int| 0 <= i < wl.skip(1).len() implies #[trigger] wl.skip(1)[i].1
            == count_in(ws, wl.skip(1)[i].0@) by {
            assert(wl.skip(1)[i] == wl[i + 1]);
        }
        lemma_key_weight_words(wl.skip(1), ws, ms, p);
    }
}

impl BPE {
    /// The rule sequence, as pairs of character sequences.
    pub open spec fn merges_view(self) -> Seq<(Seq<char>, Seq<char>)> {
        merge_views(self.merges@)
    }

    /// The vocabulary, as character sequences.
    pub open spec fn vocab_view(self) -> Seq<Seq<char>> {
        str_views(self.vocab@)
    }

    /// Every symbol the model holds is nonempty and whitespace-free, and the
    /// vocabulary lists no symbol twice.
    pub open spec fn wf(self) -> bool {
        &&& forall|i: int|
            0 <= i < self.merges_view().len() ==> good_word(#[trigger] self.merges_view()[i].0)
                && good_word(self.merges_view()[i].1)
        &&& forall|i: int| 0 <= i < self.vocab_view().len() ==> good_word(#[trigger] self.vocab_view()[i])
        &&& forall|i: int, j: int|
            0 <= i < j < self.vocab_view().len() ==> self.vocab_view()[i] != self.vocab_view()[j]
    }

    /// An empty model: no rules, no vocabulary.
    pub fn new() -> (r: Self)
        ensures
            r.wf(),
            r.merges_view().len() == 0,
            r.vocab_view().len() == 0,
    {
        BPE { merges: Vec::new(), vocab: Vec::new() }
    }

    /// The occurrence count of every distinct whitespace-delimited word of
    /// `text`, each word exactly once, in order of first appearance.
    pub fn get_word_counts(text: &str) -> (r: Vec<(String, usize)>)
        ensures
            keys_distinct(r@),
            keys_of(r@) == first_keys(split_ws(text@)),
            forall|i: int|
                0 <= i < r@.len() ==> #[trigger] r@[i].1 == count_in(split_ws(text@), r@[i].0@),
            forall|i: int| 0 <= i < r@.len() ==> split_ws(text@).contains(#[trigger] r@[i].0@),
            forall|w: Seq<char>|
                split_ws(text@).contains(w) ==> exists|i: int| 0 <= i < r@.len() && #[trigger] r@[i].0@ == w,
    {
        let words = split_words(text);
        let ghost ws = split_ws(text@);
        let mut counts: Vec<(String, usize)> = Vec::new();
        let mut j: usize = 0;
        proof {
            assert(ws.take(0) =~= Seq::<Seq<char>>::empty());
            assert(keys_of(counts@) =~= first_keys(ws.take(0)));
        }
        while j < words.len()
            invariant
                j <= words.len(),
                str_views(words@) == ws,
                keys_distinct(counts@),
                keys_of(counts@) == first_keys(ws.take(j as int)),
                forall|i: int|
                    0 <= i < counts@.len() ==> #[trigger] counts@[i].1 == count_in(
                        ws.take(j as int),
                        counts@[i].0@,
                    ),
                forall|i: int| 0 <= i < counts@.len() ==> ws.contains(#[trigger] counts@[i].0@),
                forall|w: Seq<char>|
                    ws.take(j as int).contains(w) ==> exists|i: int|
                        0 <= i < counts@.len() && #[trigger] counts@[i].0@ == w,
            decreases words.len() - j,
        {
            let w = &words[j];
            proof {
                assert(ws[j as int] == w@);
                assert(ws.take(j + 1) =~= ws.take(j as int).push(w@));
            }
            let ghost old_counts = counts@;
            let pos = Self::find_key(&counts, w);
            match pos {
                Some(idx) => {
                    let c = counts[idx].1;
                    proof {
                        lemma_count_in_le(ws.take(j as int), counts@[idx as int].0@);
                    }
                    let nw = w.clone();
                    counts[idx] = (nw, c + 1);
                    proof {
                        assert(counts@ =~= old_counts.update(idx as int, (counts@[idx as int].0, (c
                            + 1) as usize)));
                        assert(counts@[idx as int].0@ == w@);
                        assert(keys_of(counts@) =~= keys_of(old_counts));
                        assert(ws.take(j + 1).drop_last() =~= ws.take(j as int));
                        assert(ws.take(j + 1).last() == w@);
                        assert(first_keys(ws.take(j as int)).contains(w@)) by {
                            assert(keys_of(old_counts)[idx as int] == w@);
                        }
                        assert(first_keys(ws.take(j + 1)) == first_keys(ws.take(j as int)));
                        assert forall|i: int| 0 <= i < counts@.len() implies #[trigger] counts@[i].1
                            == count_in(ws.take(j + 1), counts@[i].0@) by {
                            lemma_count_in_push(ws.take(j as int), w@, counts@[i].0@);
                            if i == idx {
                                assert(old_counts[i].0@ == w@);
                            } else {
                                assert(counts@[i] == old_counts[i]);
                                assert(counts@[i].0@ != w@);
                            }
                        }
                        assert forall|w2: Seq<char>| #[trigger] ws.take(j + 1).contains(w2) implies exists|i: int|
                            0 <= i < counts@.len() && #[trigger] counts@[i].0@ == w2 by {
                            let k = choose|k: int|
                                0 <= k < ws.take(j + 1).len() && #[trigger] ws.take(j + 1)[k]
                                    == w2;
                            if k < j {
                                assert(ws.take(j as int)[k] == w2);
                                assert(ws.take(j as int).contains(w2));
                                let i0 = choose|i0: int|
                                    0 <= i0 < old_counts.len() && #[trigger] old_counts[i0].0@
                                        == w2;
                                assert(counts@[i0].0@ == w2);
                            } else {
                                assert(w2 == w@);
                                assert(counts@[idx as int].0@ == w2);
                            }
                        }
                    }
                },
                None => {
                    proof {
                        assert(!ws.take(j as int).contains(w@)) by {
                            if ws.take(j as int).contains(w@) {
                                let i0 = choose|i0: int|
                                    0 <= i0 < counts@.len() && #[trigger] counts@[i0].0@ == w@;
                                assert(false);
                            }
                        }
                    }
                    let nw = w.clone();
                    counts.push((nw, 1));
                    proof {
                        assert(counts@ =~= old_counts.push(counts@[counts@.len() - 1]));
                        assert(counts@[counts@.len() - 1].0@ == w@);
                        assert(keys_of(counts@) =~= keys_of(old_counts).push(w@));
                        assert(ws.take(j + 1).drop_last() =~= ws.take(j as int));
                        assert(ws.take(j + 1).last() == w@);
                        assert(!first_keys(ws.take(j as int)).contains(w@)) by {
                            if first_keys(ws.take(j as int)).contains(w@) {
                                let i0 = choose|i0: int|
                                    0 <= i0 < keys_of(old_counts).len() && #[trigger] keys_of(
                                        old_counts,
                                    )[i0] == w@;
                                assert(old_counts[i0].0@ == w@);
                                assert(false);
                            }
                        }
                        assert(first_keys(ws.take(j + 1)) == keys_of(old_counts).push(w@));
                        assert forall|i: int| 0 <= i < counts@.len() implies #[trigger] counts@[i].1
                            == count_in(ws.take(j + 1), counts@[i].0@) by {
                            lemma_count_in_push(ws.take(j as int), w@, counts@[i].0@);
                            if i < counts@.len() - 1 {
                                assert(counts@[i] == old_counts[i]);
                                assert(counts@[i].0@ != w@);
                            } else {
                                lemma_count_in_none(ws.take(j as int), w@);
                            }
                        }
                        assert forall|w2: Seq<char>| #[trigger] ws.take(j + 1).contains(w2) implies exists|i: int|
                            0 <= i < counts@.len() && #[trigger] counts@[i].0@ == w2 by {
                            let k = choose|k: int|
                                0 <= k < ws.take(j + 1).len() && #[trigger] ws.take(j + 1)[k]
                                    == w2;
                            if k < j {
                                assert(ws.take(j as int)[k] == w2);
                                assert(ws.take(j as int).contains(w2));
                                let i0 = choose|i0: int|
                                    0 <= i0 < old_counts.len() && #[trigger] old_counts[i0].0@
                                        == w2;
                                assert(counts@[i0].0@ == w2);
                            } else {
                                assert(w2 == w@);
                                assert(counts@[counts@.len() - 1].0@ == w2);
                            }
                        }
                    }
                },
            }
            j += 1;
        }
        proof {
            assert(ws.take(words@.len() as int) =~= ws);
        }
        counts
    }

    /// Index of `w` among the entries' keys, if present.
    fn find_key(counts: &Vec<(String, usize)>, w: &String) -> (r: Option<usize>)
        ensures
            match r {
                Some(i) => i < counts@.len() && counts@[i as int].0@ == w@,
                None => forall|i: int| 0 <= i < counts@.len() ==> #[trigger] counts@[i].0@ != w@,
            },
    {
        let mut i: usize = 0;
        while i < counts.len()
            invariant
                i <= counts.len(),
                forall|k: int| 0 <= k < i ==> #[trigger] counts@[k].0@ != w@,
            decreases counts.len() - i,
        {
            if counts[i].0 == *w {
                return Some(i);
            }
            i += 1;
        }
        None
    }

    /// Tokenize a text with the learned rules: every whitespace-delimited
    /// word is split into characters, every rule is replayed in learned
    /// order, and the words' token lists are concatenated in input order.
    pub fn tokenize(&self, text: &str) -> (r: Vec<String>)
        ensures
            str_views(r@) == encode_text(text@, self.merges_view()),
    {
        let ghost mv = self.merges_view();
        let words = split_words(text);
        let ghost wv = str_views(words@);
        let mut result: Vec<String> = Vec::new();
        let mut j: usize = 0;
        proof {
            assert(wv.skip(0) =~= wv);
            assert(str_views(result@) + encode_words(wv, mv) =~= encode_words(wv, mv));
        }
        while j < words.len()
            invariant
                j <= words.len(),
                wv == str_views(words@),
                mv == self.merges_view(),
                encode_words(wv, mv) == str_views(result@) + encode_words(wv.skip(j as int), mv),
            decreases words.len() - j,
        {
            let mut parts = encode_word_vec(words[j].as_str(), &self.merges);
            proof {
                let rest = wv.skip(j as int);
                assert(rest[0] == words@[j as int]@);
                assert(rest.skip(1) =~= wv.skip(j + 1));
                assert(encode_words(rest, mv) == encode_word(wv[j as int], mv) + encode_words(
                    wv.skip(j + 1),
                    mv,
                ));
                assert(str_views(result@ + parts@) =~= str_views(result@) + str_views(parts@));
                assert(str_views(result@) + (str_views(parts@) + encode_words(wv.skip(j + 1), mv))
                    =~= (str_views(result@) + str_views(parts@)) + encode_words(
                    wv.skip(j + 1),
                    mv,
                ));
            }
            result.append(&mut parts);
            j += 1;
        }
        proof {
            assert(wv.skip(words@.len() as int) =~= Seq::<Seq<char>>::empty());
            assert(str_views(result@) + encode_words(Seq::<Seq<char>>::empty(), mv) =~= str_views(
                result@,
            ));
        }
        result
    }
}

impl BPE {
    /// The weighted count of every adjacent symbol pair across all word
    /// splits: each pair exactly once, with its saturating weighted count.
    #[verifier::rlimit(100)]
    fn count_pairs(
        words: &Vec<(String, usize)>,
        splits: &Vec<Vec<String>>,
        merges: Ghost<Seq<(Seq<char>, Seq<char>)>>,
    ) -> (pc: Vec<((String, String), usize)>)
        requires
            splits@.len() == words@.len(),
            forall|k: int|
                0 <= k < splits@.len() ==> #[trigger] splits_views(splits@)[k] == encode_word(
                    words@[k].0@,
                    merges@,
                ),
        ensures
            entry_keys_distinct(pc@),
            forall|e: int|
                0 <= e < pc@.len() ==> key_adjacent_somewhere(
                    splits_views(splits@),
                    entry_key(#[trigger] pc@[e]),
                ),
            forall|k: int|
                0 <= k < splits@.len() && #[trigger] splits_views(splits@)[k].len() >= 2
                    ==> pc@.len() >= 1,
            forall|wi: int, kk: int|
                0 <= wi < splits@.len() && 0 <= kk < splits_views(splits@)[wi].len() - 1
                    ==> has_entry_key(
                    pc@,
                    (#[trigger] splits_views(splits@)[wi][kk], splits_views(splits@)[wi][kk + 1]),
                ),
            forall|e: int|
                0 <= e < pc@.len() ==> (#[trigger] pc@[e]).1 == sat_cap(
                    words_weight(words@, merges@, entry_key(pc@[e])),
                ),
    {
        // count every adjacent pair, weighted by word count
        let ghost sv = splits_views(splits@);
        let ghost mv = merges@;
        let mut pc: Vec<((String, String), usize)> = Vec::new();
        let mut i: usize = 0;
        proof {
            assert(words@.take(0) =~= Seq::<(String, usize)>::empty());
        }
        while i < splits.len()
            invariant
                i <= splits@.len(),
                sv == splits_views(splits@),
                mv == merges@,
                splits@.len() == words@.len(),
                sv.len() == splits@.len(),
                forall|k: int|
                    0 <= k < splits@.len() ==> #[trigger] sv[k] == encode_word(
                        words@[k].0@,
                        mv,
                    ),
                entry_keys_distinct(pc@),
                forall|e: int|
                    0 <= e < pc@.len() ==> key_adjacent_somewhere(
                        sv,
                        entry_key(#[trigger] pc@[e]),
                    ),
                forall|k: int|
                    0 <= k < i && #[trigger] sv[k].len() >= 2 ==> pc@.len() >= 1,
                forall|wi: int, kk: int|
                    0 <= wi < i && 0 <= kk < sv[wi].len() - 1 ==> has_entry_key(
                        pc@,
                        (#[trigger] sv[wi][kk], sv[wi][kk + 1]),
                    ),
                forall|e: int|
                    0 <= e < pc@.len() ==> (#[trigger] pc@[e]).1 == sat_cap(
                        words_weight(words@.take(i as int), mv, entry_key(pc@[e])),
                    ),
            decreases splits@.len() - i,
        {
            let count = words[i].1;
            let mut k: usize = 0;
            proof {
                assert forall|e: int| 0 <= e < pc@.len() implies (#[trigger] pc@[e]).1
                    == sat_cap(
                    words_weight(words@.take(i as int), mv, entry_key(pc@[e])) + (
                    words@[i as int].1 as nat) * occ_upto(
                        sv[i as int],
                        0,
                        entry_key(pc@[e]),
                    ),
                ) by {
                    assert(occ_upto(sv[i as int], 0, entry_key(pc@[e])) == 0);
                    assert((words@[i as int].1 as nat) * occ_upto(
                        sv[i as int],
                        0,
                        entry_key(pc@[e]),
                    ) == 0) by (nonlinear_arith);
                }
            }
            while k < splits[i].len() && k + 1 < splits[i].len()
                invariant
                    i < splits@.len(),
                    sv == splits_views(splits@),
                    mv == merges@,
                    splits@.len() == words@.len(),
                    sv.len() == splits@.len(),
                    forall|k2: int|
                        0 <= k2 < splits@.len() ==> #[trigger] sv[k2] == encode_word(
                            words@[k2].0@,
                            mv,
                        ),
                    count == words@[i as int].1,
                    k + 1 <= sv[i as int].len() || k == 0,
                    entry_keys_distinct(pc@),
                    forall|e: int|
                        0 <= e < pc@.len() ==> key_adjacent_somewhere(
                            sv,
                            entry_key(#[trigger] pc@[e]),
                        ),
                    k >= 1 && sv[i as int].len() >= 2 ==> pc@.len() >= 1,
                    forall|k2: int|
                        0 <= k2 < i && #[trigger] sv[k2].len() >= 2 ==> pc@.len() >= 1,
                    forall|wi: int, kk: int|
                        0 <= wi < i && 0 <= kk < sv[wi].len() - 1 ==> has_entry_key(
                            pc@,
                            (#[trigger] sv[wi][kk], sv[wi][kk + 1]),
                        ),
                    forall|kk: int|
                        0 <= kk < k && kk < sv[i as int].len() - 1 ==> has_entry_key(
                            pc@,
                            (#[trigger] sv[i as int][kk], sv[i as int][kk + 1]),
                        ),
                    forall|e: int|
                        0 <= e < pc@.len() ==> (#[trigger] pc@[e]).1 == sat_cap(
                            words_weight(words@.take(i as int), mv, entry_key(pc@[e])) + (
                            words@[i as int].1 as nat) * occ_upto(
                                sv[i as int],
                                k as int,
                                entry_key(pc@[e]),
                            ),
                        ),
                decreases splits@[i as int]@.len() - k,
            {
                let row = &splits[i];
                let ghost old_pc = pc@;
                let ghost key = (row@[k as int]@, row@[k + 1]@);
                bump_pair(&mut pc, &row[k], &row[k + 1], count);
                proof {
                    assert(sv[i as int] == str_views(splits@[i as int]@));
                    assert(sv[i as int][k as int] == key.0);
                    assert(sv[i as int][k + 1] == key.1);
                    assert(has_adjacent(sv[i as int], key.0, key.1));
                    assert(key_adjacent_somewhere(sv, key));
                    assert forall|e: int| 0 <= e < pc@.len() implies key_adjacent_somewhere(
                        sv,
                        entry_key(#[trigger] pc@[e]),
                    ) by {
                        if e < old_pc.len() {
                            assert(entry_key(pc@[e]) == entry_key(old_pc[e]));
                        } else {
                            assert(entry_key(pc@[e]) == key);
                        }
                    }
                    // positional completeness: the bumped position's pair
                    // now has an entry, and earlier entries keep theirs
                    assert(has_entry_key(pc@, key)) by {
                        if has_entry_key(old_pc, key) {
                            let j = choose|j: int|
                                0 <= j < old_pc.len() && entry_key(#[trigger] old_pc[j])
                                    == key;
                            assert(entry_key(pc@[j]) == key);
                        } else {
                            assert(entry_key(pc@[old_pc.len() as int]) == key);
                        }
                    }
                    assert forall|q: (Seq<char>, Seq<char>)| has_entry_key(old_pc, q)
                        implies #[trigger] has_entry_key(pc@, q) by {
                        let j = choose|j: int|
                            0 <= j < old_pc.len() && entry_key(#[trigger] old_pc[j]) == q;
                        assert(entry_key(pc@[j]) == q);
                    }
                    // exact values after the bump
                    let wc = words@[i as int].1 as nat;
                    assert forall|e: int| 0 <= e < pc@.len() implies (#[trigger] pc@[e]).1
                        == sat_cap(
                        words_weight(words@.take(i as int), mv, entry_key(pc@[e])) + wc
                            * occ_upto(sv[i as int], k + 1, entry_key(pc@[e])),
                    ) by {
                        let q = entry_key(pc@[e]);
                        let base = words_weight(words@.take(i as int), mv, q);
                        assert(occ_upto(sv[i as int], k + 1, q) == occ_upto(
                            sv[i as int],
                            k as int,
                            q,
                        ) + (if k + 1 < sv[i as int].len() && sv[i as int][k as int] == q.0
                            && sv[i as int][k + 1] == q.1 {
                            1nat
                        } else {
                            0nat
                        }));
                        if e < old_pc.len() {
                            assert(q == entry_key(old_pc[e]));
                            if q == key {
                                assert(pc@[e].1 == sat_cap((old_pc[e].1 + count) as nat));
                                assert(old_pc[e].1 == sat_cap(
                                    base + wc * occ_upto(sv[i as int], k as int, q),
                                ));
                                assert(occ_upto(sv[i as int], k + 1, q) == occ_upto(
                                    sv[i as int],
                                    k as int,
                                    q,
                                ) + 1);
                                assert(wc * (occ_upto(sv[i as int], k as int, q) + 1) == wc
                                    * occ_upto(sv[i as int], k as int, q) + wc)
                                    by (nonlinear_arith);
                                assert(sat_cap(
                                    (sat_cap(base + wc * occ_upto(sv[i as int], k as int, q))
                                        + count) as nat,
                                ) == sat_cap(
                                    (base + wc * occ_upto(sv[i as int], k as int, q)
                                        + count) as nat,
                                ));
                            } else {
                                assert(pc@[e].1 == old_pc[e].1);
                                if k + 1 < sv[i as int].len() && sv[i as int][k as int] == q.0
                                    && sv[i as int][k + 1] == q.1 {
                                    assert(q == key);
                                    assert(false);
                                }
                            }
                        } else {
                            assert(q == key);
                            assert(pc@[e].1 == count);
                            assert(!has_entry_key(old_pc, key));
                            assert forall|j: int|
                                0 <= j < k && j + 1 < sv[i as int].len() implies !(
                            #[trigger] sv[i as int][j] == q.0 && sv[i as int][j + 1]
                                == q.1) by {
                                if sv[i as int][j] == q.0 && sv[i as int][j + 1] == q.1 {
                                    assert(has_entry_key(
                                        old_pc,
                                        (sv[i as int][j], sv[i as int][j + 1]),
                                    ));
                                    assert(false);
                                }
                            }
                            lemma_occ_upto_zero(sv[i as int], k as int, q);
                            assert forall|wi2: int|
                                0 <= wi2 < words@.take(i as int).len() implies pair_occ(
                                encode_word(
                                    #[trigger] words@.take(i as int)[wi2].0@,
                                    mv,
                                ),
                                q,
                            ) == 0 by {
                                assert(words@.take(i as int)[wi2] == words@[wi2]);
                                assert(sv[wi2] == encode_word(words@[wi2].0@, mv));
                                assert forall|j: int|
                                    0 <= j < sv[wi2].len() && j + 1 < sv[wi2].len() implies !(
                                #[trigger] sv[wi2][j] == q.0 && sv[wi2][j + 1] == q.1) by {
                                    if sv[wi2][j] == q.0 && sv[wi2][j + 1] == q.1 {
                                        assert(has_entry_key(
                                            old_pc,
                                            (sv[wi2][j], sv[wi2][j + 1]),
                                        ));
                                        assert(false);
                                    }
                                }
                                lemma_occ_upto_zero(sv[wi2], sv[wi2].len() as int, q);
                            }
                            lemma_words_weight_zero(words@.take(i as int), mv, q);
                            assert(occ_upto(sv[i as int], k + 1, q) == 1);
                            assert(wc * 1nat == wc) by (nonlinear_arith);
                            assert(count <= usize::MAX);
                            assert(sat_cap(0 + wc * 1nat) == wc);
                        }
                    }
                }
                k += 1;
            }
            proof {
                // at the word's end the partial occurrence count is the
                // word's full pair count
                let wc = words@[i as int].1 as nat;
                let len = sv[i as int].len() as int;
                assert(sv[i as int] == str_views(splits@[i as int]@));
                assert forall|e: int| 0 <= e < pc@.len() implies (#[trigger] pc@[e]).1
                    == sat_cap(
                    words_weight(words@.take(i + 1), mv, entry_key(pc@[e])),
                ) by {
                    let q = entry_key(pc@[e]);
                    if len == 0 {
                        assert(k == 0);
                        assert(occ_upto(sv[i as int], 0, q) == 0);
                        assert(pair_occ(sv[i as int], q) == 0);
                    } else {
                        assert(k + 1 == len);
                        assert(occ_upto(sv[i as int], len, q) == occ_upto(
                            sv[i as int],
                            len - 1,
                            q,
                        ));
                        assert(pair_occ(sv[i as int], q) == occ_upto(
                            sv[i as int],
                            k as int,
                            q,
                        ));
                    }
                    assert(words@.take(i + 1) =~= words@.take(i as int).push(
                        words@[i as int],
                    ));
                    lemma_words_weight_push(words@.take(i as int), words@[i as int], mv, q);
                    assert(sv[i as int] == encode_word(words@[i as int].0@, mv));
                }
                // every valid position of this word is covered
                assert forall|kk: int| 0 <= kk < sv[i as int].len() - 1 implies has_entry_key(
                    pc@,
                    (#[trigger] sv[i as int][kk], sv[i as int][kk + 1]),
                ) by {
                    assert(kk < k);
                }
            }
            i += 1;
        }
        proof {
            assert(words@.take(words@.len() as int) =~= words@);
        }
        pc
    }

    /// Learn up to `merge_budget` merge rules from `text`, replacing whatever
    /// the model held before, and rebuild the vocabulary.
    ///
    /// Each round counts every adjacent symbol pair across all words,
    /// weighted by word count, merges the most frequent pair everywhere, and
    /// records the rule; rounds stop early when no pair is left. Ties between
    /// equally frequent pairs go to the lexicographically least pair by code
    /// point, left symbol first, so training is deterministic.
    #[verifier::loop_isolation(false)]
    #[verifier::rlimit(100)]
    pub fn train(&mut self, text: &str, merge_budget: usize)
        ensures
            final(self).wf(),
            final(self).merges_view().len() <= merge_budget,
            final(self).merges_view().len() < merge_budget ==> forall|k: int|
                0 <= k < split_ws(text@).len() ==> encode_word(
                    #[trigger] split_ws(text@)[k],
                    final(self).merges_view(),
                ).len() <= 1,
            forall|i: int|
                0 <= i < final(self).merges_view().len() ==> rule_occurs(
                    split_ws(text@),
                    final(self).merges_view(),
                    i,
                ),
            forall|i: int|
                0 <= i < final(self).merges_view().len() ==> rule_maximal(
                    split_ws(text@),
                    final(self).merges_view(),
                    i,
                ),
            split_ws(text@).len() == 0 ==> final(self).merges_view().len() == 0,
            forall|k: int, ci: int|
                0 <= k < split_ws(text@).len() && 0 <= ci < split_ws(text@)[k].len() ==> final(self).vocab_view().contains(seq![#[trigger] split_ws(text@)[k][ci]]),
            forall|i: int|
                0 <= i < final(self).merges_view().len() ==> final(self).vocab_view().contains(
                    #[trigger] final(self).merges_view()[i].0 + final(self).merges_view()[i].1,
                ),
    {
        let ghost ws = split_ws(text@);
        proof {
            crate::text::lemma_split_ws_words(text@);
        }
        let words = Self::get_word_counts(text);

        // the initial vocabulary: every distinct character of the corpus
        let mut vocab: Vec<String> = Vec::new();
        let mut wi: usize = 0;
        while wi < words.len()
            invariant
                wi <= words@.len(),
                forall|i: int| 0 <= i < str_views(vocab@).len() ==> good_word(#[trigger] str_views(vocab@)[i]),
                forall|i: int, j: int|
                    0 <= i < j < str_views(vocab@).len() ==> str_views(vocab@)[i] != str_views(
                        vocab@,
                    )[j],
                forall|k: int, ci: int|
                    0 <= k < wi && 0 <= ci < words@[k].0@.len() ==> str_views(vocab@).contains(
                        seq![#[trigger] words@[k].0@[ci]],
                    ),
            decreases words@.len() - wi,
        {
            let wstr = &words[wi].0;
            let n = wstr.as_str().unicode_len();
            let mut ci: usize = 0;
            proof {
                assert(ws.contains(words@[wi as int].0@));
            }
            while ci < n
                invariant
                    ci <= n,
                    forall|i: int| 0 <= i < str_views(vocab@).len() ==> good_word(#[trigger] str_views(vocab@)[i]),
                    forall|i: int, j: int|
                        0 <= i < j < str_views(vocab@).len() ==> str_views(vocab@)[i] != str_views(
                            vocab@,
                        )[j],
                    forall|k: int, ci2: int|
                        0 <= k < wi && 0 <= ci2 < words@[k].0@.len() ==> str_views(
                            vocab@,
                        ).contains(seq![#[trigger] words@[k].0@[ci2]]),
                    forall|ci2: int|
                        0 <= ci2 < ci ==> str_views(vocab@).contains(
                            seq![#[trigger] words@[wi as int].0@[ci2]],
                        ),
                decreases n - ci,
            {
                let s = wstr.as_str().substring_char(ci, ci + 1).to_owned();
                proof {
                    assert(s@ =~= seq![words@[wi as int].0@[ci as int]]);
                    let kw = choose|kw: int| 0 <= kw < ws.len() && ws[kw] == words@[wi as int].0@;
                    assert(!crate::text::is_ws(words@[wi as int].0@[ci as int]));
                    assert(good_word(s@));
                }
                let ghost old_vv = str_views(vocab@);
                insert_unique(&mut vocab, s);
                proof {
                    if !old_vv.contains(seq![words@[wi as int].0@[ci as int]]) {
                        assert forall|y: Seq<char>| old_vv.contains(y) implies str_views(
                            vocab@,
                        ).contains(y) by {
                            lemma_contains_after_push(
                                old_vv,
                                seq![words@[wi as int].0@[ci as int]],
                                y,
                            );
                        }
                        assert(str_views(vocab@)[str_views(vocab@).len() - 1] == seq![
                            words@[wi as int].0@[ci as int]]);
                        assert(str_views(vocab@).contains(
                            seq![words@[wi as int].0@[ci as int]],
                        ));
                        assert forall|i: int, j: int|
                            0 <= i < j < str_views(vocab@).len() implies str_views(vocab@)[i]
                            != str_views(vocab@)[j] by {
                            if j < str_views(vocab@).len() - 1 {
                                assert(str_views(vocab@)[i] == old_vv[i]);
                                assert(str_views(vocab@)[j] == old_vv[j]);
                            } else {
                                assert(str_views(vocab@)[i] == old_vv[i]);
                                assert(old_vv.contains(old_vv[i]));
                            }
                        }
                    }
                }
                ci += 1;
            }
            wi += 1;
        }

        // every word starts split into its single characters
        let mut splits: Vec<Vec<String>> = Vec::new();
        let mut wi2: usize = 0;
        while wi2 < words.len()
            invariant
                wi2 <= words@.len(),
                splits@.len() == wi2,
                forall|k: int|
                    0 <= k < wi2 ==> #[trigger] splits_views(splits@)[k] == chars_of(
                        words@[k].0@,
                    ),
                forall|k: int, si: int|
                    0 <= k < wi2 && 0 <= si < splits_views(splits@)[k].len() ==> good_word(
                        #[trigger] splits_views(splits@)[k][si],
                    ),
            decreases words@.len() - wi2,
        {
            let row = chars_to_symbols(words[wi2].0.as_str());
            proof {
                let w = words@[wi2 as int].0@;
                assert(ws.contains(w));
                assert(good_word(w));
                assert forall|si: int| 0 <= si < chars_of(w).len() implies good_word(
                    #[trigger] chars_of(w)[si],
                ) by {
                    assert(chars_of(w)[si] == seq![w[si]]);
                }
                assert(splits_views(splits@.push(row)) =~= splits_views(splits@).push(
                    str_views(row@),
                ));
            }
            splits.push(row);
            wi2 += 1;
        }

        // the merge rounds
        let mut merges: Vec<(String, String)> = Vec::new();
        let mut exhausted = false;
        let mut t: usize = 0;
        proof {
            assert forall|k: int| 0 <= k < splits@.len() implies #[trigger] splits_views(
                splits@,
            )[k] == encode_word(words@[k].0@, merge_views(merges@)) by {
                assert(merge_views(merges@) =~= Seq::<(Seq<char>, Seq<char>)>::empty());
                assert(encode_word(words@[k].0@, merge_views(merges@)) == chars_of(words@[k].0@));
            }
        }
        while t < merge_budget && !exhausted
            invariant
                t <= merge_budget,
                merges@.len() == t,
                splits@.len() == words@.len(),
                forall|k: int|
                    0 <= k < splits@.len() ==> #[trigger] splits_views(splits@)[k] == encode_word(
                        words@[k].0@,
                        merge_views(merges@),
                    ),
                forall|k: int, si: int|
                    0 <= k < splits@.len() && 0 <= si < splits_views(splits@)[k].len()
                        ==> good_word(#[trigger] splits_views(splits@)[k][si]),
                forall|i: int|
                    0 <= i < merge_views(merges@).len() ==> good_word(
                        #[trigger] merge_views(merges@)[i].0,
                    ) && good_word(merge_views(merges@)[i].1),
                forall|i: int| 0 <= i < merges@.len() ==> rule_occurs(ws, merge_views(merges@), i),
                forall|i: int|
                    0 <= i < merges@.len() ==> rule_maximal(ws, merge_views(merges@), i),
                exhausted ==> forall|k: int|
                    0 <= k < splits@.len() ==> #[trigger] splits_views(splits@)[k].len() <= 1,
                forall|i: int| 0 <= i < str_views(vocab@).len() ==> good_word(#[trigger] str_views(vocab@)[i]),
                forall|i: int, j: int|
                    0 <= i < j < str_views(vocab@).len() ==> str_views(vocab@)[i] != str_views(
                        vocab@,
                    )[j],
                forall|k: int, ci2: int|
                    0 <= k < words@.len() && 0 <= ci2 < words@[k].0@.len() ==> str_views(
                        vocab@,
                    ).contains(seq![#[trigger] words@[k].0@[ci2]]),
                forall|i: int|
                    0 <= i < merges@.len() ==> str_views(vocab@).contains(
                        #[trigger] merge_views(merges@)[i].0 + merge_views(merges@)[i].1,
                    ),
            decreases merge_budget - t, (if exhausted {
                0int
            } else {
                1int
            }),
        {
            // count every adjacent pair, weighted by word count
            let pc = Self::count_pairs(&words, &splits, Ghost(merge_views(merges@)));
            if pc.len() == 0 {
                proof {
                    assert forall|k: int| 0 <= k < splits@.len() implies #[trigger] splits_views(
                        splits@,
                    )[k].len() <= 1 by {
                        if splits_views(splits@)[k].len() >= 2 {
                            assert(pc@.len() >= 1);
                        }
                    }
                }
                exhausted = true;
            } else {
                let best = select_best(&pc);
                let p1 = pc[best].0.0.clone();
                let p2 = pc[best].0.1.clone();
                proof {
                    let sv = splits_views(splits@);
                    assert(key_adjacent_somewhere(sv, entry_key(pc@[best as int])));
                    let awi = choose|awi: int|
                        0 <= awi < sv.len() && has_adjacent(#[trigger] sv[awi], p1@, p2@);
                    let ak = choose|ak: int|
                        0 <= ak < sv[awi].len() - 1 && #[trigger] sv[awi][ak] == p1@ && sv[awi][ak
                            + 1] == p2@;
                    assert(good_word(p1@));
                    assert(good_word(p2@));
                }
                let merged = p1.clone().concat(p2.as_str());
                proof {
                    crate::merge::lemma_good_concat(p1@, p2@);
                }
                let ghost old_vv = str_views(vocab@);
                insert_unique(&mut vocab, merged);
                proof {
                    if !old_vv.contains(p1@ + p2@) {
                        assert forall|y: Seq<char>| old_vv.contains(y) implies str_views(
                            vocab@,
                        ).contains(y) by {
                            lemma_contains_after_push(old_vv, p1@ + p2@, y);
                        }
                        assert(str_views(vocab@)[str_views(vocab@).len() - 1] == p1@ + p2@);
                        assert(str_views(vocab@).contains(p1@ + p2@));
                        assert forall|i2: int, j2: int|
                            0 <= i2 < j2 < str_views(vocab@).len() implies str_views(vocab@)[i2]
                            != str_views(vocab@)[j2] by {
                            if j2 < str_views(vocab@).len() - 1 {
                                assert(str_views(vocab@)[i2] == old_vv[i2]);
                                assert(str_views(vocab@)[j2] == old_vv[j2]);
                            } else {
                                assert(str_views(vocab@)[i2] == old_vv[i2]);
                                assert(old_vv.contains(old_vv[i2]));
                            }
                        }
                    } else {
                        assert(str_views(vocab@) == old_vv);
                    }
                    assert(str_views(vocab@).contains(p1@ + p2@));
                }

                // replay the new rule over every split
                let mut new_splits: Vec<Vec<String>> = Vec::new();
                let mut k2: usize = 0;
                while k2 < splits.len()
                    invariant
                        k2 <= splits@.len(),
                        new_splits@.len() == k2,
                        forall|k: int|
                            0 <= k < k2 ==> #[trigger] splits_views(new_splits@)[k] == apply_merge(
                                splits_views(splits@)[k],
                                p1@,
                                p2@,
                            ),
                    decreases splits@.len() - k2,
                {
                    let row = apply_merge_vec(&splits[k2], &p1, &p2);
                    proof {
                        assert(splits_views(new_splits@.push(row)) =~= splits_views(
                            new_splits@,
                        ).push(str_views(row@)));
                        assert(str_views(splits@[k2 as int]@) == splits_views(splits@)[k2 as int]);
                    }
                    new_splits.push(row);
                    k2 += 1;
                }

                let ghost old_merges = merges@;
                let ghost old_sv = splits_views(splits@);
                splits = new_splits;
                merges.push((p1, p2));
                t += 1;
                proof {
                    let mv_old = merge_views(old_merges);
                    let mv_new = merge_views(merges@);
                    let rule = (merges@[merges@.len() - 1].0@, merges@[merges@.len() - 1].1@);
                    assert(mv_new =~= mv_old.push(rule));

                    // the splits now reflect the extended rule sequence
                    assert forall|k: int| 0 <= k < splits@.len() implies #[trigger] splits_views(
                        splits@,
                    )[k] == encode_word(words@[k].0@, mv_new) by {
                        crate::merge::lemma_apply_merges_snoc(
                            chars_of(words@[k].0@),
                            mv_old,
                            rule,
                        );
                        assert(splits_views(splits@)[k] == apply_merge(old_sv[k], rule.0, rule.1));
                    }

                    // symbol goodness survives the pass
                    assert forall|k: int, si: int|
                        0 <= k < splits@.len() && 0 <= si < splits_views(splits@)[k].len()
                            implies good_word(#[trigger] splits_views(splits@)[k][si]) by {
                        assert(forall|si2: int|
                            0 <= si2 < old_sv[k].len() ==> good_word(#[trigger] old_sv[k][si2]));
                        crate::merge::lemma_apply_merge_good(old_sv[k], rule.0, rule.1);
                        assert(splits_views(splits@)[k] == apply_merge(old_sv[k], rule.0, rule.1));
                    }

                    // the new rule occurred when it was learned
                    assert(rule_occurs(ws, mv_new, t - 1)) by {
                        assert(mv_new.take(t - 1) =~= mv_old);
                        let awi = choose|awi: int|
                            0 <= awi < old_sv.len() && has_adjacent(#[trigger] old_sv[awi], rule.0, rule.1);
                        assert(ws.contains(words@[awi].0@));
                        let kw = choose|kw: int| 0 <= kw < ws.len() && ws[kw] == words@[awi].0@;
                        assert(encode_word(ws[kw], mv_new.take(t - 1)) == old_sv[awi]);
                        assert(has_adjacent(encode_word(ws[kw], mv_new.take(t - 1)), mv_new[t - 1].0, mv_new[t - 1].1));
                    }

                    // the earlier rules keep their occurrence witnesses
                    assert forall|i2: int| 0 <= i2 < merges@.len() implies rule_occurs(
                        ws,
                        mv_new,
                        i2,
                    ) by {
                        if i2 < merges@.len() - 1 {
                            assert(rule_occurs(ws, mv_old, i2));
                            assert(mv_new.take(i2) =~= mv_old.take(i2));
                            assert(mv_new[i2] == mv_old[i2]);
                            let kw = choose|kw: int|
                                0 <= kw < ws.len() && has_adjacent(
                                    encode_word(#[trigger] ws[kw], mv_old.take(i2)),
                                    mv_old[i2].0,
                                    mv_old[i2].1,
                                );
                            assert(has_adjacent(
                                encode_word(ws[kw], mv_new.take(i2)),
                                mv_new[i2].0,
                                mv_new[i2].1,
                            ));
                        }
                    }

                    // each rule, old and new, was a best pair at its stage
                    assert(entry_key(pc@[best as int]) == rule);
                    assert forall|i2: int| 0 <= i2 < merges@.len() implies rule_maximal(
                        ws,
                        mv_new,
                        i2,
                    ) by {
                        if i2 < merges@.len() - 1 {
                            assert(rule_maximal(ws, mv_old, i2));
                            assert(mv_new.take(i2) =~= mv_old.take(i2));
                            assert(mv_new[i2] == mv_old[i2]);
                        } else {
                            assert(mv_new.take(i2) =~= mv_old);
                            assert(mv_new[i2] == rule);
                            assert forall|wi: int, kk: int|
                                0 <= wi < ws.len() && 0 <= kk < encode_word(
                                    ws[wi],
                                    mv_new.take(i2),
                                ).len() - 1 implies (sat_cap(
                                corpus_weight(
                                    ws,
                                    mv_new.take(i2),
                                    (
                                        (#[trigger] encode_word(ws[wi], mv_new.take(i2))[kk]),
                                        encode_word(ws[wi], mv_new.take(i2))[kk + 1],
                                    ),
                                ),
                            ) <= sat_cap(corpus_weight(ws, mv_new.take(i2), mv_new[i2]))
                                && (sat_cap(
                                corpus_weight(
                                    ws,
                                    mv_new.take(i2),
                                    (
                                        encode_word(ws[wi], mv_new.take(i2))[kk],
                                        encode_word(ws[wi], mv_new.take(i2))[kk + 1],
                                    ),
                                ),
                            ) == sat_cap(corpus_weight(ws, mv_new.take(i2), mv_new[i2]))
                                ==> !pair_lt(
                                (
                                    encode_word(ws[wi], mv_new.take(i2))[kk],
                                    encode_word(ws[wi], mv_new.take(i2))[kk + 1],
                                ),
                                mv_new[i2],
                            ))) by {
                                let enc = encode_word(ws[wi], mv_old);
                                assert(encode_word(ws[wi], mv_new.take(i2)) == enc);
                                let q = (enc[kk], enc[kk + 1]);
                                assert(ws.contains(ws[wi]));
                                let i0 = choose|i0: int|
                                    0 <= i0 < words@.len() && #[trigger] words@[i0].0@ == ws[wi];
                                assert(old_sv[i0] == enc);
                                assert(has_entry_key(pc@, (old_sv[i0][kk], old_sv[i0][kk + 1])));
                                let e = choose|e: int|
                                    0 <= e < pc@.len() && entry_key(#[trigger] pc@[e]) == q;
                                assert(pc@[e].1 == sat_cap(words_weight(words@, mv_old, q)));
                                lemma_key_weight_words(words@, ws, mv_old, q);
                                assert(keys_of(words@) == first_keys(ws));
                                assert(corpus_weight(ws, mv_old, q) == words_weight(
                                    words@,
                                    mv_old,
                                    q,
                                ));
                                assert(pc@[best as int].1 == sat_cap(
                                    words_weight(words@, mv_old, rule),
                                ));
                                lemma_key_weight_words(words@, ws, mv_old, rule);
                                assert(corpus_weight(ws, mv_old, rule) == words_weight(
                                    words@,
                                    mv_old,
                                    rule,
                                ));
                                assert(pc@[e].1 <= pc@[best as int].1);
                                if pc@[e].1 == pc@[best as int].1 {
                                    assert(!pair_lt(
                                        entry_key(pc@[e]),
                                        entry_key(pc@[best as int]),
                                    ));
                                }
                            }
                        }
                    }

                    // the vocabulary still lists every merge output
                    assert forall|i2: int| 0 <= i2 < merges@.len() implies str_views(
                        vocab@,
                    ).contains(#[trigger] mv_new[i2].0 + mv_new[i2].1) by {
                        if i2 < merges@.len() - 1 {
                            assert(mv_new[i2] == mv_old[i2]);
                            if !old_vv.contains(p1@ + p2@) {
                                lemma_contains_after_push(
                                    old_vv,
                                    p1@ + p2@,
                                    mv_old[i2].0 + mv_old[i2].1,
                                );
                            }
                        } else {
                            assert(mv_new[i2].0 + mv_new[i2].1 == p1@ + p2@);
                        }
                    }
                }
            }
        }

        self.merges = merges;
        self.vocab = vocab;
        proof {
            let mv = final(self).merges_view();
            // a short rule list means exhaustion, and exhaustion covers every
            // corpus word through the counts' completeness
            if mv.len() < merge_budget {
                assert(exhausted);
                assert forall|k: int| 0 <= k < ws.len() implies encode_word(
                    #[trigger] ws[k],
                    mv,
                ).len() <= 1 by {
                    assert(ws.contains(ws[k]));
                    let i0 = choose|i0: int|
                        0 <= i0 < words@.len() && #[trigger] words@[i0].0@ == ws[k];
                    assert(splits_views(splits@)[i0] == encode_word(words@[i0].0@, mv));
                    assert(splits_views(splits@)[i0].len() <= 1);
                }
            }
            // rules can only be learned from a nonempty corpus
            if mv.len() > 0 {
                assert(rule_occurs(ws, mv, 0));
                let kw = choose|kw: int|
                    0 <= kw < ws.len() && has_adjacent(
                        encode_word(#[trigger] ws[kw], mv.take(0)),
                        mv[0].0,
                        mv[0].1,
                    );
            }
            // every corpus character reached the vocabulary
            assert forall|k: int, ci2: int|
                0 <= k < ws.len() && 0 <= ci2 < ws[k].len() implies final(self).vocab_view().contains(seq![#[trigger] ws[k][ci2]]) by {
                assert(ws.contains(ws[k]));
                let i0 = choose|i0: int|
                    0 <= i0 < words@.len() && #[trigger] words@[i0].0@ == ws[k];
                assert(ci2 < words@[i0].0@.len());
                assert(str_views(vocab@).contains(seq![words@[i0].0@[ci2]]));
            }
        }
    }
}

/// A word that was never seen has count zero.
pub proof fn lemma_count_in_none(ws: Seq<Seq<char>>, w: Seq<char>)
    requires
        !ws.contains(w),
    ensures
        count_in(ws, w) == 0,
    decreases ws.len(),
{
    if ws.len() > 0 {
        assert(ws[0] != w);
        assert forall|i: int| 0 <= i < ws.skip(1).len() implies ws.skip(1)[i] != w by {
            assert(ws.skip(1)[i] == ws[i + 1]);
        }
        lemma_count_in_none(ws.skip(1), w);
    }
}

/// Some adjacent position in `ps` holds exactly the pair `(l, r)`.
pub open spec fn has_adjacent(ps: Seq<Seq<char>>, l: Seq<char>, r: Seq<char>) -> bool {
    exists|k: int| 0 <= k < ps.len() - 1 && #[trigger] ps[k] == l && ps[k + 1] == r
}

/// Rule `i` of `ms` had an occurrence in some corpus word's split at the
/// moment it was learned, that is, after rules `0 .. i` had been replayed.
pub open spec fn rule_occurs(ws: Seq<Seq<char>>, ms: Seq<(Seq<char>, Seq<char>)>, i: int) -> bool {
    exists|k: int|
        0 <= k < ws.len() && has_adjacent(
            encode_word(#[trigger] ws[k], ms.take(i)),
            ms[i].0,
            ms[i].1,
        )
}

/// The symbol views of a vector of splits.
pub open spec fn splits_views(s: Seq<Vec<String>>) -> Seq<Seq<Seq<char>>> {
    s.map_values(|v: Vec<String>| str_views(v@))
}

/// The pair a counting entry stands for.
pub open spec fn entry_key(e: ((String, String), usize)) -> (Seq<char>, Seq<char>) {
    (e.0.0@, e.0.1@)
}

/// Some entry of `s` stands for the pair `k`.
pub open spec fn has_entry_key(s: Seq<((String, String), usize)>, k: (Seq<char>, Seq<char>)) -> bool {
    exists|j: int| 0 <= j < s.len() && entry_key(#[trigger] s[j]) == k
}

/// The pair `k` sits adjacently in some split of `sv`.
pub open spec fn key_adjacent_somewhere(sv: Seq<Seq<Seq<char>>>, k: (Seq<char>, Seq<char>)) -> bool {
    exists|wi: int| 0 <= wi < sv.len() && has_adjacent(#[trigger] sv[wi], k.0, k.1)
}

/// Lexicographic order on symbol pairs: left symbol first.
pub open spec fn pair_lt(x: (Seq<char>, Seq<char>), y: (Seq<char>, Seq<char>)) -> bool {
    lex_lt(x.0, y.0) || (x.0 == y.0 && lex_lt(x.1, y.1))
}

pub proof fn lemma_contains_after_push(s: Seq<Seq<char>>, x: Seq<char>, y: Seq<char>)
    requires
        s.contains(y),
    ensures
        s.push(x).contains(y),
{
    let j = choose|j: int| 0 <= j < s.len() && s[j] == y;
    assert(s.push(x)[j] == y);
}

/// Add a symbol to the vocabulary unless it is already there.
fn insert_unique(v: &mut Vec<String>, s: String)
    ensures
        str_views(final(v)@) == if str_views(old(v)@).contains(s@) {
            str_views(old(v)@)
        } else {
            str_views(old(v)@).push(s@)
        },
{
    let mut i: usize = 0;
    while i < v.len()
        invariant
            i <= v@.len(),
            v@ == old(v)@,
            forall|k: int| 0 <= k < i ==> str_views(v@)[k] != s@,
        decreases v@.len() - i,
    {
        if v[i] == s {
            proof {
                assert(str_views(v@)[i as int] == s@);
                assert(str_views(v@).contains(s@));
            }
            return ;
        }
        i += 1;
    }
    proof {
        assert(!str_views(v@).contains(s@)) by {
            if str_views(v@).contains(s@) {
                let j = choose|j: int|
                    0 <= j < str_views(v@).len() && str_views(v@)[j] == s@;
                assert(false);
            }
        }
    }
    let ghost old_v = v@;
    v.push(s);
    proof {
        assert(str_views(v@) =~= str_views(old_v).push(v@[v@.len() - 1]@));
    }
}

/// The pair order is transitive.
pub proof fn lemma_pair_lt_trans(
    x: (Seq<char>, Seq<char>),
    y: (Seq<char>, Seq<char>),
    z: (Seq<char>, Seq<char>),
)
    requires
        pair_lt(x, y),
        pair_lt(y, z),
    ensures
        pair_lt(x, z),
{
    if x.0 == y.0 && y.0 == z.0 {
        crate::text::lemma_lex_lt_irrefl(x.0);
        crate::text::lemma_lex_lt_trans(x.1, y.1, z.1);
    } else if x.0 == y.0 {
        crate::text::lemma_lex_lt_irrefl(x.0);
    } else if y.0 == z.0 {
        crate::text::lemma_lex_lt_irrefl(y.0);
    } else {
        crate::text::lemma_lex_lt_trans(x.0, y.0, z.0);
    }
}

/// Pair comparison at runtime: left symbols first, then right symbols.
fn pair_lex_lt(a1: &String, a2: &String, b1: &String, b2: &String) -> (r: bool)
    ensures
        r == pair_lt((a1@, a2@), (b1@, b2@)),
{
    if *a1 == *b1 {
        proof {
            crate::text::lemma_lex_lt_irrefl(a1@);
        }
        str_lex_lt(a2.as_str(), b2.as_str())
    } else {
        str_lex_lt(a1.as_str(), b1.as_str())
    }
}

/// The counting table lists no pair twice.
pub open spec fn entry_keys_distinct(s: Seq<((String, String), usize)>) -> bool {
    forall|i: int, j: int|
        0 <= i < j < s.len() ==> #[trigger] entry_key(s[i]) != #[trigger] entry_key(s[j])
}

/// Add `c` to the count of the pair `(p1, p2)`, or record the pair with
/// count `c` if it is new; counts saturate rather than wrap.
fn bump_pair(pc: &mut Vec<((String, String), usize)>, p1: &String, p2: &String, c: usize)
    requires
        entry_keys_distinct(old(pc)@),
    ensures
        entry_keys_distinct(final(pc)@),
        final(pc)@.len() >= old(pc)@.len(),
        final(pc)@.len() >= 1,
        forall|i: int|
            0 <= i < old(pc)@.len() ==> entry_key(#[trigger] final(pc)@[i]) == entry_key(
                old(pc)@[i],
            ),
        forall|i: int|
            0 <= i < old(pc)@.len() && entry_key(#[trigger] old(pc)@[i]) != (p1@, p2@) ==> final(pc)@[i].1 == old(pc)@[i].1,
        forall|i: int|
            0 <= i < old(pc)@.len() && entry_key(#[trigger] old(pc)@[i]) == (p1@, p2@) ==> final(pc)@[i].1 == sat_cap((old(pc)@[i].1 + c) as nat),
        has_entry_key(old(pc)@, (p1@, p2@)) ==> final(pc)@.len() == old(pc)@.len(),
        !has_entry_key(old(pc)@, (p1@, p2@)) ==> final(pc)@.len() == old(pc)@.len() + 1
            && entry_key(final(pc)@[old(pc)@.len() as int]) == (p1@, p2@)
            && final(pc)@[old(pc)@.len() as int].1 == c,
{
    let mut i: usize = 0;
    while i < pc.len()
        invariant
            i <= pc@.len(),
            pc@ == old(pc)@,
            entry_keys_distinct(pc@),
            forall|k: int| 0 <= k < i ==> entry_key(#[trigger] pc@[k]) != (p1@, p2@),
        decreases pc@.len() - i,
    {
        if pc[i].0.0 == *p1 && pc[i].0.1 == *p2 {
            let cur = pc[i].1;
            let nc = if cur <= usize::MAX - c {
                cur + c
            } else {
                usize::MAX
            };
            let ghost before = pc@;
            proof {
                assert(entry_key(before[i as int]) == (p1@, p2@));
                assert(has_entry_key(before, (p1@, p2@)));
            }
            pc[i] = ((p1.clone(), p2.clone()), nc);
            proof {
                assert(pc@ =~= before.update(i as int, pc@[i as int]));
                assert(entry_key(pc@[i as int]) == (p1@, p2@));
                assert(nc == sat_cap((before[i as int].1 + c) as nat));
                assert forall|k: int| 0 <= k < pc@.len() implies entry_key(#[trigger] pc@[k])
                    == entry_key(before[k]) by {
                    if k != i {
                        assert(pc@[k] == before[k]);
                    }
                }
                assert forall|a: int, b: int| 0 <= a < b < pc@.len() implies #[trigger] entry_key(
                    pc@[a],
                ) != #[trigger] entry_key(pc@[b]) by {
                    assert(entry_key(pc@[a]) == entry_key(before[a]));
                    assert(entry_key(pc@[b]) == entry_key(before[b]));
                }
                assert forall|k: int|
                    0 <= k < before.len() && entry_key(#[trigger] before[k]) == (p1@, p2@)
                    implies pc@[k].1 == sat_cap((before[k].1 + c) as nat) by {
                    if k != i {
                        assert(entry_key(before[k]) != entry_key(before[i as int]));
                    }
                }
            }
            return ;
        }
        i += 1;
    }
    let ghost before = pc@;
    proof {
        assert(!has_entry_key(before, (p1@, p2@))) by {
            if has_entry_key(before, (p1@, p2@)) {
                let j = choose|j: int|
                    0 <= j < before.len() && entry_key(#[trigger] before[j]) == (p1@, p2@);
                assert(false);
            }
        }
    }
    pc.push(((p1.clone(), p2.clone()), c));
    proof {
        assert(pc@ =~= before.push(pc@[pc@.len() - 1]));
        assert(entry_key(pc@[pc@.len() - 1]) == (p1@, p2@));
        assert forall|k: int| 0 <= k < before.len() implies entry_key(#[trigger] pc@[k])
            == entry_key(before[k]) by {
            assert(pc@[k] == before[k]);
        }
        assert forall|k: int, j: int| 0 <= k < j < pc@.len() implies entry_key(pc@[k])
            != entry_key(pc@[j]) by {
            if j < pc@.len() - 1 {
                assert(entry_key(before[k]) != entry_key(before[j]));
            } else {
                assert(entry_key(pc@[k]) == entry_key(before[k]));
                assert(entry_key(pc@[j]) == (p1@, p2@));
            }
        }
    }
}

/// The entry with the greatest count; ties go to the lexicographically least
/// pair, left symbol first, so selection is deterministic.
fn select_best(pc: &Vec<((String, String), usize)>) -> (r: usize)
    requires
        pc@.len() >= 1,
    ensures
        r < pc@.len(),
        forall|k: int| 0 <= k < pc@.len() ==> (#[trigger] pc@[k].1) <= pc@[r as int].1,
        forall|k: int|
            0 <= k < pc@.len() && (#[trigger] pc@[k].1) == pc@[r as int].1 ==> !pair_lt(
                entry_key(pc@[k]),
                entry_key(pc@[r as int]),
            ),
{
    let mut best: usize = 0;
    let mut i: usize = 1;
    proof {
        crate::text::lemma_lex_lt_irrefl(entry_key(pc@[0]).0);
        crate::text::lemma_lex_lt_irrefl(entry_key(pc@[0]).1);
    }
    while i < pc.len()
        invariant
            best < i,
            1 <= i <= pc@.len(),
            forall|k: int| 0 <= k < i ==> (#[trigger] pc@[k].1) <= pc@[best as int].1,
            forall|k: int|
                0 <= k < i && (#[trigger] pc@[k].1) == pc@[best as int].1 ==> !pair_lt(
                    entry_key(pc@[k]),
                    entry_key(pc@[best as int]),
                ),
        decreases pc@.len() - i,
    {
        let better = pc[i].1 > pc[best].1 || (pc[i].1 == pc[best].1 && pair_lex_lt(
            &pc[i].0.0,
            &pc[i].0.1,
            &pc[best].0.0,
            &pc[best].0.1,
        ));
        if better {
            proof {
                let ghost ob = best as int;
                assert forall|k: int|
                    0 <= k < i + 1 && (#[trigger] pc@[k].1) == pc@[i as int].1 implies !pair_lt(
                    entry_key(pc@[k]),
                    entry_key(pc@[i as int]),
                ) by {
                    if k < i {
                        assert(pc@[k].1 == pc@[ob].1);
                        if pair_lt(entry_key(pc@[k]), entry_key(pc@[i as int])) {
                            lemma_pair_lt_trans(
                                entry_key(pc@[k]),
                                entry_key(pc@[i as int]),
                                entry_key(pc@[ob]),
                            );
                        }
                    } else if k == i {
                        crate::text::lemma_lex_lt_irrefl(entry_key(pc@[k]).0);
                        crate::text::lemma_lex_lt_irrefl(entry_key(pc@[k]).1);
                    }
                }
            }
            best = i;
        }
        i += 1;
    }
    best
}

} // verus!
