//! The merge model: how one merge rule rewrites a word's symbol split, how a
//! rule sequence is replayed in learned order, and the laws those passes obey.

use vstd::prelude::*;
use crate::text::{is_ws, good_word, split_ws, str_views};

verus! {

/// One left-to-right pass over a split: every non-overlapping adjacent
/// occurrence of `(l, r)` becomes the single symbol `l + r`, and the scan
/// continues after the merged symbol.
pub open spec fn apply_merge(ps: Seq<Seq<char>>, l: Seq<char>, r: Seq<char>) -> Seq<Seq<char>>
    decreases ps.len(),
{
    if ps.len() >= 2 && ps[0] == l && ps[1] == r {
        seq![l + r] + apply_merge(ps.skip(2), l, r)
    } else if ps.len() >= 1 {
        seq![ps[0]] + apply_merge(ps.skip(1), l, r)
    } else {
        Seq::empty()
    }
}

/// Replay a rule sequence in order, one full pass per rule.
pub open spec fn apply_merges(ps: Seq<Seq<char>>, ms: Seq<(Seq<char>, Seq<char>)>) -> Seq<
    Seq<char>,
>
    decreases ms.len(),
{
    if ms.len() == 0 {
        ps
    } else {
        apply_merges(apply_merge(ps, ms[0].0, ms[0].1), ms.skip(1))
    }
}

/// The single-character symbols of a word.
pub open spec fn chars_of(w: Seq<char>) -> Seq<Seq<char>> {
    w.map_values(|c: char| seq![c])
}

/// The tokens of one word under a rule sequence: start from single
/// characters, replay every rule in learned order.
pub open spec fn encode_word(w: Seq<char>, ms: Seq<(Seq<char>, Seq<char>)>) -> Seq<Seq<char>> {
    apply_merges(chars_of(w), ms)
}

/// The tokens of a sequence of words, concatenated in order.
pub open spec fn encode_words(ws: Seq<Seq<char>>, ms: Seq<(Seq<char>, Seq<char>)>) -> Seq<
    Seq<char>,
>
    decreases ws.len(),
{
    if ws.len() == 0 {
        Seq::empty()
    } else {
        encode_word(ws[0], ms) + encode_words(ws.skip(1), ms)
    }
}

/// The tokens of a whole text: each whitespace-delimited word's tokens, in
/// input order.
pub open spec fn encode_text(t: Seq<char>, ms: Seq<(Seq<char>, Seq<char>)>) -> Seq<Seq<char>> {
    encode_words(split_ws(t), ms)
}

/// The pair views of a vector of merge rules.
pub open spec fn merge_views(ms: Seq<(String, String)>) -> Seq<(Seq<char>, Seq<char>)> {
    ms.map_values(|p: (String, String)| (p.0@, p.1@))
}

/// Concatenation of a sequence of symbols into one character sequence.
pub open spec fn concat_all(ts: Seq<Seq<char>>) -> Seq<char>
    decreases ts.len(),
{
    if ts.len() == 0 {
        Seq::empty()
    } else {
        ts[0] + concat_all(ts.skip(1))
    }
}

/// The non-whitespace content of a text, in original order.
pub open spec fn non_ws(t: Seq<char>) -> Seq<char>
    decreases t.len(),
{
    if t.len() == 0 {
        Seq::empty()
    } else if is_ws(t[0]) {
        non_ws(t.skip(1))
    } else {
        seq![t[0]] + non_ws(t.skip(1))
    }
}

pub proof fn lemma_concat_cons(x: Seq<char>, ts: Seq<Seq<char>>)
    ensures
        concat_all(seq![x] + ts) == x + concat_all(ts),
{
    let c = seq![x] + ts;
    assert(c[0] == x);
    assert(c.skip(1) =~= ts);
}

/// A merge pass never changes the concatenated text of a split.
pub proof fn lemma_apply_merge_concat(ps: Seq<Seq<char>>, l: Seq<char>, r: Seq<char>)
    ensures
        concat_all(apply_merge(ps, l, r)) == concat_all(ps),
    decreases ps.len(),
{
    if ps.len() >= 2 && ps[0] == l && ps[1] == r {
        lemma_apply_merge_concat(ps.skip(2), l, r);
        lemma_concat_cons(l + r, apply_merge(ps.skip(2), l, r));
        assert(ps.skip(1)[0] == ps[1]);
        assert(ps.skip(1).skip(1) =~= ps.skip(2));
        assert(concat_all(ps) == ps[0] + concat_all(ps.skip(1)));
        assert(concat_all(ps.skip(1)) == ps[1] + concat_all(ps.skip(2)));
        assert(ps[0] + (ps[1] + concat_all(ps.skip(2))) =~= (ps[0] + ps[1]) + concat_all(
            ps.skip(2),
        ));
        assert(l + r == ps[0] + ps[1]);
        assert((l + r) + concat_all(ps.skip(2)) =~= l + (r + concat_all(ps.skip(2))));
    } else if ps.len() >= 1 {
        lemma_apply_merge_concat(ps.skip(1), l, r);
        lemma_concat_cons(ps[0], apply_merge(ps.skip(1), l, r));
    }
}

/// A merge pass never lengthens a split.
pub proof fn lemma_apply_merge_len(ps: Seq<Seq<char>>, l: Seq<char>, r: Seq<char>)
    ensures
        apply_merge(ps, l, r).len() <= ps.len(),
        ps.len() >= 1 ==> apply_merge(ps, l, r).len() >= 1,
    decreases ps.len(),
{
    if ps.len() >= 2 && ps[0] == l && ps[1] == r {
        lemma_apply_merge_len(ps.skip(2), l, r);
    } else if ps.len() >= 1 {
        lemma_apply_merge_len(ps.skip(1), l, r);
    }
}

/// Replaying rules never changes the concatenated text of a split.
pub proof fn lemma_apply_merges_concat(ps: Seq<Seq<char>>, ms: Seq<(Seq<char>, Seq<char>)>)
    ensures
        concat_all(apply_merges(ps, ms)) == concat_all(ps),
    decreases ms.len(),
{
    if ms.len() > 0 {
        lemma_apply_merge_concat(ps, ms[0].0, ms[0].1);
        lemma_apply_merges_concat(apply_merge(ps, ms[0].0, ms[0].1), ms.skip(1));
    }
}

/// Replaying rules never lengthens a split.
pub proof fn lemma_apply_merges_len(ps: Seq<Seq<char>>, ms: Seq<(Seq<char>, Seq<char>)>)
    ensures
        apply_merges(ps, ms).len() <= ps.len(),
        ps.len() >= 1 ==> apply_merges(ps, ms).len() >= 1,
    decreases ms.len(),
{
    if ms.len() > 0 {
        lemma_apply_merge_len(ps, ms[0].0, ms[0].1);
        lemma_apply_merges_len(apply_merge(ps, ms[0].0, ms[0].1), ms.skip(1));
    }
}

/// The character split of a word concatenates back to the word.
pub proof fn lemma_concat_chars_of(w: Seq<char>)
    ensures
        concat_all(chars_of(w)) == w,
    decreases w.len(),
{
    if w.len() == 0 {
        assert(chars_of(w) =~= Seq::<Seq<char>>::empty());
        assert(concat_all(chars_of(w)) =~= w);
    } else {
        lemma_concat_chars_of(w.skip(1));
        assert(chars_of(w.skip(1)) =~= chars_of(w).skip(1));
        assert(chars_of(w)[0] == seq![w[0]]);
        assert(seq![w[0]] + w.skip(1) =~= w);
    }
}

/// The words of a text concatenate to exactly its non-whitespace content.
pub proof fn lemma_concat_split_ws(t: Seq<char>)
    ensures
        concat_all(split_ws(t)) == non_ws(t),
    decreases t.len(),
{
    if t.len() == 0 {
    } else if is_ws(t[0]) {
        lemma_concat_split_ws(t.skip(1));
    } else {
        crate::text::lemma_word_len(t);
        let k = crate::text::word_len(t) as int;
        lemma_concat_split_ws(t.skip(k));
        lemma_non_ws_prefix(t, k);
        lemma_concat_cons(t.take(k), split_ws(t.skip(k)));
    }
}

/// Peeling a whitespace-free prefix off a text commutes with `non_ws`.
pub proof fn lemma_non_ws_prefix(t: Seq<char>, k: int)
    requires
        0 <= k <= t.len(),
        forall|i: int| 0 <= i < k ==> !is_ws(t[i]),
    ensures
        non_ws(t) == t.take(k) + non_ws(t.skip(k)),
    decreases k,
{
    if k == 0 {
        assert(t.skip(0) =~= t);
        assert(t.take(0) + non_ws(t) =~= non_ws(t));
    } else {
        assert(!is_ws(t[0]));
        assert forall|i: int| 0 <= i < k - 1 implies !is_ws(t.skip(1)[i]) by {
            assert(t.skip(1)[i] == t[i + 1]);
        }
        lemma_non_ws_prefix(t.skip(1), k - 1);
        assert(t.skip(1).skip(k - 1) =~= t.skip(k));
        assert(seq![t[0]] + (t.skip(1).take(k - 1) + non_ws(t.skip(k))) =~= t.take(k) + non_ws(
            t.skip(k),
        ));
    }
}

/// Appending one rule means replaying it after all the earlier rules.
pub proof fn lemma_apply_merges_snoc(
    ps: Seq<Seq<char>>,
    ms: Seq<(Seq<char>, Seq<char>)>,
    p: (Seq<char>, Seq<char>),
)
    ensures
        apply_merges(ps, ms.push(p)) == apply_merge(apply_merges(ps, ms), p.0, p.1),
    decreases ms.len(),
{
    if ms.len() == 0 {
        assert(ms.push(p)[0] == p);
        assert(ms.push(p).skip(1) =~= Seq::<(Seq<char>, Seq<char>)>::empty());
        assert(apply_merges(ps, ms.push(p)) == apply_merges(
            apply_merge(ps, p.0, p.1),
            Seq::<(Seq<char>, Seq<char>)>::empty(),
        ));
        assert(apply_merges(apply_merge(ps, p.0, p.1), Seq::<(Seq<char>, Seq<char>)>::empty())
            == apply_merge(ps, p.0, p.1));
        assert(apply_merges(ps, ms) == ps);
    } else {
        assert(ms.push(p)[0] == ms[0]);
        assert(ms.push(p).skip(1) =~= ms.skip(1).push(p));
        lemma_apply_merges_snoc(apply_merge(ps, ms[0].0, ms[0].1), ms.skip(1), p);
        assert(apply_merges(ps, ms.push(p)) == apply_merges(
            apply_merge(ps, ms[0].0, ms[0].1),
            ms.skip(1).push(p),
        ));
        assert(apply_merges(ps, ms) == apply_merges(apply_merge(ps, ms[0].0, ms[0].1), ms.skip(1)));
    }
}

/// The concatenation of two nonempty whitespace-free symbols is one again.
pub proof fn lemma_good_concat(l: Seq<char>, r: Seq<char>)
    requires
        good_word(l),
        good_word(r),
    ensures
        good_word(l + r),
{
    assert forall|i: int| 0 <= i < (l + r).len() implies !is_ws((l + r)[i]) by {
        if i < l.len() {
            assert((l + r)[i] == l[i]);
        } else {
            assert((l + r)[i] == r[i - l.len()]);
        }
    }
}

/// A merge pass over good symbols with a good rule yields good symbols.
pub proof fn lemma_apply_merge_good(ps: Seq<Seq<char>>, l: Seq<char>, r: Seq<char>)
    requires
        forall|i: int| 0 <= i < ps.len() ==> good_word(#[trigger] ps[i]),
        good_word(l),
        good_word(r),
    ensures
        forall|i: int|
            0 <= i < apply_merge(ps, l, r).len() ==> good_word(#[trigger] apply_merge(ps, l, r)[i]),
    decreases ps.len(),
{
    if ps.len() >= 2 && ps[0] == l && ps[1] == r {
        assert(forall|i: int| 0 <= i < ps.skip(2).len() ==> good_word(#[trigger] ps.skip(2)[i]));
        lemma_apply_merge_good(ps.skip(2), l, r);
        lemma_good_concat(l, r);
        let out = apply_merge(ps, l, r);
        assert forall|i: int| 0 <= i < out.len() implies good_word(out[i]) by {
            if i == 0 {
                assert(out[i] == l + r);
            } else {
                assert(out[i] == apply_merge(ps.skip(2), l, r)[i - 1]);
            }
        }
    } else if ps.len() >= 1 {
        assert(forall|i: int| 0 <= i < ps.skip(1).len() ==> good_word(#[trigger] ps.skip(1)[i]));
        lemma_apply_merge_good(ps.skip(1), l, r);
        let out = apply_merge(ps, l, r);
        assert forall|i: int| 0 <= i < out.len() implies good_word(out[i]) by {
            if i == 0 {
                assert(out[i] == ps[0]);
            } else {
                assert(out[i] == apply_merge(ps.skip(1), l, r)[i - 1]);
            }
        }
    }
}

/// The single-character symbols of a word, as owned strings.
pub fn chars_to_symbols(word: &str) -> (r: Vec<String>)
    ensures
        str_views(r@) == chars_of(word@),
{
    let n = word.unicode_len();
    let mut out: Vec<String> = Vec::new();
    let mut i: usize = 0;
    while i < n
        invariant
            i <= n,
            n == word@.len(),
            str_views(out@) == chars_of(word@.take(i as int)),
        decreases n - i,
    {
        let s = word.substring_char(i, i + 1).to_owned();
        proof {
            assert(s@ =~= seq![word@[i as int]]);
            assert(str_views(out@.push(s)) =~= str_views(out@).push(s@));
            assert(chars_of(word@.take(i + 1)) =~= chars_of(word@.take(i as int)).push(
                seq![word@[i as int]],
            ));
        }
        out.push(s);
        i += 1;
    }
    proof {
        assert(word@.take(n as int) =~= word@);
    }
    out
}

/// One runtime merge pass, matching `apply_merge` exactly.
pub fn apply_merge_vec(parts: &Vec<String>, l: &String, r: &String) -> (out: Vec<String>)
    ensures
        str_views(out@) == apply_merge(str_views(parts@), l@, r@),
{
    let mut out: Vec<String> = Vec::new();
    let mut i: usize = 0;
    proof {
        assert(str_views(parts@).skip(0) =~= str_views(parts@));
        assert(str_views(out@) + apply_merge(str_views(parts@), l@, r@) =~= apply_merge(
            str_views(parts@),
            l@,
            r@,
        ));
    }
    while i < parts.len()
        invariant
            i <= parts.len(),
            apply_merge(str_views(parts@), l@, r@) == str_views(out@) + apply_merge(
                str_views(parts@).skip(i as int),
                l@,
                r@,
            ),
        decreases parts.len() - i,
    {
        let ghost pv = str_views(parts@);
        let ghost rest = pv.skip(i as int);
        proof {
            assert(rest[0] == parts@[i as int]@);
            if i + 1 < parts.len() {
                assert(rest[1] == parts@[i + 1]@);
            }
        }
        if i + 1 < parts.len() && parts[i] == *l && parts[i + 1] == *r {
            let merged = l.clone().concat(r.as_str());
            proof {
                assert(rest.skip(2) =~= pv.skip(i + 2));
                assert(apply_merge(rest, l@, r@) == seq![l@ + r@] + apply_merge(
                    pv.skip(i + 2),
                    l@,
                    r@,
                ));
                assert(str_views(out@.push(merged)) =~= str_views(out@) + seq![merged@]);
                assert(str_views(out@) + (seq![merged@] + apply_merge(pv.skip(i + 2), l@, r@))
                    =~= (str_views(out@) + seq![merged@]) + apply_merge(pv.skip(i + 2), l@, r@));
            }
            out.push(merged);
            i += 2;
        } else {
            let kept = parts[i].clone();
            proof {
                assert(rest.skip(1) =~= pv.skip(i + 1));
                assert(apply_merge(rest, l@, r@) == seq![rest[0]] + apply_merge(
                    pv.skip(i + 1),
                    l@,
                    r@,
                ));
                assert(str_views(out@.push(kept)) =~= str_views(out@) + seq![kept@]);
                assert(str_views(out@) + (seq![kept@] + apply_merge(pv.skip(i + 1), l@, r@)) =~= (
                str_views(out@) + seq![kept@]) + apply_merge(pv.skip(i + 1), l@, r@));
            }
            out.push(kept);
            i += 1;
        }
    }
    proof {
        assert(str_views(parts@).skip(parts@.len() as int) =~= Seq::<Seq<char>>::empty());
        assert(str_views(out@) + apply_merge(Seq::<Seq<char>>::empty(), l@, r@) =~= str_views(
            out@,
        ));
    }
    out
}

/// The tokens of one word at runtime: replay every rule in learned order.
pub fn encode_word_vec(word: &str, merges: &Vec<(String, String)>) -> (out: Vec<String>)
    ensures
        str_views(out@) == encode_word(word@, merge_views(merges@)),
{
    let ghost mv = merge_views(merges@);
    let mut parts = chars_to_symbols(word);
    let mut k: usize = 0;
    proof {
        assert(mv.skip(0) =~= mv);
    }
    while k < merges.len()
        invariant
            k <= merges.len(),
            mv == merge_views(merges@),
            encode_word(word@, mv) == apply_merges(str_views(parts@), mv.skip(k as int)),
        decreases merges.len() - k,
    {
        let ghost rest = mv.skip(k as int);
        proof {
            assert(rest[0] == (merges@[k as int].0@, merges@[k as int].1@));
            assert(rest.skip(1) =~= mv.skip(k + 1));
        }
        parts = apply_merge_vec(&parts, &merges[k].0, &merges[k].1);
        k += 1;
    }
    parts
}

} // verus!
