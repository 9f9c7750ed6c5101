//! Unicode-aware whitespace splitting: the mathematical model of how a text
//! decomposes into words, and a verified splitter over it.

use vstd::prelude::*;

verus! {

/// A character counts as whitespace exactly when it has Unicode's
/// White_Space property: the set that `char::is_whitespace` accepts.
pub open spec fn is_ws(c: char) -> bool {
    let u = c as u32;
    (0x09 <= u && u <= 0x0d) || u == 0x20 || u == 0x85 || u == 0xa0 || u == 0x1680 || (0x2000
        <= u && u <= 0x200a) || u == 0x2028 || u == 0x2029 || u == 0x202f || u == 0x205f || u
        == 0x3000
}

/// Runtime test for `is_ws`.
pub fn is_ws_char(c: char) -> (r: bool)
    ensures
        r == is_ws(c),
{
    let u = c as u32;
    (0x09 <= u && u <= 0x0d) || u == 0x20 || u == 0x85 || u == 0xa0 || u == 0x1680 || (0x2000
        <= u && u <= 0x200a) || u == 0x2028 || u == 0x2029 || u == 0x202f || u == 0x205f || u
        == 0x3000
}

/// A sequence of characters none of which is whitespace.
pub open spec fn ws_free(w: Seq<char>) -> bool {
    forall|i: int| 0 <= i < w.len() ==> !is_ws(w[i])
}

/// A word as produced by whitespace splitting: nonempty and whitespace-free.
pub open spec fn good_word(w: Seq<char>) -> bool {
    w.len() > 0 && ws_free(w)
}

/// Length of the maximal whitespace-free prefix of `s`.
pub open spec fn word_len(s: Seq<char>) -> nat
    decreases s.len(),
{
    if s.len() == 0 || is_ws(s[0]) {
        0
    } else {
        1 + word_len(s.skip(1))
    }
}

pub proof fn lemma_word_len(s: Seq<char>)
    ensures
        word_len(s) <= s.len(),
        forall|i: int| 0 <= i < word_len(s) ==> !is_ws(s[i]),
        word_len(s) < s.len() ==> is_ws(s[word_len(s) as int]),
        s.len() > 0 && !is_ws(s[0]) ==> word_len(s) >= 1,
    decreases s.len(),
{
    if s.len() == 0 || is_ws(s[0]) {
    } else {
        lemma_word_len(s.skip(1));
        assert forall|i: int| 0 <= i < word_len(s) implies !is_ws(s[i]) by {
            if i > 0 {
                assert(s.skip(1)[i - 1] == s[i]);
            }
        }
        if word_len(s) < s.len() {
            assert(s.skip(1)[word_len(s) - 1] == s[word_len(s) as int]);
        }
    }
}

/// If the first `k` characters are not whitespace and position `k` is the end
/// or whitespace, then the leading word has length exactly `k`.
pub proof fn lemma_word_len_is(s: Seq<char>, k: int)
    requires
        0 <= k <= s.len(),
        forall|i: int| 0 <= i < k ==> !is_ws(s[i]),
        k == s.len() || is_ws(s[k]),
    ensures
        word_len(s) == k,
    decreases k,
{
    if k > 0 {
        assert(!is_ws(s[0]));
        assert forall|i: int| 0 <= i < k - 1 implies !is_ws(s.skip(1)[i]) by {
            assert(s.skip(1)[i] == s[i + 1]);
        }
        if k < s.len() {
            assert(s.skip(1)[k - 1] == s[k]);
        }
        lemma_word_len_is(s.skip(1), k - 1);
    }
}

/// The words of `s`: maximal whitespace-free runs, in order.
pub open spec fn split_ws(s: Seq<char>) -> Seq<Seq<char>>
    decreases s.len(),
    via split_ws_decreases
{
    if s.len() == 0 {
        Seq::empty()
    } else if is_ws(s[0]) {
        split_ws(s.skip(1))
    } else {
        seq![s.take(word_len(s) as int)] + split_ws(s.skip(word_len(s) as int))
    }
}

#[via_fn]
proof fn split_ws_decreases(s: Seq<char>) {
    lemma_word_len(s);
}

/// Every word that splitting yields is nonempty and whitespace-free.
pub proof fn lemma_split_ws_words(s: Seq<char>)
    ensures
        forall|k: int| 0 <= k < split_ws(s).len() ==> good_word(#[trigger] split_ws(s)[k]),
    decreases s.len(),
{
    if s.len() == 0 {
    } else if is_ws(s[0]) {
        lemma_split_ws_words(s.skip(1));
        assert(split_ws(s) == split_ws(s.skip(1)));
    } else {
        lemma_word_len(s);
        lemma_split_ws_words(s.skip(word_len(s) as int));
        let w = s.take(word_len(s) as int);
        let rest = split_ws(s.skip(word_len(s) as int));
        assert forall|i: int| 0 <= i < w.len() implies !is_ws(w[i]) by {
            assert(w[i] == s[i]);
        }
        assert(good_word(w));
        assert(split_ws(s) == seq![w] + rest);
        assert forall|k: int| 0 <= k < split_ws(s).len() implies good_word(
            #[trigger] split_ws(s)[k],
        ) by {
            if k == 0 {
                assert(split_ws(s)[k] == w);
            } else {
                assert(split_ws(s)[k] == rest[k - 1]);
            }
        }
    }
}

/// The views of a sequence of strings.
pub open spec fn str_views(v: Seq<String>) -> Seq<Seq<char>> {
    v.map_values(|s: String| s@)
}

/// Strict lexicographic order on character sequences, by code point.
pub open spec fn lex_lt(a: Seq<char>, b: Seq<char>) -> bool
    decreases a.len(),
{
    if b.len() == 0 {
        false
    } else if a.len() == 0 {
        true
    } else if a[0] != b[0] {
        (a[0] as u32) < (b[0] as u32)
    } else {
        lex_lt(a.skip(1), b.skip(1))
    }
}

/// The lexicographic order is irreflexive.
pub proof fn lemma_lex_lt_irrefl(a: Seq<char>)
    ensures
        !lex_lt(a, a),
    decreases a.len(),
{
    if a.len() > 0 {
        lemma_lex_lt_irrefl(a.skip(1));
    }
}

/// The lexicographic order is transitive.
pub proof fn lemma_lex_lt_trans(a: Seq<char>, b: Seq<char>, c: Seq<char>)
    requires
        lex_lt(a, b),
        lex_lt(b, c),
    ensures
        lex_lt(a, c),
    decreases a.len(),
{
    if a.len() > 0 && b.len() > 0 && c.len() > 0 {
        if a[0] == b[0] && b[0] == c[0] {
            lemma_lex_lt_trans(a.skip(1), b.skip(1), c.skip(1));
        }
    }
}

/// Runtime test for `lex_lt`.
pub fn str_lex_lt(a: &str, b: &str) -> (r: bool)
    ensures
        r == lex_lt(a@, b@),
{
    let na = a.unicode_len();
    let nb = b.unicode_len();
    let mut i: usize = 0;
    proof {
        assert(a@.skip(0) =~= a@);
        assert(b@.skip(0) =~= b@);
    }
    while i < na && i < nb
        invariant
            i <= na,
            i <= nb,
            na == a@.len(),
            nb == b@.len(),
            lex_lt(a@, b@) == lex_lt(a@.skip(i as int), b@.skip(i as int)),
        decreases na - i,
    {
        let ca = a.get_char(i);
        let cb = b.get_char(i);
        proof {
            assert(a@.skip(i as int)[0] == ca);
            assert(b@.skip(i as int)[0] == cb);
        }
        if (ca as u32) < (cb as u32) {
            return true;
        }
        if (cb as u32) < (ca as u32) {
            return false;
        }
        proof {
            assert(ca == cb);
            assert(a@.skip(i as int).skip(1) =~= a@.skip(i + 1));
            assert(b@.skip(i as int).skip(1) =~= b@.skip(i + 1));
        }
        i += 1;
    }
    proof {
        if i >= na {
            assert(a@.skip(i as int).len() == 0);
        }
        if i >= nb {
            assert(b@.skip(i as int).len() == 0);
        }
    }
    i < nb
}

/// End of the word that starts at `start`: the first whitespace position at
/// or after `start`, or the text's length if there is none.
fn word_end(text: &str, start: usize) -> (j: usize)
    requires
        start < text@.len(),
        !is_ws(text@[start as int]),
    ensures
        start < j <= text@.len(),
        word_len(text@.skip(start as int)) == j - start,
{
    let n = text.unicode_len();
    let mut j = start + 1;
    while j < n
        invariant
            start < j <= n,
            n == text@.len(),
            forall|k: int| start <= k < j ==> !is_ws(text@[k]),
        decreases n - j,
    {
        let c = text.get_char(j);
        if is_ws_char(c) {
            proof {
                let t = text@.skip(start as int);
                assert forall|i: int| 0 <= i < j - start implies !is_ws(t[i]) by {
                    assert(t[i] == text@[start + i]);
                }
                assert(t[j - start] == text@[j as int]);
                lemma_word_len_is(t, j - start);
            }
            return j;
        }
        j += 1;
    }
    proof {
        let t = text@.skip(start as int);
        assert forall|i: int| 0 <= i < n - start implies !is_ws(t[i]) by {
            assert(t[i] == text@[start + i]);
        }
        lemma_word_len_is(t, n - start);
    }
    n
}

/// Split a text into its whitespace-delimited words, in order.
pub fn split_words(text: &str) -> (r: Vec<String>)
    ensures
        str_views(r@) == split_ws(text@),
{
    let n = text.unicode_len();
    let mut out: Vec<String> = Vec::new();
    let mut i: usize = 0;
    proof {
        assert(text@.skip(0) =~= text@);
        assert(str_views(out@) + split_ws(text@) =~= split_ws(text@));
    }
    while i < n
        invariant
            i <= n,
            n == text@.len(),
            split_ws(text@) == str_views(out@) + split_ws(text@.skip(i as int)),
        decreases n - i,
    {
        let c = text.get_char(i);
        if is_ws_char(c) {
            proof {
                let t = text@.skip(i as int);
                assert(t[0] == text@[i as int]);
                assert(t.skip(1) =~= text@.skip(i + 1));
            }
            i += 1;
        } else {
            let j = word_end(text, i);
            let w = text.substring_char(i, j).to_owned();
            proof {
                let t = text@.skip(i as int);
                assert(t[0] == text@[i as int]);
                assert(word_len(t) == j - i);
                assert(t.take((j - i) as int) =~= text@.subrange(i as int, j as int));
                assert(t.skip((j - i) as int) =~= text@.skip(j as int));
                assert(split_ws(t) == seq![w@] + split_ws(text@.skip(j as int)));
                assert(str_views(out@.push(w)) =~= str_views(out@) + seq![w@]);
                assert(str_views(out@) + (seq![w@] + split_ws(text@.skip(j as int))) =~= (
                str_views(out@) + seq![w@]) + split_ws(text@.skip(j as int)));
            }
            out.push(w);
            i = j;
        }
    }
    proof {
        assert(text@.skip(n as int) =~= Seq::<char>::empty());
        assert(str_views(out@) + split_ws(text@.skip(n as int)) =~= str_views(out@));
    }
    out
}

} // verus!
