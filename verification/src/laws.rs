//! Library-wide laws, proved once over the same models the contracts use.

use vstd::prelude::*;
use crate::text::{split_ws};
use crate::merge::{
    encode_text, encode_words, encode_word, chars_of, concat_all, non_ws,
    lemma_apply_merges_concat, lemma_apply_merges_len, lemma_concat_chars_of,
    lemma_concat_split_ws,
};
use crate::serial::{
    good_views, ser_spec, model_tokens, lemma_split_join, lemma_model_tokens_shape,
    lemma_model_tokens_injective,
};

verus! {

/// Encoding is a pure function of the text and the rules: any two results of
/// encoding the same text with the same model are equal.
pub proof fn lemma_encode_deterministic(
    a: Seq<Seq<char>>,
    b: Seq<Seq<char>>,
    t: Seq<char>,
    ms: Seq<(Seq<char>, Seq<char>)>,
)
    requires
        a == encode_text(t, ms),
        b == encode_text(t, ms),
    ensures
        a == b,
{
}

/// Concatenating two token lists concatenates their texts.
pub proof fn lemma_concat_append(a: Seq<Seq<char>>, b: Seq<Seq<char>>)
    ensures
        concat_all(a + b) == concat_all(a) + concat_all(b),
    decreases a.len(),
{
    if a.len() == 0 {
        assert(a + b =~= b);
        assert(concat_all(a) =~= Seq::<char>::empty());
        assert(concat_all(a) + concat_all(b) =~= concat_all(b));
    } else {
        assert((a + b)[0] == a[0]);
        assert((a + b).skip(1) =~= a.skip(1) + b);
        lemma_concat_append(a.skip(1), b);
        assert(concat_all(a + b) == a[0] + (concat_all(a.skip(1)) + concat_all(b)));
        assert(a[0] + (concat_all(a.skip(1)) + concat_all(b)) =~= (a[0] + concat_all(a.skip(1)))
            + concat_all(b));
    }
}

/// Word-by-word encoding keeps the concatenated text of the words.
pub proof fn lemma_encode_words_concat(ws: Seq<Seq<char>>, ms: Seq<(Seq<char>, Seq<char>)>)
    ensures
        concat_all(encode_words(ws, ms)) == concat_all(ws),
    decreases ws.len(),
{
    if ws.len() > 0 {
        lemma_encode_words_concat(ws.skip(1), ms);
        lemma_concat_append(encode_word(ws[0], ms), encode_words(ws.skip(1), ms));
        lemma_apply_merges_concat(chars_of(ws[0]), ms);
        lemma_concat_chars_of(ws[0]);
    }
}

/// Joining all tokens of an encoding gives back exactly the text's
/// non-whitespace characters, in their original order.
pub proof fn lemma_tokens_concat(t: Seq<char>, ms: Seq<(Seq<char>, Seq<char>)>)
    ensures
        concat_all(encode_text(t, ms)) == non_ws(t),
{
    lemma_encode_words_concat(split_ws(t), ms);
    lemma_concat_split_ws(t);
}

/// Word-by-word token counts: never more tokens than characters, and
/// exactly as many when there are no rules.
pub proof fn lemma_encode_words_count(ws: Seq<Seq<char>>, ms: Seq<(Seq<char>, Seq<char>)>)
    ensures
        encode_words(ws, ms).len() <= concat_all(ws).len(),
        ms.len() == 0 ==> encode_words(ws, ms).len() == concat_all(ws).len(),
    decreases ws.len(),
{
    if ws.len() > 0 {
        lemma_encode_words_count(ws.skip(1), ms);
        lemma_apply_merges_len(chars_of(ws[0]), ms);
        assert(chars_of(ws[0]).len() == ws[0].len());
        if ms.len() == 0 {
            assert(encode_word(ws[0], ms) == chars_of(ws[0]));
        }
    }
}

/// An encoding never has more tokens than the text has non-whitespace
/// characters; with an empty rule sequence it has exactly that many.
pub proof fn lemma_token_count(t: Seq<char>, ms: Seq<(Seq<char>, Seq<char>)>)
    ensures
        encode_text(t, ms).len() <= non_ws(t).len(),
        ms.len() == 0 ==> encode_text(t, ms).len() == non_ws(t).len(),
{
    lemma_encode_words_count(split_ws(t), ms);
    lemma_concat_split_ws(t);
}

/// The serialized text of a well-formed model determines the model: its
/// whitespace split recovers the written tokens, and no other well-formed
/// model writes the same tokens. Together with the contracts of `serialize`
/// and `deserialize`, reading a serialized model back yields exactly the
/// model that was written.
pub proof fn lemma_serialization_round_trip(ms: Seq<(Seq<char>, Seq<char>)>, vs: Seq<Seq<char>>)
    requires
        good_views(ms, vs),
    ensures
        split_ws(ser_spec(ms, vs)) == model_tokens(ms, vs),
        forall|ms2: Seq<(Seq<char>, Seq<char>)>, vs2: Seq<Seq<char>>|
            good_views(ms2, vs2) && #[trigger] model_tokens(ms2, vs2) == model_tokens(ms, vs)
                ==> ms2 == ms && vs2 == vs,
{
    lemma_model_tokens_shape(ms, vs);
    lemma_split_join(model_tokens(ms, vs));
    assert forall|ms2: Seq<(Seq<char>, Seq<char>)>, vs2: Seq<Seq<char>>|
        good_views(ms2, vs2) && #[trigger] model_tokens(ms2, vs2) == model_tokens(ms, vs)
        implies ms2 == ms && vs2 == vs by {
        lemma_model_tokens_injective(ms2, vs2, ms, vs);
    }
}

} // verus!
