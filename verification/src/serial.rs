//! Model persistence: a whitespace-delimited text form for a trained model,
//! and the lemmas that make reading it back exact.
//!
//! Every symbol is written with a leading 's'; a lone 'm' separates the rule
//! pairs from the vocabulary entries. Model symbols never contain whitespace,
//! so splitting the serialized text on whitespace recovers exactly the
//! written tokens, and the rule order survives the round trip unchanged.

use vstd::prelude::*;
use crate::text::{good_word, split_ws, str_views, split_words};
use crate::bpe::BPE;
use crate::merge::merge_views;

verus! {

/// The written form of one symbol: a leading 's', then the symbol itself.
pub open spec fn sym_token(x: Seq<char>) -> Seq<char> {
    seq!['s'] + x
}

/// The token that separates rule pairs from vocabulary entries.
pub open spec fn marker() -> Seq<char> {
    seq!['m']
}

/// The written tokens of the rule sequence: left and right of each pair.
pub open spec fn pair_tokens(ms: Seq<(Seq<char>, Seq<char>)>) -> Seq<Seq<char>>
    decreases ms.len(),
{
    if ms.len() == 0 {
        Seq::empty()
    } else {
        seq![sym_token(ms[0].0), sym_token(ms[0].1)] + pair_tokens(ms.skip(1))
    }
}

/// The written tokens of the vocabulary.
pub open spec fn sym_tokens(vs: Seq<Seq<char>>) -> Seq<Seq<char>> {
    vs.map_values(|x: Seq<char>| sym_token(x))
}

/// All tokens of a model, in writing order.
pub open spec fn model_tokens(ms: Seq<(Seq<char>, Seq<char>)>, vs: Seq<Seq<char>>) -> Seq<
    Seq<char>,
> {
    pair_tokens(ms) + seq![marker()] + sym_tokens(vs)
}

/// Every symbol of the views is nonempty and whitespace-free.
pub open spec fn good_views(ms: Seq<(Seq<char>, Seq<char>)>, vs: Seq<Seq<char>>) -> bool {
    &&& forall|i: int| 0 <= i < ms.len() ==> good_word(#[trigger] ms[i].0) && good_word(ms[i].1)
    &&& forall|i: int| 0 <= i < vs.len() ==> good_word(#[trigger] vs[i])
}

/// Tokens joined with single spaces.
pub open spec fn join_sp(ts: Seq<Seq<char>>) -> Seq<char>
    decreases ts.len(),
{
    if ts.len() == 0 {
        Seq::empty()
    } else if ts.len() == 1 {
        ts[0]
    } else {
        ts[0] + seq![' '] + join_sp(ts.skip(1))
    }
}

/// The serialized text of a model.
pub open spec fn ser_spec(ms: Seq<(Seq<char>, Seq<char>)>, vs: Seq<Seq<char>>) -> Seq<char> {
    join_sp(model_tokens(ms, vs))
}

pub proof fn lemma_pair_tokens_shape(ms: Seq<(Seq<char>, Seq<char>)>)
    ensures
        pair_tokens(ms).len() == 2 * ms.len(),
        forall|j: int|
            0 <= j < ms.len() ==> pair_tokens(ms)[2 * j] == sym_token(#[trigger] ms[j].0)
                && pair_tokens(ms)[2 * j + 1] == sym_token(ms[j].1),
    decreases ms.len(),
{
    if ms.len() > 0 {
        lemma_pair_tokens_shape(ms.skip(1));
        assert forall|j: int|
            0 <= j < ms.len() implies pair_tokens(ms)[2 * j] == sym_token(#[trigger] ms[j].0)
            && pair_tokens(ms)[2 * j + 1] == sym_token(ms[j].1) by {
            if j > 0 {
                assert(ms.skip(1)[j - 1] == ms[j]);
                assert(pair_tokens(ms)[2 * j] == pair_tokens(ms.skip(1))[2 * (j - 1)]);
                assert(pair_tokens(ms)[2 * j + 1] == pair_tokens(ms.skip(1))[2 * (j - 1) + 1]);
            }
        }
    }
}

pub proof fn lemma_pair_tokens_snoc(ms: Seq<(Seq<char>, Seq<char>)>, p: (Seq<char>, Seq<char>))
    ensures
        pair_tokens(ms.push(p)) == pair_tokens(ms) + seq![sym_token(p.0), sym_token(p.1)],
    decreases ms.len(),
{
    if ms.len() == 0 {
        assert(ms.push(p)[0] == p);
        assert(ms.push(p).skip(1) =~= Seq::<(Seq<char>, Seq<char>)>::empty());
        assert(pair_tokens(Seq::<(Seq<char>, Seq<char>)>::empty()) =~= Seq::<Seq<char>>::empty());
        assert(pair_tokens(ms.push(p)) == seq![sym_token(p.0), sym_token(p.1)] + pair_tokens(
            Seq::<(Seq<char>, Seq<char>)>::empty(),
        ));
        assert(pair_tokens(ms.push(p)) =~= pair_tokens(ms) + seq![sym_token(p.0), sym_token(p.1)]);
    } else {
        assert(ms.push(p)[0] == ms[0]);
        assert(ms.push(p).skip(1) =~= ms.skip(1).push(p));
        lemma_pair_tokens_snoc(ms.skip(1), p);
        assert(pair_tokens(ms.push(p)) == seq![sym_token(ms[0].0), sym_token(ms[0].1)]
            + pair_tokens(ms.skip(1).push(p)));
        assert(pair_tokens(ms) == seq![sym_token(ms[0].0), sym_token(ms[0].1)] + pair_tokens(
            ms.skip(1),
        ));
        assert(pair_tokens(ms.push(p)) =~= pair_tokens(ms) + seq![sym_token(p.0), sym_token(p.1)]);
    }
}

/// Where each token of a well-formed model's writing sits, what it holds,
/// and that every one of them is a good word.
pub proof fn lemma_model_tokens_shape(ms: Seq<(Seq<char>, Seq<char>)>, vs: Seq<Seq<char>>)
    requires
        good_views(ms, vs),
    ensures
        model_tokens(ms, vs).len() == 2 * ms.len() + 1 + vs.len(),
        forall|j: int|
            0 <= j < ms.len() ==> model_tokens(ms, vs)[2 * j] == sym_token(#[trigger] ms[j].0)
                && model_tokens(ms, vs)[2 * j + 1] == sym_token(ms[j].1),
        model_tokens(ms, vs)[2 * (ms.len() as int)] == marker(),
        forall|k: int|
            2 * ms.len() < k < model_tokens(ms, vs).len() ==> #[trigger] model_tokens(ms, vs)[k]
                == sym_token(vs[k - 2 * ms.len() - 1]),
        forall|k: int|
            0 <= k < model_tokens(ms, vs).len() && k != 2 * ms.len() ==> (
            #[trigger] model_tokens(ms, vs)[k])[0] == 's' && model_tokens(ms, vs)[k].len() >= 2,
        forall|k: int|
            0 <= k < model_tokens(ms, vs).len() ==> good_word(#[trigger] model_tokens(ms, vs)[k]),
{
    lemma_pair_tokens_shape(ms);
    let t = model_tokens(ms, vs);
    assert(t.len() == 2 * ms.len() + 1 + vs.len());
    assert forall|j: int|
        0 <= j < ms.len() implies t[2 * j] == sym_token(#[trigger] ms[j].0) && t[2 * j + 1]
        == sym_token(ms[j].1) by {
        assert(t[2 * j] == pair_tokens(ms)[2 * j]);
        assert(t[2 * j + 1] == pair_tokens(ms)[2 * j + 1]);
    }
    assert(t[2 * (ms.len() as int)] == marker());
    assert forall|k: int| 2 * ms.len() < k < t.len() implies #[trigger] t[k] == sym_token(
        vs[k - 2 * ms.len() - 1],
    ) by {
        assert(t[k] == sym_tokens(vs)[k - 2 * ms.len() - 1]);
    }
    assert forall|k: int| 0 <= k < t.len() && k != 2 * ms.len() implies (#[trigger] t[k])[0] == 's'
        && t[k].len() >= 2 by {
        if k < 2 * ms.len() {
            let j = k / 2;
            assert(0 <= j < ms.len());
            assert(pair_tokens(ms)[2 * j] == sym_token(ms[j].0));
            assert(pair_tokens(ms)[2 * j + 1] == sym_token(ms[j].1));
            assert(k == 2 * j || k == 2 * j + 1);
            assert(t[k] == pair_tokens(ms)[k]);
            assert(good_word(ms[j].0) && good_word(ms[j].1));
        } else {
            assert(t[k] == sym_token(vs[k - 2 * ms.len() - 1]));
        }
    }
    assert forall|k: int| 0 <= k < t.len() implies good_word(#[trigger] t[k]) by {
        if k == 2 * ms.len() {
            assert(!crate::text::is_ws('m'));
            assert(t[k] == marker());
        } else {
            let x = t[k];
            let y = if k < 2 * ms.len() {
                let j = k / 2;
                if k % 2 == 0 {
                    ms[j].0
                } else {
                    ms[j].1
                }
            } else {
                vs[k - 2 * ms.len() - 1]
            };
            if k < 2 * ms.len() {
                let j = k / 2;
                assert(0 <= j < ms.len());
                assert(pair_tokens(ms)[2 * j] == sym_token(ms[j].0));
                assert(pair_tokens(ms)[2 * j + 1] == sym_token(ms[j].1));
                assert(k == 2 * j || k == 2 * j + 1);
                assert(t[k] == pair_tokens(ms)[k]);
                assert(good_word(ms[j].0) && good_word(ms[j].1));
                assert(t[k] == sym_token(y));
                assert(good_word(y));
            } else {
                assert(t[k] == sym_token(y));
                assert(good_word(y));
            }
            assert(!crate::text::is_ws('s'));
            assert forall|c: int| 0 <= c < x.len() implies !crate::text::is_ws(x[c]) by {
                if c > 0 {
                    assert(x[c] == y[c - 1]);
                }
            }
        }
    }
}

/// Two well-formed models that write the same tokens are the same model.
pub proof fn lemma_model_tokens_injective(
    ms1: Seq<(Seq<char>, Seq<char>)>,
    vs1: Seq<Seq<char>>,
    ms2: Seq<(Seq<char>, Seq<char>)>,
    vs2: Seq<Seq<char>>,
)
    requires
        good_views(ms1, vs1),
        good_views(ms2, vs2),
        model_tokens(ms1, vs1) == model_tokens(ms2, vs2),
    ensures
        ms1 == ms2,
        vs1 == vs2,
{
    lemma_model_tokens_shape(ms1, vs1);
    lemma_model_tokens_shape(ms2, vs2);
    let t = model_tokens(ms1, vs1);
    assert(ms1.len() == ms2.len()) by {
        if ms1.len() < ms2.len() {
            assert(t[2 * (ms1.len() as int)] == marker());
            assert(t[2 * (ms1.len() as int)][0] == 's');
        }
        if ms2.len() < ms1.len() {
            assert(t[2 * (ms2.len() as int)] == marker());
            assert(t[2 * (ms2.len() as int)][0] == 's');
        }
    }
    assert(vs1.len() == vs2.len());
    assert forall|j: int| 0 <= j < ms1.len() implies ms1[j] == ms2[j] by {
        assert(sym_token(ms1[j].0) == sym_token(ms2[j].0));
        assert(ms1[j].0 =~= sym_token(ms1[j].0).skip(1));
        assert(ms2[j].0 =~= sym_token(ms2[j].0).skip(1));
        assert(sym_token(ms1[j].1) == sym_token(ms2[j].1));
        assert(ms1[j].1 =~= sym_token(ms1[j].1).skip(1));
        assert(ms2[j].1 =~= sym_token(ms2[j].1).skip(1));
    }
    assert(ms1 =~= ms2);
    assert forall|j: int| 0 <= j < vs1.len() implies vs1[j] == vs2[j] by {
        assert(model_tokens(ms1, vs1)[2 * ms1.len() + 1 + j] == sym_token(vs1[j]));
        assert(model_tokens(ms2, vs2)[2 * ms2.len() + 1 + j] == sym_token(vs2[j]));
        assert(vs1[j] =~= sym_token(vs1[j]).skip(1));
        assert(vs2[j] =~= sym_token(vs2[j]).skip(1));
    }
    assert(vs1 =~= vs2);
}

pub proof fn lemma_join_snoc(ts: Seq<Seq<char>>, x: Seq<char>)
    ensures
        join_sp(ts.push(x)) == if ts.len() == 0 {
            x
        } else {
            join_sp(ts) + seq![' '] + x
        },
    decreases ts.len(),
{
    if ts.len() == 0 {
        assert(ts.push(x)[0] == x);
    } else {
        assert(ts.push(x)[0] == ts[0]);
        assert(ts.push(x).skip(1) =~= ts.skip(1).push(x));
        lemma_join_snoc(ts.skip(1), x);
        if ts.len() == 1 {
            assert(join_sp(ts.push(x)) == ts[0] + seq![' '] + join_sp(ts.skip(1).push(x)));
            assert(ts.skip(1).len() == 0);
            assert(join_sp(ts.skip(1).push(x)) == x);
            assert(join_sp(ts) == ts[0]);
        } else {
            assert(join_sp(ts.push(x)) == ts[0] + seq![' '] + (join_sp(ts.skip(1)) + seq![' ']
                + x));
            assert(join_sp(ts) == ts[0] + seq![' '] + join_sp(ts.skip(1)));
            assert(ts[0] + seq![' '] + (join_sp(ts.skip(1)) + seq![' '] + x) =~= (ts[0] + seq![' ']
                + join_sp(ts.skip(1))) + seq![' '] + x);
        }
    }
}

/// Why a serialized model failed to parse: the text is not the written form
/// of any model.
#[derive(Debug, PartialEq, Eq)]
pub struct ModelParseError;

/// Append one symbol's written token.
fn push_sym_token(toks: &mut Vec<String>, x: &String)
    ensures
        str_views(final(toks)@) == str_views(old(toks)@).push(sym_token(x@)),
{
    let mut t = "s".to_owned();
    t.append(x.as_str());
    proof {
        reveal_strlit("s");
        assert("s"@ =~= seq!['s']);
        assert(t@ =~= sym_token(x@));
        assert(str_views(toks@.push(t)) =~= str_views(toks@).push(t@));
    }
    toks.push(t);
}

/// Join tokens with single spaces.
fn join_tokens(toks: &Vec<String>) -> (r: String)
    ensures
        r@ == join_sp(str_views(toks@)),
{
    let ghost tv = str_views(toks@);
    let mut out = String::new();
    let mut i: usize = 0;
    proof {
        assert(tv.take(0) =~= Seq::<Seq<char>>::empty());
    }
    while i < toks.len()
        invariant
            i <= toks@.len(),
            tv == str_views(toks@),
            out@ == join_sp(tv.take(i as int)),
        decreases toks@.len() - i,
    {
        proof {
            reveal_strlit(" ");
            assert(" "@ =~= seq![' ']);
            lemma_join_snoc(tv.take(i as int), tv[i as int]);
            assert(tv.take(i + 1) =~= tv.take(i as int).push(tv[i as int]));
        }
        if i > 0 {
            out.append(" ");
        }
        out.append(toks[i].as_str());
        i += 1;
    }
    proof {
        assert(tv.take(toks@.len() as int) =~= tv);
    }
    out
}

/// The symbol a token writes, if the token has the written shape.
fn strip_sym(tok: &String) -> (r: Option<String>)
    ensures
        match r {
            Some(x) => tok@ == sym_token(x@) && x@.len() >= 1,
            None => !(tok@.len() >= 2 && tok@[0] == 's'),
        },
{
    let st = tok.as_str();
    let n = st.unicode_len();
    if n >= 2 && st.get_char(0) == 's' {
        let x = st.substring_char(1, n).to_owned();
        proof {
            assert(tok@ =~= sym_token(x@));
        }
        Some(x)
    } else {
        None
    }
}

impl BPE {
    /// The serialized text of the model: its rule pairs in learned order,
    /// the separator, then its vocabulary, each symbol written with a
    /// leading 's', all space-separated.
    pub fn serialize(&self) -> (r: String)
        requires
            self.wf(),
        ensures
            r@ == ser_spec(self.merges_view(), self.vocab_view()),
            good_views(self.merges_view(), self.vocab_view()),
    {
        let ghost mv = self.merges_view();
        let ghost vv = self.vocab_view();
        let mut toks: Vec<String> = Vec::new();
        let mut i: usize = 0;
        proof {
            assert(mv.take(0) =~= Seq::<(Seq<char>, Seq<char>)>::empty());
            assert(pair_tokens(mv.take(0)) =~= Seq::<Seq<char>>::empty());
            assert(str_views(toks@) =~= Seq::<Seq<char>>::empty());
        }
        while i < self.merges.len()
            invariant
                i <= self.merges@.len(),
                mv == self.merges_view(),
                str_views(toks@) == pair_tokens(mv.take(i as int)),
            decreases self.merges@.len() - i,
        {
            push_sym_token(&mut toks, &self.merges[i].0);
            push_sym_token(&mut toks, &self.merges[i].1);
            proof {
                lemma_pair_tokens_snoc(mv.take(i as int), mv[i as int]);
                assert(mv.take(i + 1) =~= mv.take(i as int).push(mv[i as int]));
                assert(str_views(toks@) =~= pair_tokens(mv.take(i as int)) + seq![
                    sym_token(mv[i as int].0),
                    sym_token(mv[i as int].1),
                ]);
            }
            i += 1;
        }
        proof {
            assert(mv.take(self.merges@.len() as int) =~= mv);
        }
        let mk = "m".to_owned();
        proof {
            reveal_strlit("m");
            assert(mk@ =~= marker());
            assert(str_views(toks@.push(mk)) =~= str_views(toks@).push(mk@));
            assert(vv.take(0) =~= Seq::<Seq<char>>::empty());
            assert(sym_tokens(vv.take(0)) =~= Seq::<Seq<char>>::empty());
            assert(str_views(toks@).push(marker()) =~= pair_tokens(mv) + seq![marker()]
                + sym_tokens(vv.take(0)));
        }
        toks.push(mk);
        let mut j: usize = 0;
        while j < self.vocab.len()
            invariant
                j <= self.vocab@.len(),
                mv == self.merges_view(),
                vv == self.vocab_view(),
                str_views(toks@) == pair_tokens(mv) + seq![marker()] + sym_tokens(
                    vv.take(j as int),
                ),
            decreases self.vocab@.len() - j,
        {
            push_sym_token(&mut toks, &self.vocab[j]);
            proof {
                assert(vv.take(j + 1) =~= vv.take(j as int).push(vv[j as int]));
                assert(sym_tokens(vv.take(j + 1)) =~= sym_tokens(vv.take(j as int)).push(
                    sym_token(vv[j as int]),
                ));
                assert(str_views(toks@) =~= pair_tokens(mv) + seq![marker()] + sym_tokens(
                    vv.take(j + 1),
                ));
            }
            j += 1;
        }
        proof {
            assert(vv.take(self.vocab@.len() as int) =~= vv);
            assert(str_views(toks@) == model_tokens(mv, vv));
        }
        join_tokens(&toks)
    }

    /// Read a model back from serialized text. Accepts exactly those texts
    /// whose whitespace-delimited tokens are the written form of a model;
    /// everything else is an error, so a stored rule sequence can never come
    /// back shortened or reordered.
    pub fn deserialize(s: &str) -> (r: Result<BPE, ModelParseError>)
        ensures
            match r {
                Ok(m) => good_views(m.merges_view(), m.vocab_view()) && model_tokens(
                    m.merges_view(),
                    m.vocab_view(),
                ) == split_ws(s@),
                Err(e) => forall|ms: Seq<(Seq<char>, Seq<char>)>, vs: Seq<Seq<char>>|
                    good_views(ms, vs) ==> #[trigger] model_tokens(ms, vs) != split_ws(s@),
            },
    {
        let tokens = split_words(s);
        proof {
            crate::text::lemma_split_ws_words(s@);
        }
        parse_tokens(tokens)
    }
}

/// Parse a whitespace-split token list as a model's written form.
#[verifier::loop_isolation(false)]
fn parse_tokens(tokens: Vec<String>) -> (r: Result<BPE, ModelParseError>)
    requires
        forall|i: int|
            0 <= i < str_views(tokens@).len() ==> good_word(#[trigger] str_views(tokens@)[i]),
    ensures
        match r {
            Ok(m) => good_views(m.merges_view(), m.vocab_view()) && model_tokens(
                m.merges_view(),
                m.vocab_view(),
            ) == str_views(tokens@),
            Err(e) => forall|ms: Seq<(Seq<char>, Seq<char>)>, vs: Seq<Seq<char>>|
                good_views(ms, vs) ==> #[trigger] model_tokens(ms, vs) != str_views(tokens@),
        },
{
    let ghost tv = str_views(tokens@);
    let n = tokens.len();
    let mk = "m".to_owned();
    proof {
        reveal_strlit("m");
        assert(mk@ =~= marker());
    }

    // the first marker token, if any
    let mut i: usize = 0;
    let mut mpos: usize = n;
    while i < n
        invariant
            i <= n,
            mpos <= n,
            mpos == n ==> forall|k: int| 0 <= k < i ==> tv[k] != marker(),
            mpos < n ==> mpos < i && tv[mpos as int] == marker() && forall|k: int|
                0 <= k < mpos ==> tv[k] != marker(),
        decreases n - i,
    {
        if mpos == n && tokens[i] == mk {
            mpos = i;
        }
        i += 1;
    }
    if mpos == n {
        proof {
            assert forall|ms: Seq<(Seq<char>, Seq<char>)>, vs: Seq<Seq<char>>|
                good_views(ms, vs) implies #[trigger] model_tokens(ms, vs) != tv by {
                if model_tokens(ms, vs) == tv {
                    lemma_model_tokens_shape(ms, vs);
                    assert(tv[2 * (ms.len() as int)] == marker());
                }
            }
        }
        return Err(ModelParseError);
    }
    if mpos % 2 != 0 {
        proof {
            assert forall|ms: Seq<(Seq<char>, Seq<char>)>, vs: Seq<Seq<char>>|
                good_views(ms, vs) implies #[trigger] model_tokens(ms, vs) != tv by {
                if model_tokens(ms, vs) == tv {
                    lemma_model_tokens_shape(ms, vs);
                    assert(tv[2 * (ms.len() as int)] == marker());
                    if 2 * ms.len() < mpos {
                        assert(tv[2 * (ms.len() as int)] != marker());
                    }
                    if mpos < 2 * ms.len() {
                        assert(tv[mpos as int][0] == 's');
                        assert(marker()[0] == 'm');
                    }
                    assert(mpos == 2 * ms.len());
                }
            }
        }
        return Err(ModelParseError);
    }

    // the rule pairs, two tokens each, in order
    let mut merges: Vec<(String, String)> = Vec::new();
    let mut i2: usize = 0;
    proof {
        assert(merge_views(merges@) =~= Seq::<(Seq<char>, Seq<char>)>::empty());
        assert(pair_tokens(merge_views(merges@)) =~= tv.subrange(0, 0));
    }
    while i2 < mpos
        invariant
            i2 <= mpos,
            i2 % 2 == 0,
            merges@.len() * 2 == i2,
            pair_tokens(merge_views(merges@)) == tv.subrange(0, i2 as int),
            forall|k: int|
                0 <= k < merge_views(merges@).len() ==> good_word(
                    #[trigger] merge_views(merges@)[k].0,
                ) && good_word(merge_views(merges@)[k].1),
        decreases mpos - i2,
    {
        let a = strip_sym(&tokens[i2]);
        let b = strip_sym(&tokens[i2 + 1]);
        match (a, b) {
            (Some(x), Some(y)) => {
                let ghost old_m = merges@;
                proof {
                    assert(tv[i2 as int] == sym_token(x@));
                    assert(tv[i2 + 1] == sym_token(y@));
                    assert(good_word(tv[i2 as int]));
                    assert(good_word(tv[i2 + 1]));
                    assert(x@ =~= tv[i2 as int].skip(1));
                    assert(y@ =~= tv[i2 + 1].skip(1));
                    assert forall|c: int| 0 <= c < x@.len() implies !crate::text::is_ws(
                        x@[c],
                    ) by {
                        assert(x@[c] == tv[i2 as int][c + 1]);
                    }
                    assert forall|c: int| 0 <= c < y@.len() implies !crate::text::is_ws(
                        y@[c],
                    ) by {
                        assert(y@[c] == tv[i2 + 1][c + 1]);
                    }
                    assert(good_word(x@));
                    assert(good_word(y@));
                }
                merges.push((x, y));
                proof {
                    assert(merge_views(merges@) =~= merge_views(old_m).push(
                        (merges@[merges@.len() - 1].0@, merges@[merges@.len() - 1].1@),
                    ));
                    lemma_pair_tokens_snoc(
                        merge_views(old_m),
                        (merges@[merges@.len() - 1].0@, merges@[merges@.len() - 1].1@),
                    );
                    assert(pair_tokens(merge_views(merges@)) =~= tv.subrange(0, i2 + 2));
                }
            },
            _ => {
                proof {
                    assert(!(tv[i2 as int].len() >= 2 && tv[i2 as int][0] == 's') || !(tv[i2
                        + 1].len() >= 2 && tv[i2 + 1][0] == 's'));
                    assert forall|ms: Seq<(Seq<char>, Seq<char>)>, vs: Seq<Seq<char>>|
                        good_views(ms, vs) implies #[trigger] model_tokens(ms, vs) != tv by {
                        if model_tokens(ms, vs) == tv {
                            lemma_model_tokens_shape(ms, vs);
                            assert(tv[2 * (ms.len() as int)] == marker());
                            if 2 * ms.len() < mpos {
                                assert(tv[2 * (ms.len() as int)] != marker());
                            }
                            if mpos < 2 * ms.len() {
                                assert(tv[mpos as int][0] == 's');
                                assert(marker()[0] == 'm');
                            }
                            assert(mpos == 2 * ms.len());
                            assert(tv[i2 as int][0] == 's' && tv[i2 as int].len() >= 2);
                            assert(tv[i2 + 1][0] == 's' && tv[i2 + 1].len() >= 2);
                        }
                    }
                }
                return Err(ModelParseError);
            },
        }
        i2 += 2;
    }

    // the vocabulary, one token each
    let mut vocab: Vec<String> = Vec::new();
    let mut i3: usize = mpos + 1;
    proof {
        assert(sym_tokens(str_views(vocab@)) =~= tv.subrange(mpos + 1, mpos + 1));
    }
    while i3 < n
        invariant
            mpos + 1 <= i3 <= n,
            sym_tokens(str_views(vocab@)) == tv.subrange(mpos + 1, i3 as int),
            forall|k: int|
                0 <= k < str_views(vocab@).len() ==> good_word(#[trigger] str_views(vocab@)[k]),
        decreases n - i3,
    {
        let a = strip_sym(&tokens[i3]);
        match a {
            Some(x) => {
                let ghost old_v = vocab@;
                proof {
                    assert(tv[i3 as int] == sym_token(x@));
                    assert(good_word(tv[i3 as int]));
                    assert(x@ =~= tv[i3 as int].skip(1));
                    assert forall|c: int| 0 <= c < x@.len() implies !crate::text::is_ws(
                        x@[c],
                    ) by {
                        assert(x@[c] == tv[i3 as int][c + 1]);
                    }
                    assert(good_word(x@));
                }
                vocab.push(x);
                proof {
                    assert(str_views(vocab@) =~= str_views(old_v).push(
                        vocab@[vocab@.len() - 1]@,
                    ));
                    assert(sym_tokens(str_views(vocab@)) =~= sym_tokens(str_views(old_v)).push(
                        sym_token(vocab@[vocab@.len() - 1]@),
                    ));
                    assert(sym_tokens(str_views(vocab@)) =~= tv.subrange(mpos + 1, i3 + 1));
                }
            },
            None => {
                proof {
                    assert forall|ms: Seq<(Seq<char>, Seq<char>)>, vs: Seq<Seq<char>>|
                        good_views(ms, vs) implies #[trigger] model_tokens(ms, vs) != tv by {
                        if model_tokens(ms, vs) == tv {
                            lemma_model_tokens_shape(ms, vs);
                            assert(tv[2 * (ms.len() as int)] == marker());
                            if 2 * ms.len() < mpos {
                                assert(tv[2 * (ms.len() as int)] != marker());
                            }
                            if mpos < 2 * ms.len() {
                                assert(tv[mpos as int][0] == 's');
                                assert(marker()[0] == 'm');
                            }
                            assert(mpos == 2 * ms.len());
                            assert(tv[i3 as int][0] == 's' && tv[i3 as int].len() >= 2);
                        }
                    }
                }
                return Err(ModelParseError);
            },
        }
        i3 += 1;
    }

    let m = BPE { merges, vocab };
    proof {
        assert(sym_tokens(str_views(m.vocab@)) == tv.subrange(mpos + 1, n as int));
        assert(tv =~= tv.subrange(0, mpos as int) + seq![tv[mpos as int]] + tv.subrange(
            mpos + 1,
            n as int,
        ));
        assert(model_tokens(m.merges_view(), m.vocab_view()) =~= tv);
    }
    Ok(m)
}

/// Splitting on whitespace undoes joining good words with single spaces.
pub proof fn lemma_split_join(ts: Seq<Seq<char>>)
    requires
        forall|i: int| 0 <= i < ts.len() ==> good_word(#[trigger] ts[i]),
    ensures
        split_ws(join_sp(ts)) == ts,
    decreases ts.len(),
{
    if ts.len() == 0 {
        assert(split_ws(join_sp(ts)) =~= ts);
    } else if ts.len() == 1 {
        let w = ts[0];
        assert(join_sp(ts) == w);
        crate::text::lemma_word_len_is(w, w.len() as int);
        assert(split_ws(w) == seq![w.take(w.len() as int)] + split_ws(w.skip(w.len() as int)));
        assert(w.take(w.len() as int) =~= w);
        assert(w.skip(w.len() as int) =~= Seq::<char>::empty());
        assert(split_ws(Seq::<char>::empty()) =~= Seq::<Seq<char>>::empty());
        assert(split_ws(join_sp(ts)) =~= ts);
    } else {
        let w = ts[0];
        let rest = ts.skip(1);
        let t = join_sp(ts);
        assert(t == w + seq![' '] + join_sp(rest));
        assert forall|i: int| 0 <= i < w.len() implies !crate::text::is_ws(t[i]) by {
            assert(t[i] == w[i]);
        }
        assert(t[w.len() as int] == ' ');
        assert(crate::text::is_ws(' '));
        crate::text::lemma_word_len_is(t, w.len() as int);
        assert(!crate::text::is_ws(t[0]));
        assert(split_ws(t) == seq![t.take(w.len() as int)] + split_ws(t.skip(w.len() as int)));
        assert(t.take(w.len() as int) =~= w);
        let u = t.skip(w.len() as int);
        assert(u[0] == ' ');
        assert(u.skip(1) =~= join_sp(rest));
        assert(split_ws(u) == split_ws(join_sp(rest)));
        assert(forall|i: int| 0 <= i < rest.len() ==> good_word(#[trigger] rest[i]));
        lemma_split_join(rest);
        assert(split_ws(join_sp(ts)) =~= seq![w] + rest);
        assert(seq![w] + rest =~= ts);
    }
}

} // verus!
