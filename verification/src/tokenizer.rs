//! A thin encoder around a trained model.

use vstd::prelude::*;
use crate::bpe::BPE;
use crate::merge::encode_text;
use crate::text::str_views;

verus! {

/// Wraps a trained model and exposes encoding.
pub struct Tokenizer {
    pub bpe: BPE,
}

impl Tokenizer {
    pub fn new(bpe: BPE) -> (r: Self)
        ensures
            r.bpe == bpe,
    {
        Tokenizer { bpe }
    }

    /// The tokens of `text` under the wrapped model.
    pub fn encode(&self, text: &str) -> (r: Vec<String>)
        ensures
            str_views(r@) == encode_text(text@, self.bpe.merges_view()),
    {
        self.bpe.tokenize(text)
    }

    /// The tokens of each text in turn, one token list per text.
    pub fn encode_batch(&self, texts: &[String]) -> (r: Vec<Vec<String>>)
        ensures
            r@.len() == texts@.len(),
            forall|i: int|
                0 <= i < r@.len() ==> str_views(#[trigger] r@[i]@) == encode_text(
                    texts@[i]@,
                    self.bpe.merges_view(),
                ),
    {
        let mut out: Vec<Vec<String>> = Vec::new();
        let mut i: usize = 0;
        while i < texts.len()
            invariant
                i <= texts@.len(),
                out@.len() == i,
                forall|k: int|
                    0 <= k < i ==> str_views(#[trigger] out@[k]@) == encode_text(
                        texts@[k]@,
                        self.bpe.merges_view(),
                    ),
            decreases texts@.len() - i,
        {
            let toks = self.encode(texts[i].as_str());
            out.push(toks);
            i += 1;
        }
        out
    }
}

} // verus!
