//! Many texts at once.
use rayon::prelude::{IntoParallelRefIterator, ParallelIterator};
use vstd::prelude::*;

use crate::error::Error;
use crate::search::byte_strings;
use crate::tokenizer::{decoded, may_encode, prefixed, Model, Tokenizer};
use crate::Rank;

verus! {

/// `par_iter`, `map` and `collect` of `rayon`: the function is called on the items, on several
/// threads at once. If all calls succeed their results come in the order of the items; else the
/// error is that of one of the calls, and which one is open.
#[verifier::external_body]
fn par_try_map<A: Sync, B: Send, F: Fn(&A) -> Result<B, Error> + Sync + Send>(
    items: &Vec<A>,
    f: F,
) -> (result: Result<Vec<B>, Error>)
    requires
        forall|i: int| 0 <= i < items@.len() ==> call_requires(f, (&#[trigger] items@[i],)),
    ensures
        result matches Ok(results) ==> results@.len() == items@.len() && forall|i: int|
            0 <= i < items@.len() ==> call_ensures(f, (&items@[i],), Ok(#[trigger] results@[i])),
        result matches Err(error) ==> exists|i: int|
            0 <= i < items@.len() && call_ensures(f, (&#[trigger] items@[i],), Err(error)),
{
    items.par_iter().map(|item| f(item)).collect()
}

pub open spec fn rank_strings(strings: Seq<Vec<Rank>>) -> Seq<Seq<Rank>> {
    strings.map_values(|string: Vec<Rank>| string@)
}

/// What encoding may answer for a batch: what it may answer for each of the texts, in their order,
/// or an error that it may answer for one of them.
pub open spec fn may_encode_batch(
    model: Model,
    texts: Seq<Seq<u8>>,
    result: Result<Seq<Seq<Rank>>, Error>,
) -> bool {
    match result {
        Ok(all) => {
            &&& all.len() == texts.len()
            &&& forall|i: int|
                0 <= i < texts.len() ==> may_encode(model, texts[i], Ok(#[trigger] all[i]))
        },
        Err(error) => exists|i: int|
            0 <= i < texts.len() && may_encode(model, #[trigger] texts[i], Err(error)),
    }
}

impl Tokenizer {
    /// The tokens of each of the texts, or an error of one of them.
    pub fn encode_batch(&self, texts: &Vec<&[u8]>) -> (result: Result<Vec<Vec<Rank>>, Error>)
        requires
            forall|i: int|
                0 <= i < texts@.len() ==> prefixed(self@, (#[trigger] texts@[i])@).len()
                    <= usize::MAX,
        ensures
            result matches Ok(all) ==> may_encode_batch(
                self@,
                byte_strings(texts@),
                Ok(rank_strings(all@)),
            ),
            result matches Err(error) ==> may_encode_batch(
                self@,
                byte_strings(texts@),
                Err(error),
            ),
    {
        let f = |text: &&[u8]| -> (result: Result<Vec<Rank>, Error>)
            requires
                prefixed(self@, text@).len() <= usize::MAX,
            ensures
                result matches Ok(ranks) ==> may_encode(self@, text@, Ok(ranks@)),
                result matches Err(error) ==> may_encode(self@, text@, Err(error)),
            { self.encode(*text) };
        let result = par_try_map(texts, f);
        proof {
            let strings = byte_strings(texts@);
            if result is Ok {
                let all = result->Ok_0;
                assert forall|i: int| 0 <= i < strings.len() implies may_encode(
                    self@,
                    strings[i],
                    Ok(#[trigger] rank_strings(all@)[i]),
                ) by {
                    assert(rank_strings(all@)[i] == all@[i]@);
                }
            } else {
                let i = choose|i: int|
                    0 <= i < texts@.len() && call_ensures(
                        f,
                        (&#[trigger] texts@[i],),
                        Err(result->Err_0),
                    );
                assert(strings[i] == texts@[i]@);
            }
        }
        result
    }

    /// The bytes that each of the sequences of ranks stands for.
    pub fn decode_batch<'a>(&'a self, tokens: &Vec<&[Rank]>) -> (result: Result<
        Vec<Vec<&'a [u8]>>,
        Error,
    >)
        ensures
            result matches Ok(all) && all@.len() == tokens@.len() && forall|i: int|
                0 <= i < tokens@.len() ==> byte_strings((#[trigger] all@[i])@) == decoded(
                    self@,
                    tokens@[i]@,
                ),
    {
        let f = |ranks: &&[Rank]| -> (result: Result<Vec<&'a [u8]>, Error>)
            ensures
                result matches Ok(rows) && byte_strings(rows@) == decoded(self@, ranks@),
            { self.decode(*ranks) };
        par_try_map(tokens, f)
    }
}

} // verus!
