//! What the language model is given: token ids that it knows, and embeddings of
//! its width.

use vstd::prelude::*;

use crate::array::{self, copied, Array, ArrayModel};
use crate::buffer::{push_range, reserve_or_error};
use crate::error::{length_mismatch, out_of_range, overflow, rank_mismatch, Error};
use crate::vlm::models::lfm2_vl::config::TextConfig;
use crate::vlm::models::lfm2_vl::projector::{self, saturating_product};

verus! {

/// Whether a token id has an embedding.
pub open spec fn is_known(id: i32, vocab_size: i32) -> bool {
    0 <= id < vocab_size
}

/// The refusal of a token id that has no embedding.
#[verifier::allow_in_spec]
pub fn unknown_id(id: i32) -> Error
    returns
        out_of_range(
            "lfm2_vl language: token id vs vocabulary range [0, vocab_size)",
            "every input id must be a valid embedding row",
            id as i128,
        ),
{
    out_of_range(
        "lfm2_vl language: token id vs vocabulary range [0, vocab_size)",
        "every input id must be a valid embedding row",
        id as i128,
    )
}

/// The refusal of the first of the ids from `i` on that has no embedding.
pub open spec fn first_unknown(ids: Seq<i32>, vocab_size: i32, i: int) -> Result<(), Error>
    decreases ids.len() - i,
{
    if i < 0 || i >= ids.len() {
        Ok(())
    } else if !is_known(ids[i], vocab_size) {
        Err(unknown_id(ids[i]))
    } else {
        first_unknown(ids, vocab_size, i + 1)
    }
}

/// A language model `L` behind the guards on what it is given.
#[derive(Debug)]
pub struct LanguageModel<L> {
    /// The language model.
    pub model: L,
    /// What the guards know of it.
    pub config: TextConfig,
}

/// The refusal of a table without rows or columns.
#[verifier::allow_in_spec]
pub fn empty_table(vocab_size: i32, hidden_size: i32) -> Error
    returns
        out_of_range(
            "lfm2_vl language: vocab_size, hidden_size",
            "must be positive",
            if vocab_size <= 0 {
                vocab_size as i128
            } else {
                hidden_size as i128
            },
        ),
{
    out_of_range(
        "lfm2_vl language: vocab_size, hidden_size",
        "must be positive",
        if vocab_size <= 0 {
            vocab_size as i128
        } else {
            hidden_size as i128
        },
    )
}

/// Why embeddings cannot be looked up, if they cannot.
pub open spec fn lookup_refused(ids: Seq<i32>, table: nat, config: TextConfig) -> Result<
    (),
    Error,
> {
    match first_unknown(ids, config.vocab_size, 0) {
        Err(e) => Err(e),
        Ok(_) => if config.vocab_size <= 0 || config.hidden_size <= 0 {
            Err(empty_table(config.vocab_size, config.hidden_size))
        } else if table != config.vocab_size * config.hidden_size {
            Err(
                length_mismatch(
                    "lfm2_vl language: embedding table items vs vocab_size * hidden_size",
                    projector::saturated(config.vocab_size as usize, config.hidden_size as usize),
                    table as usize,
                ),
            )
        } else if ids.len() * config.hidden_size > usize::MAX {
            Err(
                overflow(
                    "lfm2_vl language: embedding items",
                    "usize",
                    ids.len() as i128,
                    config.hidden_size as i128,
                ),
            )
        } else {
            Ok(())
        },
    }
}

/// The rows of a table that the ids name, one after another.
pub open spec fn rows_of<T>(table: Seq<T>, ids: Seq<i32>, width: int) -> Seq<T>
    decreases ids.len(),
{
    if ids.len() == 0 {
        Seq::empty()
    } else {
        let start = ids.last() * width;
        rows_of(table, ids.drop_last(), width) + table.subrange(start, start + width)
    }
}

/// The embeddings of an array of ids: one more axis, as wide as a row.
pub open spec fn embedded<T>(table: Seq<T>, ids: ArrayModel<i32>, width: usize) -> ArrayModel<T> {
    ArrayModel { shape: ids.shape.push(width), data: rows_of(table, ids.data, width as int) }
}

proof fn lemma_rows_len<T>(table: Seq<T>, ids: Seq<i32>, width: int)
    requires
        0 <= width,
        forall|i: int|
            0 <= i < ids.len() ==> 0 <= #[trigger] ids[i] && ids[i] * width + width <= table.len(),
    ensures
        rows_of(table, ids, width).len() == ids.len() * width,
    decreases ids.len(),
{
    if ids.len() > 0 {
        assert forall|i: int| 0 <= i < ids.drop_last().len() implies 0
            <= #[trigger] ids.drop_last()[i] && ids.drop_last()[i] * width + width
            <= table.len() by {
            assert(ids[i] == ids.drop_last()[i]);
        }
        lemma_rows_len(table, ids.drop_last(), width);
        let last = ids[ids.len() - 1];
        assert(0 <= last * width) by (nonlinear_arith)
            requires
                0 <= last,
                0 <= width,
        ;
        assert((ids.len() - 1) * width + width == ids.len() * width) by (nonlinear_arith);
    } else {
        assert(0 * width == 0) by (nonlinear_arith);
    }
}

proof fn lemma_all_known(ids: Seq<i32>, vocab_size: i32, i: int)
    requires
        0 <= i <= ids.len(),
        first_unknown(ids, vocab_size, i) is Ok,
    ensures
        forall|j: int| i <= j < ids.len() ==> is_known(#[trigger] ids[j], vocab_size),
    decreases ids.len() - i,
{
    if i < ids.len() {
        lemma_all_known(ids, vocab_size, i + 1);
    }
}

/// Why embeddings cannot be run through the language model, if they cannot.
pub open spec fn embeddings_refused(shape: Seq<usize>, config: TextConfig) -> Result<(), Error> {
    if shape.len() != 3 {
        Err(
            rank_mismatch(
                "lfm2_vl language: inputs_embeds must be rank-3 (batch, seq, hidden)",
                shape.len() as usize,
            ),
        )
    } else if shape[2] != config.hidden_size {
        Err(
            out_of_range(
                "lfm2_vl language: inputs_embeds hidden width vs LM hidden_size",
                "trailing dim must equal the LM hidden_size",
                shape[2] as i128,
            ),
        )
    } else {
        Ok(())
    }
}

impl<L> LanguageModel<L> {
    /// Puts the guards of a configuration in front of its language model.
    pub fn new(model: L, config: TextConfig) -> (r: Self)
        ensures
            r.model == model,
            r.config == config,
    {
        LanguageModel { model, config }
    }

    /// The language model behind the guards.
    pub fn inner(&self) -> (r: &L)
        ensures
            *r == self.model,
    {
        &self.model
    }

    /// Requires ids that have embeddings, and refuses the first that has none.
    pub fn check_token_id_range(&self, input_ids: &Array<i32>) -> (r: Result<(), Error>)
        ensures
            r == first_unknown(input_ids@.data, self.config.vocab_size, 0),
    {
        let vocab: i32 = self.config.vocab_size;
        let ids: &Vec<i32> = input_ids.data();
        let mut i: usize = 0;
        while i < ids.len()
            invariant
                i <= ids@.len(),
                ids@ == input_ids@.data,
                vocab == self.config.vocab_size,
                first_unknown(ids@, vocab, 0) == first_unknown(ids@, vocab, i as int),
            decreases ids@.len() - i,
        {
            let id: i32 = ids[i];
            if id < 0 || id >= vocab {
                return Err(unknown_id(id));
            }
            i += 1;
        }
        Ok(())
    }

    /// Admits the lookup of some ids in a table; see [`lookup_refused`].
    pub fn check_lookup<T>(&self, input_ids: &Array<i32>, table: &Array<T>) -> (r: Result<
        (),
        Error,
    >)
        ensures
            r == lookup_refused(input_ids@.data, table@.data.len(), self.config),
    {
        self.check_token_id_range(input_ids)?;
        if self.config.vocab_size <= 0 || self.config.hidden_size <= 0 {
            return Err(empty_table(self.config.vocab_size, self.config.hidden_size));
        }
        let vocab: usize = self.config.vocab_size as usize;
        let hidden: usize = self.config.hidden_size as usize;
        let fits: bool = match vocab.checked_mul(hidden) {
            Some(n) => n == table.len(),
            None => false,
        };
        assert(0 < vocab * hidden) by (nonlinear_arith)
            requires
                0 < vocab,
                0 < hidden,
        ;
        if !fits {
            return Err(
                length_mismatch(
                    "lfm2_vl language: embedding table items vs vocab_size * hidden_size",
                    saturating_product(vocab, hidden),
                    table.len(),
                ),
            );
        }
        let count: usize = input_ids.len();
        assert(0 <= count * hidden) by (nonlinear_arith)
            requires
                0 <= count,
                0 < hidden,
        ;
        match count.checked_mul(hidden) {
            Some(_) => Ok(()),
            None => Err(
                overflow(
                    "lfm2_vl language: embedding items",
                    "usize",
                    count as i128,
                    hidden as i128,
                ),
            ),
        }
    }

    /// Looks the embeddings of some ids up in a `(vocab_size, hidden_size)` table;
    /// see [`lookup_refused`] and [`embedded`].
    ///
    /// A lookup that is not refused can still fail for want of memory, unless there
    /// are no ids.
    pub fn embed_tokens<T: Copy>(&self, input_ids: &Array<i32>, table: &Array<T>) -> (r: Result<
        Array<T>,
        Error,
    >)
        ensures
            match lookup_refused(input_ids@.data, table@.data.len(), self.config) {
                Err(e) => r == Err::<Array<T>, Error>(e),
                Ok(_) => match r {
                    Ok(out) => out@ == embedded(
                        table@.data,
                        input_ids@,
                        self.config.hidden_size as usize,
                    ),
                    Err(e) => e == (Error::AllocFailure {
                        context: "lfm2_vl language: embeddings",
                    }),
                },
            },
            input_ids@.data.len() == 0 && lookup_refused(
                input_ids@.data,
                table@.data.len(),
                self.config,
            ) is Ok ==> r is Ok,
    {
        self.check_lookup(input_ids, table)?;
        assert(0 * self.config.hidden_size == 0) by (nonlinear_arith);
        let items: usize = input_ids.len() * self.config.hidden_size as usize;
        let buffer: Vec<T> = reserve_or_error(items, "lfm2_vl language: embeddings")?;
        Ok(self.fill_embeddings(input_ids, table, buffer))
    }

    /// Looks embeddings that are admitted up into an empty buffer; see [`embedded`].
    pub fn fill_embeddings<T: Copy>(
        &self,
        input_ids: &Array<i32>,
        table: &Array<T>,
        buffer: Vec<T>,
    ) -> (r: Array<T>)
        requires
            lookup_refused(input_ids@.data, table@.data.len(), self.config) is Ok,
            buffer@.len() == 0,
        ensures
            r@ == embedded(table@.data, input_ids@, self.config.hidden_size as usize),
    {
        let hidden: usize = self.config.hidden_size as usize;
        let vocab: usize = self.config.vocab_size as usize;
        let count: usize = input_ids.len();
        let ids: &Vec<i32> = input_ids.data();
        let data: &Vec<T> = table.data();
        let len: usize = data.len();
        proof {
            lemma_all_known(ids@, self.config.vocab_size, 0);
            assert forall|i: int| 0 <= i < ids@.len() implies 0 <= #[trigger] ids@[i] && ids@[i]
                * hidden + hidden <= len by {
                assert(is_known(ids@[i], self.config.vocab_size));
                let id = ids@[i] as int;
                assert(id * hidden + hidden <= vocab * hidden) by (nonlinear_arith)
                    requires
                        0 <= id < vocab,
                        0 < hidden,
                ;
            }
        }
        let mut out: Vec<T> = buffer;
        let mut i: usize = 0;
        assert(out@ =~= rows_of(data@, ids@.take(0), hidden as int));
        while i < count
            invariant
                i <= count,
                count == ids@.len(),
                len == data@.len(),
                forall|i: int|
                    0 <= i < ids@.len() ==> 0 <= #[trigger] ids@[i] && ids@[i] * hidden + hidden
                        <= len,
                out@ == rows_of(data@, ids@.take(i as int), hidden as int),
            decreases count - i,
        {
            let id: usize = ids[i] as usize;
            proof {
                assert(ids@.take(i + 1).drop_last() =~= ids@.take(i as int));
                assert(0 <= id * hidden) by (nonlinear_arith)
                    requires
                        0 <= id,
                        0 <= hidden,
                ;
            }
            push_range(&mut out, data.as_slice(), id * hidden, id * hidden + hidden);
            i += 1;
        }
        proof {
            assert(ids@.take(i as int) =~= ids@);
            lemma_rows_len(data@, ids@, hidden as int);
            array::lemma_product_push(input_ids@.shape, hidden);
        }
        let mut shape: Vec<usize> = copied(input_ids.shape());
        shape.push(hidden);
        let r: Array<T> = Array::of(out, shape);
        assert(r@ =~= embedded(table@.data, input_ids@, hidden));
        r
    }

    /// Admits embeddings of the width of the language model; see
    /// [`embeddings_refused`].
    pub fn check_embeddings<T>(&self, inputs_embeds: &Array<T>) -> (r: Result<(), Error>)
        ensures
            r == embeddings_refused(inputs_embeds@.shape, self.config),
    {
        let shape: &Vec<usize> = inputs_embeds.shape();
        if shape.len() != 3 {
            return Err(
                rank_mismatch(
                    "lfm2_vl language: inputs_embeds must be rank-3 (batch, seq, hidden)",
                    shape.len(),
                ),
            );
        }
        if self.config.hidden_size < 0 || shape[2] != self.config.hidden_size as usize {
            return Err(
                out_of_range(
                    "lfm2_vl language: inputs_embeds hidden width vs LM hidden_size",
                    "trailing dim must equal the LM hidden_size",
                    shape[2] as i128,
                ),
            );
        }
        Ok(())
    }
}

/// Ids are admitted exactly when every one of them has an embedding.
pub proof fn law_admitted_ids_have_embeddings(ids: Seq<i32>, vocab_size: i32)
    ensures
        first_unknown(ids, vocab_size, 0) is Ok <==> forall|i: int|
            0 <= i < ids.len() ==> is_known(#[trigger] ids[i], vocab_size),
{
    if first_unknown(ids, vocab_size, 0) is Ok {
        lemma_all_known(ids, vocab_size, 0);
    }
    if forall|i: int| 0 <= i < ids.len() ==> is_known(#[trigger] ids[i], vocab_size) {
        lemma_none_unknown(ids, vocab_size, 0);
    }
}

proof fn lemma_none_unknown(ids: Seq<i32>, vocab_size: i32, i: int)
    requires
        0 <= i <= ids.len(),
        forall|j: int| 0 <= j < ids.len() ==> is_known(#[trigger] ids[j], vocab_size),
    ensures
        first_unknown(ids, vocab_size, i) is Ok,
    decreases ids.len() - i,
{
    if i < ids.len() {
        lemma_none_unknown(ids, vocab_size, i + 1);
    }
}

proof fn lemma_row_at<T>(table: Seq<T>, ids: Seq<i32>, width: int, i: int, j: int)
    requires
        0 <= i < ids.len(),
        0 <= j < width,
        forall|k: int|
            0 <= k < ids.len() ==> 0 <= #[trigger] ids[k] && ids[k] * width + width <= table.len(),
    ensures
        rows_of(table, ids, width)[i * width + j] == table[ids[i] * width + j],
        0 <= i * width + j < rows_of(table, ids, width).len(),
    decreases ids.len(),
{
    let before = ids.drop_last();
    assert forall|k: int| 0 <= k < before.len() implies 0 <= #[trigger] before[k] && before[k]
        * width + width <= table.len() by {
        assert(ids[k] == before[k]);
    }
    lemma_rows_len(table, before, width);
    lemma_rows_len(table, ids, width);
    array::lemma_pair_bound(i, ids.len() as int, j, width);
    if i < before.len() {
        lemma_row_at(table, before, width, i, j);
        assert(ids[i] == before[i]);
    } else {
        let last = ids[i] as int;
        assert(0 <= last * width) by (nonlinear_arith)
            requires
                0 <= last,
                0 <= width,
        ;
    }
}

/// The embedding of each id is its row of the table.
pub proof fn law_each_id_gets_its_row<T>(
    table: Seq<T>,
    ids: ArrayModel<i32>,
    config: TextConfig,
    i: int,
    j: int,
)
    requires
        0 < config.hidden_size,
        lookup_refused(ids.data, table.len(), config) is Ok,
        0 <= i < ids.data.len(),
        0 <= j < config.hidden_size,
    ensures
        embedded(table, ids, config.hidden_size as usize).data[i * config.hidden_size + j]
            == table[ids.data[i] * config.hidden_size + j],
{
    let width = config.hidden_size as int;
    lemma_all_known(ids.data, config.vocab_size, 0);
    assert forall|k: int| 0 <= k < ids.data.len() implies 0 <= #[trigger] ids.data[k]
        && ids.data[k] * width + width <= table.len() by {
        assert(is_known(ids.data[k], config.vocab_size));
        let id = ids.data[k] as int;
        let vocab = config.vocab_size as int;
        assert(id * width + width <= vocab * width) by (nonlinear_arith)
            requires
                0 <= id < vocab,
                0 < width,
        ;
    }
    lemma_row_at(table, ids.data, width, i, j);
}


/// Ids are looked up where each is a row of the table, the table has the rows and the
/// width of the configuration, and the embeddings fit. What comes back has one axis more
/// than the ids, as wide as a row.
pub proof fn law_ids_within_the_table_are_looked_up<T>(
    table: Seq<T>,
    ids: ArrayModel<i32>,
    config: TextConfig,
)
    ensures
        lookup_refused(ids.data, table.len(), config) is Ok <==> {
            &&& forall|i: int| 0 <= i < ids.data.len() ==> 0 <= #[trigger] ids.data[i] < config.vocab_size
            &&& 0 < config.vocab_size
            &&& 0 < config.hidden_size
            &&& table.len() == config.vocab_size * config.hidden_size
            &&& ids.data.len() * config.hidden_size <= usize::MAX
        },
        embedded(table, ids, config.hidden_size as usize).shape == ids.shape.push(
            config.hidden_size as usize,
        ),
{
    law_admitted_ids_have_embeddings(ids.data, config.vocab_size);
}

/// Of the ids that have no embedding the first is named.
pub proof fn law_the_first_unknown_id_is_named(ids: Seq<i32>, vocab_size: i32, i: int)
    requires
        0 <= i < ids.len(),
        !(0 <= ids[i] < vocab_size),
        forall|j: int| 0 <= j < i ==> 0 <= #[trigger] ids[j] < vocab_size,
    ensures
        first_unknown(ids, vocab_size, 0) == Err::<(), Error>(unknown_id(ids[i])),
{
    lemma_known_ids_are_passed(ids, vocab_size, i, 0);
}

proof fn lemma_known_ids_are_passed(ids: Seq<i32>, vocab_size: i32, i: int, from: int)
    requires
        0 <= from <= i < ids.len(),
        !(0 <= ids[i] < vocab_size),
        forall|j: int| 0 <= j < i ==> 0 <= #[trigger] ids[j] < vocab_size,
    ensures
        first_unknown(ids, vocab_size, from) == Err::<(), Error>(unknown_id(ids[i])),
    decreases i - from,
{
    if from < i {
        lemma_known_ids_are_passed(ids, vocab_size, i, from + 1);
    }
}

/// Embeddings are run through the language model where they have three axes, the last as
/// wide as the model.
pub proof fn law_embeddings_are_as_wide_as_the_model(shape: Seq<usize>, config: TextConfig)
    ensures
        embeddings_refused(shape, config) is Ok <==> shape.len() == 3 && shape[2]
            == config.hidden_size,
{
}


/// An unknown id is out of range, and so is an empty table; a table of another size is
/// refused with its length.
pub proof fn law_refused_lookups_say_what_is_wrong(ids: Seq<i32>, table: nat, config: TextConfig)
    requires
        table <= usize::MAX,
    ensures
        lookup_refused(ids, table, config) matches Err(e) ==> {
            &&& (exists|i: int| 0 <= i < ids.len() && !(0 <= #[trigger] ids[i] < config.vocab_size))
                ==> e is OutOfRange
            &&& (forall|i: int| 0 <= i < ids.len() ==> 0 <= #[trigger] ids[i] < config.vocab_size)
                && 0 < config.vocab_size && 0 < config.hidden_size && table != config.vocab_size
                * config.hidden_size ==> (e matches Error::LengthMismatch(p) && p.actual == table)
        },
{
    law_admitted_ids_have_embeddings(ids, config.vocab_size);
    lemma_unknown_is_out_of_range(ids, config.vocab_size, 0);
}

proof fn lemma_unknown_is_out_of_range(ids: Seq<i32>, vocab_size: i32, i: int)
    requires
        0 <= i,
    ensures
        first_unknown(ids, vocab_size, i) matches Err(e) ==> e is OutOfRange,
    decreases ids.len() - i,
{
    if i < ids.len() {
        lemma_unknown_is_out_of_range(ids, vocab_size, i + 1);
    }
}

} // verus!
