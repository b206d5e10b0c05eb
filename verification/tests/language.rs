//! The guards around the language model, and the lookup of its embeddings.

use mlxrs::array::Array;
use mlxrs::error::Error;
use mlxrs::vlm::models::lfm2_vl::config::TextConfig;
use mlxrs::vlm::models::lfm2_vl::language::LanguageModel;

fn array<T>(data: Vec<T>, shape: &[usize]) -> Array<T> {
    match Array::from_vec(data, shape.to_vec()) {
        Ok(array) => array,
        Err(e) => panic!("{e:?}"),
    }
}

/// A number of some precision.
trait Real: Copy {
    fn of(value: f32) -> Self;
    fn get(self) -> f32;
}

impl Real for f32 {
    fn of(value: f32) -> Self {
        value
    }
    fn get(self) -> f32 {
        self
    }
}

/// The upper half of a single-precision number.
#[derive(Debug, Clone, Copy, PartialEq)]
struct Bf16(u16);

impl Real for Bf16 {
    fn of(value: f32) -> Self {
        Bf16((value.to_bits() >> 16) as u16)
    }
    fn get(self) -> f32 {
        f32::from_bits(u32::from(self.0) << 16)
    }
}

/// A number of half precision: a sign, five bits of exponent, ten of fraction.
#[derive(Debug, Clone, Copy, PartialEq)]
struct F16(u16);

impl Real for F16 {
    fn of(value: f32) -> Self {
        let bits = value.to_bits();
        let sign = ((bits >> 16) & 0x8000) as u16;
        let exponent = ((bits >> 23) & 0xff) as i32 - 127 + 15;
        if exponent >= 31 {
            F16(sign | 0x7c00)
        } else if exponent <= 0 {
            F16(sign)
        } else {
            F16(sign | ((exponent as u16) << 10) | ((bits >> 13) & 0x3ff) as u16)
        }
    }
    fn get(self) -> f32 {
        let sign = if self.0 & 0x8000 != 0 { -1.0 } else { 1.0 };
        let exponent = i32::from((self.0 >> 10) & 0x1f);
        let fraction = f32::from(self.0 & 0x3ff) / 1024.0;
        match exponent {
            0 => sign * fraction * 2f32.powi(-14),
            31 => sign * f32::INFINITY,
            _ => sign * (1.0 + fraction) * 2f32.powi(exponent - 15),
        }
    }
}

const HIDDEN: usize = 4;
const VOCAB: usize = 8;

/// A decoder that scores a token by its embedding.
#[derive(Debug)]
struct Decoder<T> {
    table: Array<T>,
    config: TextConfig,
}

impl<T: Real> Decoder<T> {
    fn logits(&self, embeddings: &Array<T>) -> Array<T> {
        let mut data = Vec::new();
        for row in embeddings.data().chunks(HIDDEN) {
            for token in self.table.data().chunks(HIDDEN) {
                data.push(T::of(row.iter().zip(token).map(|(a, b)| a.get() * b.get()).sum()));
            }
        }
        let mut shape = embeddings.shape().clone();
        *shape.last_mut().unwrap() = VOCAB;
        array(data, &shape)
    }
}

fn adapter<T: Real>() -> LanguageModel<Decoder<T>> {
    let config = TextConfig { hidden_size: HIDDEN as i32, vocab_size: VOCAB as i32 };
    let data = (0..VOCAB * HIDDEN).map(|i| T::of((i as f32) * 0.01 - 0.1)).collect();
    LanguageModel::new(Decoder { table: array(data, &[VOCAB, HIDDEN]), config }, config)
}

fn forward<T: Real>(
    adapter: &LanguageModel<Decoder<T>>,
    ids: &Array<i32>,
) -> Result<Array<T>, Error> {
    let embeddings = adapter.embed_tokens(ids, &adapter.inner().table)?;
    forward_embeddings(adapter, &embeddings)
}

fn forward_embeddings<T: Real>(
    adapter: &LanguageModel<Decoder<T>>,
    embeddings: &Array<T>,
) -> Result<Array<T>, Error> {
    adapter.check_embeddings(embeddings)?;
    Ok(adapter.inner().logits(embeddings))
}

fn two_embeddings<T: Real>() -> Array<T> {
    let values = [0.1, 0.2, 0.3, 0.4, 0.5, 0.6, 0.7, 0.8];
    array(values.iter().map(|v| T::of(*v)).collect(), &[1, 2, 4])
}

#[test]
fn forward_embeddings_rank3_correct_width_runs() {
    let logits = forward_embeddings(&adapter::<f32>(), &two_embeddings()).unwrap();
    assert_eq!(*logits.shape(), vec![1, 2, 8]);
}

#[test]
fn forward_embeddings_rejects_rank0() {
    let scalar = array(vec![1.0f32], &[]);
    let err = forward_embeddings(&adapter(), &scalar).unwrap_err();
    assert!(matches!(err, Error::RankMismatch(_)), "got {err:?}");
}

#[test]
fn forward_embeddings_rejects_rank1() {
    let emb = array(vec![0.1f32, 0.2, 0.3, 0.4], &[4]);
    let err = forward_embeddings(&adapter(), &emb).unwrap_err();
    assert!(matches!(err, Error::RankMismatch(_)), "got {err:?}");
}

#[test]
fn forward_embeddings_rejects_rank2() {
    let emb = array(vec![0.1f32, 0.2, 0.3, 0.4], &[1, 4]);
    let err = forward_embeddings(&adapter(), &emb).unwrap_err();
    assert!(matches!(err, Error::RankMismatch(_)), "got {err:?}");
}

#[test]
fn forward_embeddings_rejects_wrong_hidden_width() {
    let emb = array(vec![0.0f32; 10], &[1, 2, 5]);
    let err = forward_embeddings(&adapter(), &emb).unwrap_err();
    assert!(matches!(err, Error::OutOfRange(_)), "got {err:?}");
}

#[test]
fn embed_tokens_valid_ids_shape() {
    let adapter = adapter::<f32>();
    let ids = array(vec![0, 3, 7], &[1, 3]);
    let out = adapter.embed_tokens(&ids, &adapter.inner().table).unwrap();
    assert_eq!(*out.shape(), vec![1, 3, 4]);
}

#[test]
fn embed_tokens_rejects_out_of_vocab_id() {
    let adapter = adapter::<f32>();
    let ids = array(vec![0, 8], &[1, 2]);
    let err = adapter.embed_tokens(&ids, &adapter.inner().table).unwrap_err();
    assert!(matches!(err, Error::OutOfRange(_)), "got {err:?}");
}

#[test]
fn embed_tokens_rejects_negative_id() {
    let adapter = adapter::<f32>();
    let ids = array(vec![0, -1], &[1, 2]);
    let err = adapter.embed_tokens(&ids, &adapter.inner().table).unwrap_err();
    assert!(matches!(err, Error::OutOfRange(_)), "got {err:?}");
}

#[test]
fn forward_text_only_valid_ids_runs() {
    let ids = array(vec![1, 3], &[1, 2]);
    let logits = forward(&adapter::<f32>(), &ids).unwrap();
    assert_eq!(*logits.shape(), vec![1, 2, 8]);
}

#[test]
fn forward_text_only_rejects_out_of_vocab() {
    let ids = array(vec![1, 99], &[1, 2]);
    let err = forward(&adapter::<f32>(), &ids).unwrap_err();
    assert!(matches!(err, Error::OutOfRange(_)), "got {err:?}");
}

#[test]
fn inner_exposes_wrapped_lm() {
    assert_eq!(adapter::<f32>().inner().config.hidden_size, 4);
}

/// What goes through the adapter keeps the precision of the weights.
fn assert_language_path_preserves_dtype<T: Real>() {
    let adapter = adapter::<T>();
    let ids = array(vec![1, 3], &[1, 2]);
    let logits: Array<T> = forward(&adapter, &ids).unwrap();
    assert_eq!(*logits.shape(), vec![1, 2, 8]);
    let logits2: Array<T> = forward_embeddings(&adapter, &two_embeddings()).unwrap();
    assert_eq!(*logits2.shape(), vec![1, 2, 8]);
}

#[test]
fn language_path_preserves_bf16_dtype() {
    assert_language_path_preserves_dtype::<Bf16>();
}

#[test]
fn language_path_preserves_f16_dtype() {
    assert_language_path_preserves_dtype::<F16>();
}

#[test]
fn each_token_gets_its_row() {
    let config = TextConfig { hidden_size: 2, vocab_size: 3 };
    let adapter = LanguageModel::new((), config);
    let table = array(vec![10, 11, 20, 21, 30, 31], &[3, 2]);
    let ids = array(vec![2, 0, 1, 2], &[2, 2]);
    let out = adapter.embed_tokens(&ids, &table).unwrap();
    assert_eq!(*out.shape(), vec![2, 2, 2]);
    assert_eq!(*out.data(), vec![30, 31, 10, 11, 20, 21, 30, 31]);
    assert!(adapter.check_token_id_range(&ids).is_ok());
    let short = array(vec![10, 11, 20, 21], &[2, 2]);
    let err = adapter.embed_tokens(&ids, &short).unwrap_err();
    assert!(matches!(err, Error::LengthMismatch(_)), "got {err:?}");
}

#[test]
fn prompts_without_ids_have_no_embeddings() {
    let adapter = adapter::<f32>();
    let out = adapter.embed_tokens(&array(Vec::new(), &[1, 0]), &adapter.inner().table).unwrap();
    assert_eq!(*out.shape(), vec![1, 0, HIDDEN]);
}

#[test]
fn tables_without_rows_or_columns_are_refused() {
    for (hidden_size, vocab_size) in [(4, 0), (0, 8), (-4, 8), (4, -8)] {
        let config = TextConfig { hidden_size, vocab_size };
        let model = LanguageModel::new((), config);
        let table = array(Vec::<f32>::new(), &[0]);
        for ids in [array(Vec::new(), &[0]), array(vec![0], &[1])] {
            let err = model.embed_tokens(&ids, &table).unwrap_err();
            assert!(matches!(err, Error::OutOfRange(_)), "got {err:?}");
        }
    }
}
