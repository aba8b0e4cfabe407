use docparse::model::Model;
use docparse::size::target_size;
use docparse::text::collapse_runs;
use docparse::unirec::{
    RecognizeError, UniRec, best_of_last_row, decoder_inputs, encoder_inputs, next_token,
};
use tract_onnx::prelude::{
    DatumExt, DatumType, IntoRunnable, OutletId, SpecialOps, SymbolScope, TValue, Tensor, ToDim,
    TypedModel,
};
use tract_onnx::tract_core::ops::array::{Gather, TypedConcat};
use tract_onnx::tract_core::ops::cast::cast;
use tract_onnx::tract_core::ops::math::mul;
use tract_onnx::tract_core::ops::nn::{Reduce, Reducer};

fn ready(mut m: TypedModel, outputs: &[OutletId]) -> Model {
    m.select_output_outlets(outputs).unwrap();
    Model {
        plan: m.into_runnable().unwrap(),
    }
}

fn dummy_runnable() -> Model {
    let mut m = TypedModel::default();
    let x = m.add_source("x", f32::fact([1])).unwrap();
    ready(m, &[x])
}

fn vocabulary(words: &[&str]) -> Vec<String> {
    words.iter().map(|w| w.to_string()).collect()
}

#[test]
fn collapse_and_markers() {
    assert_eq!(collapse_runs("a____b", '_', 3), "a___b");
    assert_eq!(collapse_runs("a..b", '.', 3), "a..b");
    let u = UniRec {
        encoder: dummy_runnable(),
        decoder: dummy_runnable(),
        vocab: vec![
            "<|bos|>".into(),
            "Hello".into(),
            "Ġworld".into(),
            "Ċ".into(),
        ],
        bos: 0,
        eos: 2,
    };
    assert_eq!(u.detokenize(&[1, 2, 3]), "Hello world\n");
}

/// An encoder for regions that are scaled to one size. It gives the region and two constants.
fn encoder(tw: usize, th: usize) -> Model {
    let mut m = TypedModel::default();
    let pixels = m.add_source("pixels", f32::fact([1, 3, th, tw])).unwrap();
    let k = m
        .add_const("k", Tensor::from_shape(&[1], &[1f32]).unwrap())
        .unwrap();
    let v = m
        .add_const("v", Tensor::from_shape(&[1], &[2f32]).unwrap())
        .unwrap();
    ready(m, &[pixels, k, v])
}

/// What a step of the decoder under test looks at.
enum Looks {
    AtToken,
    AtPosition,
    AtPast,
}

/// A decoder that scores tokens by a row of a table. It keeps one more entry after each step.
fn decoder(looks: Looks, rows: usize, width: usize, table: &[f32], kept: usize) -> Model {
    let mut m = TypedModel::default();
    let scope = SymbolScope::default();
    m.symbols = scope.clone();
    let s = scope.sym("S");
    let ids = m.add_source("ids", i64::fact([1, 1])).unwrap();
    let pos = m.add_source("pos", i64::fact([1, 1])).unwrap();
    m.add_source("k", f32::fact([1])).unwrap();
    m.add_source("v", f32::fact([1])).unwrap();
    let one = m
        .add_const(
            "one",
            Tensor::from_shape(&[1, 6, 1, 128], &[1f32; 768]).unwrap(),
        )
        .unwrap();
    let scores = m
        .add_const("table", Tensor::from_shape(&[rows, width], table).unwrap())
        .unwrap();
    let mut more: Vec<OutletId> = Vec::new();
    let mut pasts: Vec<OutletId> = Vec::new();
    for i in 0..12 {
        let past = m
            .add_source(
                format!("past{i}"),
                f32::fact([1.to_dim(), 6.to_dim(), s.to_dim(), 128.to_dim()]),
            )
            .unwrap();
        pasts.push(past);
        more.push(
            m.wire_node(format!("next{i}"), TypedConcat::new(2), &[past, one])
                .unwrap()[0],
        );
    }
    let row = match looks {
        Looks::AtToken => ids,
        Looks::AtPosition => pos,
        Looks::AtPast => {
            let sum = m
                .wire_node(
                    "sum",
                    Reduce::new([0, 1, 2, 3].into_iter().collect(), Reducer::Sum),
                    &[pasts[5]],
                )
                .unwrap()[0];
            let share = m
                .add_const(
                    "share",
                    Tensor::from_shape(&[1, 1, 1, 1], &[1f32 / 768f32]).unwrap(),
                )
                .unwrap();
            let count = m.wire_node("count", mul(), &[sum, share]).unwrap()[0];
            m.wire_node("row", cast(DatumType::I64), &[count]).unwrap()[0]
        }
    };
    let logits = m
        .wire_node("logits", Gather::new(0), &[scores, row])
        .unwrap()[0];
    let mut outputs = vec![logits];
    outputs.extend(more.into_iter().take(kept));
    ready(m, &outputs)
}

/// A table whose row `i` scores token `best[i]` highest.
fn table(best: &[usize], width: usize) -> Vec<f32> {
    let mut t = vec![0f32; best.len() * width];
    for (i, &b) in best.iter().enumerate() {
        t[i * width + b] = 1f32;
    }
    t
}

fn gray(_: &[u8], _: usize, _: usize, tw: usize, th: usize) -> Vec<u8> {
    vec![128; 3 * tw * th]
}

fn recognizer(looks: Looks, best: &[usize], width: usize, words: &[&str], eos: i64) -> UniRec {
    UniRec {
        encoder: encoder(64, 64),
        decoder: decoder(looks, best.len(), width, &table(best, width), 12),
        vocab: vocabulary(words),
        bos: 0,
        eos,
    }
}

fn text(u: &UniRec, max_tokens: usize) -> String {
    match u.recognize(&[0; 12], 2, 2, max_tokens, gray) {
        Ok(text) => text,
        Err(_) => panic!("not recognized"),
    }
}

#[test]
fn each_step_takes_the_token_before() {
    // 0 -> 3 -> 1 -> 4 -> 2, which ends.
    let u = recognizer(
        Looks::AtToken,
        &[3, 4, 0, 1, 2],
        5,
        &["<|bos|>", "b", "end", "a", "\u{120}c"],
        2,
    );
    assert_eq!(text(&u, 100), "ab c");
    assert_eq!(text(&u, 2), "ab");
    assert_eq!(text(&u, 0), "");
}

#[test]
fn positions_start_after_the_padding() {
    // Positions 2, 3 and 4 are looked at.
    let u = recognizer(
        Looks::AtPosition,
        &[0, 0, 1, 2, 3],
        4,
        &["zero", "x", "y", "end"],
        3,
    );
    assert_eq!(text(&u, 100), "xy");
}

#[test]
fn what_is_kept_is_handed_on() {
    let u = recognizer(
        Looks::AtPast,
        &[2, 1, 1, 3, 0],
        4,
        &["never", "b", "a", "end"],
        3,
    );
    assert_eq!(text(&u, 100), "abb");
}

#[test]
fn lower_limits_give_shorter_texts() {
    let u = recognizer(Looks::AtToken, &[1, 2, 3, 1], 4, &["", "a", "b", "c"], 9);
    assert_eq!(text(&u, 7), "abcabca");
    assert_eq!(text(&u, 7), "abcabca");
    for n in 0..7 {
        assert_eq!(text(&u, n), &"abcabca"[..n]);
    }
}

#[test]
fn end_token_needs_nothing_to_keep() {
    let u = UniRec {
        encoder: encoder(64, 64),
        decoder: decoder(Looks::AtToken, 1, 3, &table(&[2], 3), 0),
        vocab: vocabulary(&["a", "b", "end"]),
        bos: 0,
        eos: 2,
    };
    assert_eq!(text(&u, 5), "");
}

#[test]
fn too_few_outputs_are_reported() {
    let mut u = UniRec {
        encoder: encoder(64, 64),
        decoder: decoder(Looks::AtToken, 1, 3, &table(&[1], 3), 11),
        vocab: vocabulary(&["a", "b", "end"]),
        bos: 0,
        eos: 2,
    };
    assert!(matches!(
        u.recognize(&[], 1, 1, 5, gray),
        Err(RecognizeError::Outputs)
    ));
    let mut m = TypedModel::default();
    let pixels = m.add_source("pixels", f32::fact([1, 3, 64, 64])).unwrap();
    u.encoder = ready(m, &[pixels, pixels]);
    assert!(matches!(
        u.recognize(&[], 1, 1, 5, gray),
        Err(RecognizeError::Outputs)
    ));
}

#[test]
fn failing_models_are_reported() {
    let mut u = recognizer(Looks::AtToken, &[1, 1], 2, &["a", "b"], 9);
    // A region of another size does not suit the encoder.
    assert!(matches!(
        u.recognize(&[], 200, 64, 5, gray),
        Err(RecognizeError::Model(_))
    ));
    u.decoder = dummy_runnable();
    assert!(matches!(
        u.recognize(&[], 1, 1, 5, gray),
        Err(RecognizeError::Model(_))
    ));
    // Nothing is decoded where no token is asked for.
    assert_eq!(text(&u, 0), "");
}

#[test]
fn regions_are_scaled_to_the_target_size() {
    let u = recognizer(Looks::AtToken, &[1], 2, &["a", "b"], 1);
    let rgb = vec![7u8; 3 * 100 * 90];
    let scaled = u.recognize(&rgb, 100, 90, 1, |given, w, h, tw, th| {
        assert_eq!(given.len(), 3 * 100 * 90);
        assert_eq!((w, h), (100, 90));
        assert_eq!((tw, th), target_size(100, 90));
        vec![0; 3 * tw * th]
    });
    assert!(matches!(scaled, Ok(t) if t.is_empty()));
}

#[test]
fn encoder_takes_planes() {
    let small: Vec<u8> = (0..64 * 128 * 3).map(|i| (i % 251) as u8).collect();
    let Ok(inputs) = encoder_inputs(&small, 64, 128) else {
        panic!("no inputs")
    };
    assert_eq!(inputs.len(), 1);
    assert_eq!(inputs[0].shape(), &[1, 3, 128, 64]);
    let view = inputs[0].to_plain_array_view::<f32>().unwrap();
    let flat: Vec<f32> = view.iter().copied().collect();
    for (c, y, x) in [(0usize, 0usize, 0usize), (1, 5, 63), (2, 127, 10)] {
        let v = small[(y * 64 + x) * 3 + c] as f32 / 255.0;
        assert_eq!(flat[c * 128 * 64 + y * 64 + x], (v - 0.5) / 0.5);
    }
}

#[test]
fn decoder_takes_token_position_and_past() {
    let k: TValue = Tensor::from_shape(&[2], &[1f32, 2f32]).unwrap().into();
    let v: TValue = Tensor::from_shape(&[1], &[3f32]).unwrap().into();
    let past: Vec<TValue> = vec![Tensor::from_shape(&[1], &[4f32]).unwrap().into()];
    let Ok(inputs) = decoder_inputs(-7, 5, &k, &v, &past) else {
        panic!("no inputs")
    };
    assert_eq!(inputs.len(), 5);
    let integer = |t: &TValue| -> Vec<i64> {
        assert_eq!(t.shape(), &[1, 1]);
        t.to_plain_array_view::<i64>().unwrap().iter().copied().collect()
    };
    assert_eq!(integer(&inputs[0]), vec![-7]);
    assert_eq!(integer(&inputs[1]), vec![7]);
    assert_eq!(inputs[2].shape(), &[2]);
    let last: Vec<f32> = inputs[4].to_plain_array_view::<f32>().unwrap().iter().copied().collect();
    assert_eq!(last, vec![4f32]);
}

#[test]
fn last_row_of_scores_counts() {
    let scores: TValue = Tensor::from_shape(&[1, 2, 3], &[9f32, 0f32, 0f32, 1f32, -2f32, 5f32])
        .unwrap()
        .into();
    assert!(matches!(next_token(&scores), Ok(2)));
}

#[test]
fn unusable_scores_are_reported() {
    let scalar: TValue = Tensor::from_shape(&[], &[1f32]).unwrap().into();
    assert!(matches!(
        next_token(&scalar),
        Err(RecognizeError::ScoresShape)
    ));
    let none: TValue = Tensor::from_shape::<f32>(&[0, 3], &[]).unwrap().into();
    assert!(matches!(
        next_token(&none),
        Err(RecognizeError::ScoresCount)
    ));
    let integers: TValue = Tensor::from_shape(&[2], &[1i64, 2i64]).unwrap().into();
    assert!(matches!(
        next_token(&integers),
        Err(RecognizeError::ScoresKind)
    ));
}

#[test]
fn recognizer_is_made_from_a_mapping() {
    let file = br#"{"vocab_size": 2, "id_to_token": {"1": "one"},
                    "special_tokens": {"bos_token_id": 5, "eos_token_id": 6}}"#;
    let Ok(u) = UniRec::new(dummy_runnable(), dummy_runnable(), file) else {
        panic!("no recognizer")
    };
    assert_eq!(u.vocab, vocabulary(&["", "one"]));
    assert_eq!((u.bos, u.eos), (5, 6));
    assert_eq!(u.detokenize(&[1, 0, 1]), "oneone");
    assert!(UniRec::new(dummy_runnable(), dummy_runnable(), b"{}").is_err());
}

#[test]
fn last_row_is_read_by_its_length() {
    let bits: Vec<u32> = [7f32, 1f32, 2f32, 3f32].iter().map(|s| s.to_bits()).collect();
    assert!(matches!(best_of_last_row(&vec![2, 2], Some(&bits)), Ok(1)));
    assert!(matches!(best_of_last_row(&vec![4], Some(&bits)), Ok(0)));
    assert!(matches!(best_of_last_row(&vec![9, 0], Some(&bits)), Ok(0)));
    assert!(matches!(
        best_of_last_row(&vec![5], Some(&bits)),
        Err(RecognizeError::ScoresCount)
    ));
    assert!(matches!(
        best_of_last_row(&vec![], Some(&bits)),
        Err(RecognizeError::ScoresShape)
    ));
    assert!(matches!(
        best_of_last_row(&vec![4], None),
        Err(RecognizeError::ScoresKind)
    ));
}

#[test]
fn token_follows_from_the_outputs() {
    let u = UniRec {
        encoder: dummy_runnable(),
        decoder: dummy_runnable(),
        vocab: vec![],
        bos: 0,
        eos: 1,
    };
    let scores = |best: usize| -> TValue {
        let mut s = [0f32; 3];
        s[best] = 1f32;
        Tensor::from_shape(&[1, 1, 3], &s).unwrap().into()
    };
    assert!(matches!(u.token_after(&vec![]), Err(RecognizeError::Outputs)));
    assert!(matches!(u.token_after(&vec![scores(1)]), Ok(1)));
    assert!(matches!(u.token_after(&vec![scores(2)]), Err(RecognizeError::Outputs)));
    let all: Vec<TValue> = (0..13).map(|_| scores(2)).collect();
    assert!(matches!(u.token_after(&all), Ok(2)));
}

#[test]
fn larger_limits_change_nothing_after_the_end() {
    let u = recognizer(
        Looks::AtToken,
        &[3, 4, 0, 1, 2],
        5,
        &["<|bos|>", "b", "end", "a", "\u{120}c"],
        2,
    );
    for limit in [4, 5, 50, 4] {
        assert_eq!(text(&u, limit), "ab c");
    }
}
