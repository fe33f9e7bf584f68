use xgb_rs::booster::{Booster, XGBoostError};
use xgb_rs::dmatrix::DMatrix;
use xgb_rs::fixed::SCALE;
use xgb_rs::tree::TreeNode;

fn fx(x: f64) -> i64 {
    (x * SCALE as f64).round() as i64
}

fn matrix(values: &[f64], rows: u64, cols: u64) -> DMatrix {
    let data: Vec<i64> = values.iter().map(|v| fx(*v)).collect();
    DMatrix::try_from_data(&data, rows, cols).expect("matrix")
}

fn labelled(values: &[f64], rows: u64, cols: u64, labels: &[f64]) -> DMatrix {
    let mut m = matrix(values, rows, cols);
    let l: Vec<i64> = labels.iter().map(|v| fx(*v)).collect();
    m.try_add_label(&l).expect("labels");
    m
}

fn trained_bytes() -> Vec<u8> {
    let dtrain = labelled(&[0.1, 0.2, 0.3, 0.4], 2, 2, &[1., 2.]);
    let dtest = matrix(&[0.1, 0.2, 0.3, 0.4], 2, 2);
    let booster = Booster::train(&dtrain, &dtest, 3).expect("Failed to train");
    booster.save_model()
}

#[test]
fn test_booster_creation() {
    let booster = Booster::new();
    assert!(booster.is_ok(), "Failed to create Booster");
}

#[test]
fn test_booster_config() {
    let mut booster = Booster::new().unwrap();
    let r = booster.set_conf("booster", "gblinear");
    assert!(r.is_ok(), "Could not set param");
}

#[test]
fn test_booster_train_and_save() {
    let data: Vec<i64> = [0.1, 0.2, 0.3, 0.4].iter().map(|v| fx(*v)).collect();
    let mut dtrain = DMatrix::try_from_data(&data, 2, 2).expect("Cannot create dtrain");
    let status = dtrain.try_add_label(&[fx(1.), fx(2.)]);
    assert!(status.is_ok(), "Could not add label to train matrix");
    let dtest = DMatrix::try_from_data(&data, 2, 2).expect("Cannot create dtest");
    let booster = Booster::train(&dtrain, &dtest, 3).expect("Failed to train");
    let res = booster.save_model();
    assert!(!res.is_empty(), "Failed to save");
    let num_feats = booster.get_number_of_features().unwrap();
    assert_eq!(num_feats, 2, "Wrong number of features");
}

#[test]
fn test_load_model() {
    let mut booster = Booster::new().expect("Failed to create Booster");
    let bytes = trained_bytes();
    let load_result = booster.load_model(&bytes);
    assert!(load_result.is_ok(), "Failed to load model");
}

#[test]
fn test_predict() {
    let dtrain = labelled(&[0.1, 0.4], 2, 1, &[1., 2.]);
    let saved = Booster::train(&dtrain, &dtrain, 3).expect("train").save_model();
    let mut booster = Booster::new().expect("Failed to create Booster");
    booster.load_model(&saved).expect("Failed to load model");
    let data = matrix(&[0.5, 1.2], 2, 1);
    let prediction = booster.predict(&data);
    assert!(prediction.is_ok(), "Prediction failed");
    assert!(!prediction.unwrap().is_empty(), "Prediction result is empty");
}

#[test]
fn predict_rejects_other_column_count() {
    let mut booster = Booster::new().unwrap();
    booster.load_model(&trained_bytes()).unwrap();
    let data = matrix(&[0.5, 1.2], 2, 1);
    assert_eq!(booster.predict(&data), Err(XGBoostError::Predict));
}

#[test]
fn scenario_four_rows_five_rounds() {
    let ds = labelled(&[1., 2., 3., 4.], 4, 1, &[1., 2., 3., 4.]);
    let mut booster = Booster::new().unwrap();
    booster.set_conf("max_depth", "1").unwrap();
    booster.set_conf("learning_rate", "0.3").unwrap();
    booster.fit(&ds, 5).unwrap();
    let bias = booster.model().bias;
    assert_eq!(bias, fx(2.5));
    let preds = booster.predict(&ds).unwrap();
    for (i, p) in preds.iter().enumerate() {
        let label = fx((i + 1) as f64);
        assert!((p - label).abs() < (bias - label).abs(), "row {i}: {p}");
    }
}

#[test]
fn constant_feature_predicts_bias() {
    let ds = labelled(&[7., 7., 7., 7., 7.], 5, 1, &[1., 2., 2., 5., 9.]);
    let mut booster = Booster::new().unwrap();
    booster.fit(&ds, 1).unwrap();
    let bias = booster.model().bias;
    assert_eq!(bias, fx(3.8));
    assert_eq!(booster.model().trees.len(), 1);
    assert_eq!(booster.model().trees[0], vec![TreeNode::Leaf { weight: 0 }]);
    assert_eq!(booster.predict(&ds).unwrap(), vec![bias; 5]);
}

#[test]
fn constant_feature_with_uneven_mean() {
    let ds = labelled(&[1., 1., 1.], 3, 1, &[0.000001, 0.000001, 0.000002]);
    let booster = Booster::train(&ds, &ds, 1).unwrap();
    let bias = booster.model().bias;
    assert_eq!(bias, 1);
    assert_eq!(booster.predict(&ds).unwrap(), vec![1, 1, 1]);
}

#[test]
fn predict_is_repeatable() {
    let ds = labelled(&[0.3, 1.0, 0.9, 0.2, 0.5, 0.5], 3, 2, &[0.4, 1.5, 0.8]);
    let booster = Booster::train(&ds, &ds, 4).unwrap();
    let a = booster.predict(&ds).unwrap();
    let b = booster.predict(&ds).unwrap();
    assert_eq!(a, b);
}

#[test]
fn save_load_keeps_predictions() {
    let ds = labelled(&[0.3, 1.0, 0.9, 0.2, 0.5, 0.5, 0.1, 0.7], 4, 2, &[0.4, 1.5, 0.8, 0.1]);
    let booster = Booster::train(&ds, &ds, 6).unwrap();
    let bytes = booster.save_model();
    let mut other = Booster::new().unwrap();
    other.load_model(&bytes).unwrap();
    assert_eq!(other.predict(&ds).unwrap(), booster.predict(&ds).unwrap());
    assert_eq!(other.save_model(), bytes);
    assert_eq!(other.get_number_of_features().unwrap(), 2);
}

#[test]
fn saved_model_layout() {
    let ds = labelled(&[1., 1.], 2, 1, &[3., 5.]);
    let booster = Booster::train(&ds, &ds, 1).unwrap();
    let bytes = booster.save_model();
    // header of five words, one tree: its size and one leaf of five words
    assert_eq!(bytes.len(), 8 * (5 + 1 + 5));
    assert_eq!(&bytes[0..8], &1u64.to_le_bytes());
    assert_eq!(&bytes[8..16], &1u64.to_le_bytes());
    let bias = (4_000_000i128 + (1i128 << 63)) as u64;
    assert_eq!(&bytes[16..24], &bias.to_le_bytes());
}

#[test]
fn load_rejects_bad_bytes() {
    let mut booster = Booster::new().unwrap();
    assert_eq!(booster.load_model(&[1, 2, 3]), Err(XGBoostError::Load));
    let mut bytes = trained_bytes();
    bytes[0] = 2;
    assert_eq!(booster.load_model(&bytes), Err(XGBoostError::Load));
    let mut truncated = trained_bytes();
    truncated.truncate(truncated.len() - 8);
    assert_eq!(booster.load_model(&truncated), Err(XGBoostError::Load));
    assert_eq!(booster.model().trees.len(), 0);
}

#[test]
fn squared_error_decreases_each_round() {
    let xs = [0.5, 1.0, 1.5, 2.0, 3.0, 4.5, 5.0, 6.0];
    let ds = labelled(&xs, 8, 1, &xs);
    let mut last = i128::MAX;
    for rounds in 0..8 {
        let mut booster = Booster::new().unwrap();
        booster.set_conf("max_depth", "3").unwrap();
        booster.fit(&ds, rounds).unwrap();
        let preds = booster.predict(&ds).unwrap();
        let sse: i128 = preds
            .iter()
            .zip(xs.iter())
            .map(|(p, x)| {
                let d = (*p - fx(*x)) as i128;
                d * d
            })
            .sum();
        assert!(sse < last, "round {rounds}: {sse} >= {last}");
        last = sse;
    }
}

#[test]
fn equal_gain_picks_lower_feature() {
    let ds = labelled(&[1., 1., 2., 2., 3., 3., 4., 4.], 4, 2, &[1., 2., 3., 4.]);
    let mut booster = Booster::new().unwrap();
    booster.set_conf("max_depth", "1").unwrap();
    booster.fit(&ds, 1).unwrap();
    match booster.model().trees[0][0] {
        TreeNode::Split { feature, .. } => assert_eq!(feature, 0),
        TreeNode::Leaf { .. } => panic!("expected a split"),
    }
}

#[test]
fn train_needs_labels() {
    let ds = matrix(&[1., 2.], 2, 1);
    assert_eq!(Booster::train(&ds, &ds, 2).err(), Some(XGBoostError::NoLabels));
    assert_eq!(Booster::train(&ds, &ds, 0).err(), Some(XGBoostError::NoLabels));
    let empty = DMatrix::try_new().unwrap();
    assert_eq!(Booster::train(&empty, &empty, 2).err(), Some(XGBoostError::NoLabels));
}

#[test]
fn train_without_rows() {
    let mut empty = DMatrix::try_new().unwrap();
    empty.try_add_label(&[]).unwrap();
    assert_eq!(Booster::train(&empty, &empty, 2).err(), Some(XGBoostError::Train(0)));
    let booster = Booster::train(&empty, &empty, 0).unwrap();
    assert_eq!(booster.model().trees.len(), 0);
    assert_eq!(booster.model().bias, 0);
}

#[test]
fn train_refuses_labels_beyond_range() {
    let ds = labelled(&[1., 2.], 2, 1, &[1., 250000.]);
    assert_eq!(Booster::train(&ds, &ds, 1).err(), Some(XGBoostError::Range));
}

#[test]
fn zero_rounds_gives_bias_only() {
    let ds = labelled(&[1., 2.], 2, 1, &[1., 4.]);
    let booster = Booster::train(&ds, &ds, 0).unwrap();
    assert_eq!(booster.predict(&ds).unwrap(), vec![fx(2.5), fx(2.5)]);
}

#[test]
fn settings_are_parsed() {
    let mut booster = Booster::new().unwrap();
    booster.set_conf("eta", "0.25").unwrap();
    booster.set_conf("lambda", "2").unwrap();
    booster.set_conf("gamma", "0.000001").unwrap();
    booster.set_conf("max_bin", "16").unwrap();
    booster.set_conf("objective", "reg:squarederror").unwrap();
    let c = booster.config();
    assert_eq!(c.learning_rate, 250_000);
    assert_eq!(c.tree.lambda, 2_000_000);
    assert_eq!(c.tree.gamma, 1);
    assert_eq!(c.tree.num_bins, 16);
    assert_eq!(c.tree.max_depth, 6);
    booster.set_conf("lambda", "0.1234567").unwrap();
    assert_eq!(booster.config().tree.lambda, 123_456);
}

#[test]
fn invalid_settings_are_refused() {
    let mut booster = Booster::new().unwrap();
    let before = booster.config();
    for (k, v) in [
        ("eta", "-0.3"),
        ("eta", "1.5"),
        ("max_bin", "0"),
        ("max_bin", "257"),
        ("max_depth", "4.5"),
        ("lambda", "0.1234567890123"),
        ("gamma", "1."),
        ("objective", "binary:logistic"),
    ] {
        assert_eq!(
            booster.set_conf(k, v),
            Err(XGBoostError::Config(k.to_string(), v.to_string()))
        );
    }
    assert_eq!(booster.config(), before);
}

#[test]
fn large_labels_are_fit_exactly() {
    let ds = labelled(&[1., 2.], 2, 1, &[4000., -4000.]);
    let mut booster = Booster::new().unwrap();
    booster.set_conf("lambda", "0").unwrap();
    booster.set_conf("eta", "1").unwrap();
    booster.set_conf("min_child_weight", "0").unwrap();
    assert!(booster.fit(&ds, 3).is_ok());
    let preds = booster.predict(&ds).unwrap();
    assert_eq!(preds, vec![fx(4000.), fx(-4000.)]);
}
