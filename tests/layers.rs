use raddar::conv::{Conv1d, Conv1dConfig, Conv2d, Conv2dConfig, Conv3d, Conv3dConfig};
use raddar::dataset::{Dataset, SimpleDataset};
use raddar::layers::{conv1x1, conv3x3, transition, GeLU, Layer, NonParameterModule};
use raddar::state_dict::StateDict;
use std::sync::Arc;

#[test]
fn conv3x3_pads_by_dilation() {
    let c = conv3x3(16, 32, [2, 2], 4, [2, 2]);
    assert_eq!((c.in_channel, c.out_channel), (16, 32));
    assert_eq!(c.kernel_size, [3, 3]);
    assert_eq!(c.stride, [2, 2]);
    assert_eq!(c.padding, [2, 2]);
    assert_eq!(c.dilation, [2, 2]);
    assert_eq!(c.groups, 4);
    assert!(!c.bias);
}

#[test]
fn conv1x1_has_no_padding() {
    let c = conv1x1(8, 4, [1, 1]);
    assert_eq!(c.kernel_size, [1, 1]);
    assert_eq!(c.padding, [0, 0]);
    assert_eq!(c.dilation, [1, 1]);
    assert_eq!(c.groups, 1);
    assert!(!c.bias);
    assert_eq!(c.weight_shape(), vec![4, 8, 1, 1]);
}

#[test]
fn transition_layers_in_order() {
    let t = transition(64, 32);
    let names: Vec<&str> = t.iter().map(|(n, _)| n.as_str()).collect();
    assert_eq!(names, vec!["norm", "relu", "conv", "pool"]);
    assert!(matches!(t[0].1, Layer::BatchNorm2d { num_features: 64 }));
    match &t[2].1 {
        Layer::Conv2d(c) => {
            assert_eq!((c.in_channel, c.out_channel, c.kernel_size, c.bias), (64, 32, [1, 1], false));
        }
        _ => panic!("expected a convolution"),
    }
    assert!(matches!(t[3].1, Layer::AvgPool2d { kernel_size: [2, 2], stride: [2, 2] }));
}

#[test]
fn conv_parameters_hold_weight_and_bias() {
    let with_bias = Conv2d::new(Conv2dConfig::new(3, 6, [5, 5]), 1i64, 2i64);
    let p = with_bias.parameters().arc().to_map();
    assert_eq!(p.len(), 2);
    assert_eq!(p.get("weight").unwrap().get(), 1);
    assert_eq!(p.get("bias").unwrap().get(), 2);
    let mut cfg = Conv1dConfig::new(3, 6, [5]);
    cfg.bias = false;
    let without = Conv1d::new(cfg, 1i64, 2i64);
    assert!(without.conv_bias.is_none());
    assert_eq!(without.parameters().arc().to_map().len(), 1);
    let c3 = Conv3d::new(Conv3dConfig::new(1, 2, [3, 4, 5]), 0i64, 0i64);
    assert_eq!(Conv3dConfig::new(1, 2, [3, 4, 5]).weight_shape(), vec![2, 1, 3, 4, 5]);
    assert_eq!(c3.stride, [1, 1, 1]);
}

#[test]
fn conv_layers_load_from_a_namespace() {
    let mut model = StateDict::new();
    let l0 = Conv2d::new(Conv2dConfig::new(1, 1, [1, 1]), 0i64, 0i64);
    let l1 = Conv2d::new(Conv2dConfig::new(1, 1, [1, 1]), 0i64, 0i64);
    model.append_child("0".to_string(), l0.parameters());
    model.append_child("1".to_string(), l1.parameters());
    let mut m = raddar::flat_map::FlatMap::new();
    for (k, v) in [("0.weight", 1i64), ("0.bias", 2), ("1.weight", 3), ("1.bias", 2)] {
        m.insert(k.to_string(), raddar::cell::ValueCell::new(v));
    }
    model.arc().load(StateDict::from_map(m));
    let x = 1i64;
    let h = l0.conv_weight.get() * x + l0.conv_bias.as_ref().unwrap().get();
    let y = l1.conv_weight.get() * h + l1.conv_bias.as_ref().unwrap().get();
    assert_eq!(y, 11);
}

#[test]
fn gelu_has_no_parameters() {
    let p: StateDict<i64> = GeLU.trainable_parameters();
    assert_eq!(p.arc().parameters.len(), 0);
}

#[test]
fn dataset_batches_cover_every_sample() {
    let inputs: Vec<Arc<i64>> = (0..5).map(Arc::new).collect();
    let labels: Vec<Arc<i64>> = (10..15).map(Arc::new).collect();
    let d = SimpleDataset { inputs, labels, size: 5, batch_size: 2 };
    let mut it = d.iter();
    let mut batches = Vec::new();
    while let Some((x, y)) = it.next() {
        batches.push((x.iter().map(|v| **v).collect::<Vec<_>>(), y.iter().map(|v| **v).collect::<Vec<_>>()));
    }
    assert_eq!(batches, vec![(vec![0, 1], vec![10, 11]), (vec![2, 3], vec![12, 13]), (vec![4], vec![14])]);
    assert_eq!(it.index, 5);
    assert!(it.next().is_none());
    assert_eq!(d.get_size(), 5);
    assert_eq!(d.get_batch_size(), 2);
    assert_eq!(d.get_inputs().len(), 5);
    assert_eq!(*d.get_labels()[0], 10);
}

#[test]
fn dataset_batch_larger_than_size() {
    let d = SimpleDataset { inputs: vec![Arc::new(1i64)], labels: vec![Arc::new(2i64)], size: 1, batch_size: usize::MAX };
    let mut it = d.iter();
    let (x, y) = it.next().unwrap();
    assert_eq!((*x[0], *y[0]), (1, 2));
    assert!(it.next().is_none());
}
