use crate::conv::Conv2dConfig;
use crate::state_dict::StateDict;
use vstd::prelude::*;

verus! {

/// A layer of a network, by its hyperparameters.
pub enum Layer {
    BatchNorm2d { num_features: i64 },
    ReLU,
    Conv2d(Conv2dConfig),
    AvgPool2d { kernel_size: [i64; 2], stride: [i64; 2] },
}

/// A module without trainable parameters.
pub trait NonParameterModule {
    /// Its parameters: an empty root.
    fn trainable_parameters<T>(&self) -> (r: StateDict<T>)
        ensures
            r.data.parent.is_none(),
            r.data.parameters@.len() == 0,
    {
        StateDict::new()
    }
}

/// The Gaussian error linear unit activation.
pub struct GeLU;

impl NonParameterModule for GeLU {}

/// A 3x3 convolution without bias, padded by its dilation.
pub fn conv3x3(
    in_planes: i64,
    out_planes: i64,
    stride: [i64; 2],
    groups: i64,
    dilation: [i64; 2],
) -> (r: Conv2dConfig)
    ensures
        r.in_channel == in_planes,
        r.out_channel == out_planes,
        r.kernel_size@ == seq![3i64, 3i64],
        r.stride == stride,
        r.padding == dilation,
        r.dilation == dilation,
        r.groups == groups,
        !r.bias,
{
    let mut c = Conv2dConfig::new(in_planes, out_planes, [3, 3]);
    c.stride = stride;
    c.groups = groups;
    c.dilation = dilation;
    c.bias = false;
    c.padding = dilation;
    c
}

/// A 1x1 convolution without bias.
pub fn conv1x1(in_planes: i64, out_planes: i64, stride: [i64; 2]) -> (r: Conv2dConfig)
    ensures
        r.in_channel == in_planes,
        r.out_channel == out_planes,
        r.kernel_size@ == seq![1i64, 1i64],
        r.stride == stride,
        r.padding@ == seq![0i64, 0i64],
        r.dilation@ == seq![1i64, 1i64],
        r.groups == 1,
        !r.bias,
{
    let mut c = Conv2dConfig::new(in_planes, out_planes, [1, 1]);
    c.stride = stride;
    c.bias = false;
    c
}

/// The transition between two dense blocks: batch norm, ReLU, a 1x1 convolution without bias
/// and a 2x2 average pooling, under the names `norm`, `relu`, `conv` and `pool`.
pub fn transition(num_input_features: i64, num_output_features: i64) -> (r: Vec<(String, Layer)>)
    ensures
        r@.len() == 4,
        r@[0].0@ == "norm"@,
        r@[0].1 == (Layer::BatchNorm2d { num_features: num_input_features }),
        r@[1].0@ == "relu"@,
        r@[1].1 == Layer::ReLU,
        r@[2].0@ == "conv"@,
        r@[2].1 matches Layer::Conv2d(c) && conv_transition(c, num_input_features, num_output_features),
        r@[3].0@ == "pool"@,
        r@[3].1 matches Layer::AvgPool2d { kernel_size, stride } && kernel_size@ == seq![2i64, 2i64]
            && stride@ == seq![2i64, 2i64],
{
    let mut res: Vec<(String, Layer)> = Vec::new();
    res.push((String::from_str("norm"), Layer::BatchNorm2d { num_features: num_input_features }));
    res.push((String::from_str("relu"), Layer::ReLU));
    let mut conv = Conv2dConfig::new(num_input_features, num_output_features, [1, 1]);
    conv.stride = [1, 1];
    conv.bias = false;
    res.push((String::from_str("conv"), Layer::Conv2d(conv)));
    res.push((String::from_str("pool"), Layer::AvgPool2d { kernel_size: [2, 2], stride: [2, 2] }));
    res
}

/// The convolution of a transition from `n_in` to `n_out` features: 1x1, unit stride, no bias.
pub open spec fn conv_transition(c: Conv2dConfig, n_in: i64, n_out: i64) -> bool {
    &&& c.in_channel == n_in
    &&& c.out_channel == n_out
    &&& c.kernel_size@ == seq![1i64, 1i64]
    &&& c.stride@ == seq![1i64, 1i64]
    &&& c.padding@ == seq![0i64, 0i64]
    &&& c.dilation@ == seq![1i64, 1i64]
    &&& c.groups == 1
    &&& !c.bias
}

} // verus!
