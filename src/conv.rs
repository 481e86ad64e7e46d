use crate::cell::ValueCell;
use crate::state_dict::{flat_entries, StateDict, StateValue};
use vstd::prelude::*;

verus! {

/// The flat parameters of a layer with weight `w` and bias `b`.
pub open spec fn layer_params<T>(w: ValueCell<T>, b: Option<ValueCell<T>>) -> Map<Seq<char>, ValueCell<T>> {
    match b {
        Some(c) => map![weight_key() => w, bias_key() => c],
        None => map![weight_key() => w],
    }
}

pub open spec fn weight_key() -> Seq<char> {
    seq!['w', 'e', 'i', 'g', 'h', 't']
}

pub open spec fn bias_key() -> Seq<char> {
    seq!['b', 'i', 'a', 's']
}

/// A root holding `w` under `weight` and `b`, if any, under `bias`.
fn layer_state<T>(w: &ValueCell<T>, b: &Option<ValueCell<T>>) -> (r: StateDict<T>)
    ensures
        r.data.parent.is_none(),
        r.data.flat() == layer_params(*w, *b),
{
    let mut r = StateDict::new();
    let weight = String::from_str("weight");
    proof {
        reveal_strlit("weight");
        assert(weight@ =~= weight_key());
    }
    let ghost s0 = r.data.parameters@;
    let ghost wname = weight;
    r.insert(weight, w.clone_handle());
    proof {
        assert(crate::state_dict::find_entry(s0, weight_key()) == -1);
        assert(r.data.parameters@ == s0.push((wname, StateValue::Tensor(*w))));
        assert(flat_entries(s0) == Map::<Seq<char>, ValueCell<T>>::empty());
        assert(r.data.parameters@.drop_last() =~= s0);
        assert(flat_entries(r.data.parameters@) =~= map![weight_key() => *w]);
    }
    match b {
        Some(c) => {
            let bias = String::from_str("bias");
            proof {
                reveal_strlit("bias");
                assert(bias@ =~= bias_key());
            }
            let ghost s1 = r.data.parameters@;
            let ghost bname = bias;
            proof {
                assert(s1[0].0@ != bias_key());
                assert(crate::state_dict::find_entry(s1.drop_last(), bias_key()) == -1);
            }
            r.insert(bias, c.clone_handle());
            proof {
                assert(r.data.parameters@ == s1.push((bname, StateValue::Tensor(*c))));
                assert(r.data.parameters@.drop_last() =~= s1);
                assert(flat_entries(r.data.parameters@) =~= map![weight_key() => *w, bias_key() => *c]);
            }
        },
        None => {},
    }
    r
}

/// Hyperparameters of a convolution in 1 dimension.
pub struct Conv1dConfig {
    pub in_channel: i64,
    pub out_channel: i64,
    pub kernel_size: [i64; 1],
    pub stride: [i64; 1],
    pub padding: [i64; 1],
    pub dilation: [i64; 1],
    pub groups: i64,
    pub bias: bool,
}

impl Conv1dConfig {
    /// A configuration with unit stride and dilation, no padding, one group and a bias.
    pub fn new(in_channel: i64, out_channel: i64, kernel_size: [i64; 1]) -> (r: Self)
        ensures
            r.in_channel == in_channel,
            r.out_channel == out_channel,
            r.kernel_size == kernel_size,
            r.stride@ == seq![1i64],
            r.padding@ == seq![0i64],
            r.dilation@ == seq![1i64],
            r.groups == 1,
            r.bias,
    {
        Conv1dConfig {
            in_channel,
            out_channel,
            kernel_size,
            stride: [1],
            padding: [0],
            dilation: [1],
            groups: 1,
            bias: true,
        }
    }

    /// Shape of the weight: output channels, input channels, then the kernel's extent.
    pub fn weight_shape(&self) -> (r: Vec<i64>)
        ensures
            r@ == seq![self.out_channel, self.in_channel] + self.kernel_size@,
    {
        let mut r: Vec<i64> = Vec::new();
        r.push(self.out_channel);
        r.push(self.in_channel);
        let mut i: usize = 0;
        while i < 1
            invariant
                i <= 1,
                r@ == seq![self.out_channel, self.in_channel] + self.kernel_size@.subrange(0, i as int),
            decreases 1 - i,
        {
            r.push(self.kernel_size[i]);
            assert(self.kernel_size@.subrange(0, i + 1) =~= self.kernel_size@.subrange(0, i as int).push(self.kernel_size@[i as int]));
            i = i + 1;
        }
        assert(self.kernel_size@.subrange(0, 1) =~= self.kernel_size@);
        r
    }
}

/// A convolution layer in 1 dimension: its weight and bias cells and its hyperparameters.
pub struct Conv1d<T> {
    pub conv_weight: ValueCell<T>,
    pub conv_bias: Option<ValueCell<T>>,
    pub in_channel: i64,
    pub out_channel: i64,
    pub kernel_size: [i64; 1],
    pub stride: [i64; 1],
    pub padding: [i64; 1],
    pub dilation: [i64; 1],
    pub groups: i64,
    pub bias: bool,
}

impl<T> Conv1d<T> {
    /// The layer of `config`, with the initial weight `weight` and, if the configuration asks
    /// for one, the initial bias `bias`.
    pub fn new(config: Conv1dConfig, weight: T, bias: T) -> (r: Self)
        ensures
            r.conv_bias.is_some() == config.bias,
            r.in_channel == config.in_channel,
            r.out_channel == config.out_channel,
            r.kernel_size == config.kernel_size,
            r.stride == config.stride,
            r.padding == config.padding,
            r.dilation == config.dilation,
            r.groups == config.groups,
            r.bias == config.bias,
    {
        Conv1d {
            conv_weight: ValueCell::new(weight),
            conv_bias: if config.bias {
                Some(ValueCell::new(bias))
            } else {
                None
            },
            in_channel: config.in_channel,
            out_channel: config.out_channel,
            kernel_size: config.kernel_size,
            stride: config.stride,
            padding: config.padding,
            dilation: config.dilation,
            groups: config.groups,
            bias: config.bias,
        }
    }

    /// The layer's parameters: its weight under `weight`, and its bias, if any, under `bias`.
    pub fn parameters(&self) -> (r: StateDict<T>)
        ensures
            r.data.parent.is_none(),
            r.data.flat() == layer_params(self.conv_weight, self.conv_bias),
    {
        layer_state(&self.conv_weight, &self.conv_bias)
    }
}

/// Hyperparameters of a convolution in 2 dimensions.
pub struct Conv2dConfig {
    pub in_channel: i64,
    pub out_channel: i64,
    pub kernel_size: [i64; 2],
    pub stride: [i64; 2],
    pub padding: [i64; 2],
    pub dilation: [i64; 2],
    pub groups: i64,
    pub bias: bool,
}

impl Conv2dConfig {
    /// A configuration with unit stride and dilation, no padding, one group and a bias.
    pub fn new(in_channel: i64, out_channel: i64, kernel_size: [i64; 2]) -> (r: Self)
        ensures
            r.in_channel == in_channel,
            r.out_channel == out_channel,
            r.kernel_size == kernel_size,
            r.stride@ == seq![1, 1i64],
            r.padding@ == seq![0, 0i64],
            r.dilation@ == seq![1, 1i64],
            r.groups == 1,
            r.bias,
    {
        Conv2dConfig {
            in_channel,
            out_channel,
            kernel_size,
            stride: [1, 1],
            padding: [0, 0],
            dilation: [1, 1],
            groups: 1,
            bias: true,
        }
    }

    /// Shape of the weight: output channels, input channels, then the kernel's extent.
    pub fn weight_shape(&self) -> (r: Vec<i64>)
        ensures
            r@ == seq![self.out_channel, self.in_channel] + self.kernel_size@,
    {
        let mut r: Vec<i64> = Vec::new();
        r.push(self.out_channel);
        r.push(self.in_channel);
        let mut i: usize = 0;
        while i < 2
            invariant
                i <= 2,
                r@ == seq![self.out_channel, self.in_channel] + self.kernel_size@.subrange(0, i as int),
            decreases 2 - i,
        {
            r.push(self.kernel_size[i]);
            assert(self.kernel_size@.subrange(0, i + 1) =~= self.kernel_size@.subrange(0, i as int).push(self.kernel_size@[i as int]));
            i = i + 1;
        }
        assert(self.kernel_size@.subrange(0, 2) =~= self.kernel_size@);
        r
    }
}

/// A convolution layer in 2 dimensions: its weight and bias cells and its hyperparameters.
pub struct Conv2d<T> {
    pub conv_weight: ValueCell<T>,
    pub conv_bias: Option<ValueCell<T>>,
    pub in_channel: i64,
    pub out_channel: i64,
    pub kernel_size: [i64; 2],
    pub stride: [i64; 2],
    pub padding: [i64; 2],
    pub dilation: [i64; 2],
    pub groups: i64,
    pub bias: bool,
}

impl<T> Conv2d<T> {
    /// The layer of `config`, with the initial weight `weight` and, if the configuration asks
    /// for one, the initial bias `bias`.
    pub fn new(config: Conv2dConfig, weight: T, bias: T) -> (r: Self)
        ensures
            r.conv_bias.is_some() == config.bias,
            r.in_channel == config.in_channel,
            r.out_channel == config.out_channel,
            r.kernel_size == config.kernel_size,
            r.stride == config.stride,
            r.padding == config.padding,
            r.dilation == config.dilation,
            r.groups == config.groups,
            r.bias == config.bias,
    {
        Conv2d {
            conv_weight: ValueCell::new(weight),
            conv_bias: if config.bias {
                Some(ValueCell::new(bias))
            } else {
                None
            },
            in_channel: config.in_channel,
            out_channel: config.out_channel,
            kernel_size: config.kernel_size,
            stride: config.stride,
            padding: config.padding,
            dilation: config.dilation,
            groups: config.groups,
            bias: config.bias,
        }
    }

    /// The layer's parameters: its weight under `weight`, and its bias, if any, under `bias`.
    pub fn parameters(&self) -> (r: StateDict<T>)
        ensures
            r.data.parent.is_none(),
            r.data.flat() == layer_params(self.conv_weight, self.conv_bias),
    {
        layer_state(&self.conv_weight, &self.conv_bias)
    }
}

/// Hyperparameters of a convolution in 3 dimensions.
pub struct Conv3dConfig {
    pub in_channel: i64,
    pub out_channel: i64,
    pub kernel_size: [i64; 3],
    pub stride: [i64; 3],
    pub padding: [i64; 3],
    pub dilation: [i64; 3],
    pub groups: i64,
    pub bias: bool,
}

impl Conv3dConfig {
    /// A configuration with unit stride and dilation, no padding, one group and a bias.
    pub fn new(in_channel: i64, out_channel: i64, kernel_size: [i64; 3]) -> (r: Self)
        ensures
            r.in_channel == in_channel,
            r.out_channel == out_channel,
            r.kernel_size == kernel_size,
            r.stride@ == seq![1, 1, 1i64],
            r.padding@ == seq![0, 0, 0i64],
            r.dilation@ == seq![1, 1, 1i64],
            r.groups == 1,
            r.bias,
    {
        Conv3dConfig {
            in_channel,
            out_channel,
            kernel_size,
            stride: [1, 1, 1],
            padding: [0, 0, 0],
            dilation: [1, 1, 1],
            groups: 1,
            bias: true,
        }
    }

    /// Shape of the weight: output channels, input channels, then the kernel's extent.
    pub fn weight_shape(&self) -> (r: Vec<i64>)
        ensures
            r@ == seq![self.out_channel, self.in_channel] + self.kernel_size@,
    {
        let mut r: Vec<i64> = Vec::new();
        r.push(self.out_channel);
        r.push(self.in_channel);
        let mut i: usize = 0;
        while i < 3
            invariant
                i <= 3,
                r@ == seq![self.out_channel, self.in_channel] + self.kernel_size@.subrange(0, i as int),
            decreases 3 - i,
        {
            r.push(self.kernel_size[i]);
            assert(self.kernel_size@.subrange(0, i + 1) =~= self.kernel_size@.subrange(0, i as int).push(self.kernel_size@[i as int]));
            i = i + 1;
        }
        assert(self.kernel_size@.subrange(0, 3) =~= self.kernel_size@);
        r
    }
}

/// A convolution layer in 3 dimensions: its weight and bias cells and its hyperparameters.
pub struct Conv3d<T> {
    pub conv_weight: ValueCell<T>,
    pub conv_bias: Option<ValueCell<T>>,
    pub in_channel: i64,
    pub out_channel: i64,
    pub kernel_size: [i64; 3],
    pub stride: [i64; 3],
    pub padding: [i64; 3],
    pub dilation: [i64; 3],
    pub groups: i64,
    pub bias: bool,
}

impl<T> Conv3d<T> {
    /// The layer of `config`, with the initial weight `weight` and, if the configuration asks
    /// for one, the initial bias `bias`.
    pub fn new(config: Conv3dConfig, weight: T, bias: T) -> (r: Self)
        ensures
            r.conv_bias.is_some() == config.bias,
            r.in_channel == config.in_channel,
            r.out_channel == config.out_channel,
            r.kernel_size == config.kernel_size,
            r.stride == config.stride,
            r.padding == config.padding,
            r.dilation == config.dilation,
            r.groups == config.groups,
            r.bias == config.bias,
    {
        Conv3d {
            conv_weight: ValueCell::new(weight),
            conv_bias: if config.bias {
                Some(ValueCell::new(bias))
            } else {
                None
            },
            in_channel: config.in_channel,
            out_channel: config.out_channel,
            kernel_size: config.kernel_size,
            stride: config.stride,
            padding: config.padding,
            dilation: config.dilation,
            groups: config.groups,
            bias: config.bias,
        }
    }

    /// The layer's parameters: its weight under `weight`, and its bias, if any, under `bias`.
    pub fn parameters(&self) -> (r: StateDict<T>)
        ensures
            r.data.parent.is_none(),
            r.data.flat() == layer_params(self.conv_weight, self.conv_bias),
    {
        layer_state(&self.conv_weight, &self.conv_bias)
    }
}

} // verus!
