use raddar::cell::{CopyInPlace, ValueCell};
use raddar::flat_map::FlatMap;
use raddar::state_dict::StateDict;

#[derive(Clone, Debug)]
struct Scalar(f64);

impl CopyInPlace for Scalar {
    fn copy_from(&mut self, source: &Self) {
        self.0 = source.0;
    }
}

/// A layer `y = weight * x + bias` on scalars, with its parameters in cells.
struct Linear {
    weight: ValueCell<Scalar>,
    bias: ValueCell<Scalar>,
}

impl Linear {
    fn new() -> Linear {
        Linear { weight: ValueCell::new(Scalar(0.5)), bias: ValueCell::new(Scalar(0.0)) }
    }

    fn parameters(&self) -> StateDict<Scalar> {
        let mut p = StateDict::new();
        p.insert("weight".to_string(), self.weight.clone_handle());
        p.insert("bias".to_string(), self.bias.clone_handle());
        p
    }

    fn forward(&self, x: f64) -> f64 {
        self.weight.get().0 * x + self.bias.get().0
    }
}

fn model_parameters(model: &[Linear]) -> StateDict<Scalar> {
    let mut p = StateDict::new();
    for (i, layer) in model.iter().enumerate() {
        p.append_child(i.to_string(), layer.parameters());
    }
    p
}

#[test]
fn load_parameter_test() {
    let model = vec![Linear::new(), Linear::new()];
    let mut parameters = FlatMap::new();
    for (k, v) in [("0.weight", 1.0), ("0.bias", 2.0), ("1.weight", 3.0), ("1.bias", 2.0)] {
        parameters.insert(k.to_owned(), ValueCell::new(Scalar(v)));
    }
    let state_dict = StateDict::from_map(parameters);
    model_parameters(&model).arc().load(state_dict);
    let output = model.iter().fold(1.0, |x, layer| layer.forward(x));
    assert_eq!(output, 11.0);
}

#[test]
fn read_nonexistent_parameter_test() {
    let model = vec![Linear::new(), Linear::new()];
    let result = model_parameters(&model)
        .arc()
        .child_state_dict("0".to_string())
        .unwrap()
        .arc()
        .tensor("nonexistent");
    assert!(result.is_err(), "Exist tensor named nonexistent in state dict");
}
