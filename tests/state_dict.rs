use raddar::cell::{CopyInPlace, ValueCell};
use raddar::flat_map::FlatMap;
use raddar::state_dict::{EntryKind, StateDict, StateValue};

#[derive(Clone, Debug, PartialEq)]
struct Weight {
    value: f64,
    trainable: bool,
}

impl CopyInPlace for Weight {
    fn copy_from(&mut self, source: &Self) {
        self.value = source.value;
    }
}

fn w(value: f64) -> ValueCell<Weight> {
    ValueCell::new(Weight { value, trainable: true })
}

fn flat(pairs: &[(&str, i64)]) -> (FlatMap<ValueCell<i64>>, Vec<ValueCell<i64>>) {
    let mut m = FlatMap::new();
    let mut cells = Vec::new();
    for (k, v) in pairs {
        let c = ValueCell::new(*v);
        cells.push(c.clone_handle());
        m.insert(k.to_string(), c);
    }
    (m, cells)
}

fn sorted_keys<T>(m: &FlatMap<T>) -> Vec<String> {
    let mut keys: Vec<String> = m.entries.iter().map(|(k, _)| k.clone()).collect();
    keys.sort();
    keys
}

#[test]
fn round_trip_gives_back_the_namespace() {
    let pairs = [("block1.conv.weight", 1), ("block1.conv.bias", 2), ("block1.bn", 3), ("fc", 4), ("x.y.z.w", 5)];
    let (m, cells) = flat(&pairs);
    let tree = StateDict::from_map(m);
    let out = tree.arc().to_map();
    assert_eq!(out.len(), pairs.len());
    for (i, (k, v)) in pairs.iter().enumerate() {
        let c = out.get(k).expect("key kept");
        assert_eq!(c.get(), *v);
        cells[i].set(100 + i as i64);
        assert_eq!(c.get(), 100 + i as i64);
    }
}

#[test]
fn shadowed_key_gives_way_to_nested_tree() {
    let (m, _) = flat(&[("a", 1), ("a.b", 2), ("c", 3)]);
    let tree = StateDict::from_map(m);
    let out = tree.arc().to_map();
    assert_eq!(sorted_keys(&out), vec!["a.b".to_string(), "c".to_string()]);
    assert!(tree.arc().tensor("a").is_err());
    assert!(tree.arc().child_state_dict("a".to_string()).is_ok());
}

#[test]
fn empty_namespace_builds_empty_root() {
    let (m, _) = flat(&[]);
    let tree = StateDict::from_map(m);
    assert_eq!(tree.arc().parameters.len(), 0);
    assert_eq!(tree.arc().to_map().len(), 0);
    assert_eq!(tree.arc().path(), "root");
}

#[test]
fn path_of_nested_nodes() {
    let (m, _) = flat(&[("a.b.c", 7)]);
    let tree = StateDict::from_map(m);
    let a = tree.arc().child_state_dict("a".to_string()).ok().unwrap();
    let b = a.arc().child_state_dict("b".to_string()).ok().unwrap();
    assert_eq!(a.arc().path(), "root.a");
    assert_eq!(b.arc().path(), "root.a.b");
    assert_eq!(b.arc().tensor("c").ok().unwrap().get(), 7);
}

#[test]
fn appending_twice_is_appending_once() {
    let mut once = StateDict::new();
    let mut twice = StateDict::new();
    let leaf = ValueCell::new(1i64);
    for root in [&mut once, &mut twice] {
        root.insert("k".to_string(), leaf.clone_handle());
    }
    let mut child = StateDict::new();
    child.insert("w".to_string(), ValueCell::new(5i64));
    let (m, _) = flat(&[("w", 5)]);
    let child2 = StateDict::from_map(m);
    once.append_child("x".to_string(), child);
    twice.append_child("x".to_string(), child2);
    let (m, _) = flat(&[("w", 5)]);
    twice.append_child("x".to_string(), StateDict::from_map(m));
    assert_eq!(once.arc().parameters.len(), 2);
    assert_eq!(twice.arc().parameters.len(), 2);
    assert_eq!(sorted_keys(&once.arc().to_map()), sorted_keys(&twice.arc().to_map()));
    let x = twice.arc().child_state_dict("x".to_string()).ok().unwrap();
    assert_eq!(x.arc().path(), "root.x");
    assert_eq!(x.arc().name, "x");
}

#[test]
fn append_child_overwrites_a_leaf() {
    let mut root = StateDict::new();
    root.insert("x".to_string(), ValueCell::new(1i64));
    root.append_child("x".to_string(), StateDict::new());
    assert_eq!(root.arc().parameters.len(), 1);
    assert!(matches!(root.arc().parameters[0].1, StateValue::ChildStateDict(_)));
}

#[test]
fn partial_load_copies_only_shared_leaves() {
    let mut target = StateDict::new();
    let tw = w(1.0);
    let tb = w(2.0);
    target.insert("w".to_string(), tw.clone_handle());
    target.insert("b".to_string(), tb.clone_handle());
    let mut source = StateDict::new();
    source.insert("w".to_string(), w(9.0));
    let copied = target.arc().load(source);
    assert_eq!(copied.len(), 1);
    assert_eq!(target.arc().tensor("w").ok().unwrap().get().value, 9.0);
    assert_eq!(target.arc().tensor("b").ok().unwrap().get().value, 2.0);
    assert_eq!(tw.get().value, 9.0);
}

#[test]
fn load_keeps_the_target_trainable_flag() {
    let mut target = StateDict::new();
    target.insert("w".to_string(), ValueCell::new(Weight { value: 1.0, trainable: true }));
    let mut source = StateDict::new();
    source.insert("w".to_string(), ValueCell::new(Weight { value: 3.0, trainable: false }));
    target.arc().load(source);
    assert_eq!(target.arc().tensor("w").ok().unwrap().get(), Weight { value: 3.0, trainable: true });
}

#[test]
fn tag_mismatch_is_skipped() {
    let mut inner = StateDict::new();
    let kept = w(4.0);
    inner.insert("y".to_string(), kept.clone_handle());
    let mut target = StateDict::new();
    target.append_child("x".to_string(), inner);
    let mut source = StateDict::new();
    source.insert("x".to_string(), w(8.0));
    let pairs = target.arc().load_pairs(source.arc());
    assert_eq!(pairs.len(), 0);
    assert_eq!(target.arc().load(source).len(), 0);
    assert_eq!(kept.get().value, 4.0);
    assert_eq!(target.arc().parameters.len(), 1);
    assert!(target.arc().child_state_dict("x".to_string()).is_ok());
}

#[test]
fn load_recurses_into_nested_trees() {
    let (mt, tcells) = flat(&[("l0.weight", 1), ("l0.bias", 2), ("l1.weight", 3), ("l1.bias", 4)]);
    let target = StateDict::from_map(mt);
    let (ms, _) = flat(&[("l0.weight", 10), ("l1.bias", 40), ("l2.weight", 50)]);
    let source = StateDict::from_map(ms);
    target.arc().load(source);
    let got: Vec<i64> = tcells.iter().map(|c| c.get()).collect();
    assert_eq!(got, vec![10, 2, 3, 40]);
}

#[test]
fn missing_child_is_reported() {
    let root: StateDict<i64> = StateDict::new();
    let err = root.arc().child_state_dict("missing".to_string()).err().unwrap();
    assert_eq!(err.kind, EntryKind::Module);
    let msg = err.message();
    assert!(msg.contains("missing"));
    assert!(msg.contains("root"));
    assert_eq!(msg, "No such module: missing in root");
}

#[test]
fn leaf_lookup_on_a_nested_tree_fails() {
    let (m, _) = flat(&[("a.b", 1)]);
    let tree = StateDict::from_map(m);
    let a = tree.arc().child_state_dict("a".to_string()).ok().unwrap();
    let err = a.arc().tensor("nonexistent").err().unwrap();
    assert_eq!(err.kind, EntryKind::Tensor);
    assert_eq!(err.message(), "No such parameter: nonexistent in root.a");
    let err = tree.arc().tensor("a").err().unwrap();
    assert_eq!(err.path, "root");
    let err = a.arc().child_state_dict("b".to_string()).err().unwrap();
    assert_eq!(err.message(), "No such module: b in root.a");
}

#[test]
fn to_vec_visits_each_leaf_once() {
    let (m, _) = flat(&[("a.b", 1), ("a.c", 2), ("d", 3), ("e.f.g", 4)]);
    let tree = StateDict::from_map(m);
    let mut values: Vec<i64> = tree.arc().to_vec().iter().map(|c| c.get()).collect();
    values.sort();
    assert_eq!(values, vec![1, 2, 3, 4]);
}

#[test]
fn to_map_prefixes_nested_keys() {
    let mut inner = StateDict::new();
    inner.insert("weight".to_string(), ValueCell::new(2i64));
    let mut root = StateDict::new();
    root.insert("scale".to_string(), ValueCell::new(1i64));
    root.append_child("0".to_string(), inner);
    let out = root.arc().to_map();
    assert_eq!(sorted_keys(&out), vec!["0.weight".to_string(), "scale".to_string()]);
    assert_eq!(out.get("0.weight").unwrap().get(), 2);
}

#[test]
fn cell_handles_share_one_value() {
    let a = ValueCell::new(3i64);
    let b = a.clone_handle();
    b.update(|v| v * 7);
    assert_eq!(a.get(), 21);
    a.copy_from(&ValueCell::new(5i64));
    assert_eq!(b.get(), 5);
    a.copy_from(&b);
    assert_eq!(a.get(), 5);
}

#[test]
fn flat_map_insert_replaces() {
    let mut m: FlatMap<i64> = FlatMap::new();
    m.insert("a".to_string(), 1);
    m.insert("b".to_string(), 2);
    m.insert("a".to_string(), 3);
    assert_eq!(m.len(), 2);
    assert_eq!(m.get("a"), Some(&3));
    assert_eq!(m.get("c"), None);
}

#[test]
fn render_is_independent_of_insertion_order() {
    let (m1, _) = flat(&[("b.y", 2), ("a", 1), ("b.x", 3), ("c", 4)]);
    let (m2, _) = flat(&[("c", 4), ("b.x", 3), ("a", 1), ("b.y", 2)]);
    let t1 = StateDict::from_map(m1);
    let t2 = StateDict::from_map(m2);
    let text = t1.arc().render();
    assert_eq!(text, t2.arc().render());
    assert_eq!(text, "a: 1\nb:\nx: 3\ny: 2\nc: 4\n");
}

#[test]
fn render_order_sorts_names() {
    let mut root = StateDict::new();
    for name in ["weight", "bias", "alpha", "Beta"] {
        root.insert(name.to_string(), ValueCell::new(0i64));
    }
    assert_eq!(root.arc().render_order(), vec![3, 2, 1, 0]);
    assert_eq!(root.arc().names(), vec!["weight", "bias", "alpha", "Beta"]);
}

#[test]
fn stored_nodes_link_to_their_parents() {
    let (m, _) = flat(&[("a.b.c", 1)]);
    let tree = StateDict::from_map(m);
    let a = match &tree.arc().parameters()[0].1 {
        StateValue::ChildStateDict(a) => a,
        _ => panic!("expected a nested tree"),
    };
    assert_eq!(a.arc().parent.as_deref(), Some("root"));
    assert_eq!(a.arc().path(), "root.a");
    let b = match &a.arc().parameters()[0].1 {
        StateValue::ChildStateDict(b) => b,
        _ => panic!("expected a nested tree"),
    };
    assert_eq!(b.arc().parent.as_deref(), Some("root.a"));
    assert_eq!(b.arc().path(), "root.a.b");
    let mut outer = StateDict::new();
    outer.append_child("m".to_string(), tree);
    let text = outer.arc().to_map();
    assert_eq!(sorted_keys(&text), vec!["m.a.b.c".to_string()]);
    let moved = outer.arc().child_state_dict("m".to_string()).ok().unwrap();
    let a = moved.arc().child_state_dict("a".to_string()).ok().unwrap();
    assert_eq!(a.arc().path(), "root.m.a");
}
