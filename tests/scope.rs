use tea::scope::Scope;
use tea::values::{SpecificValue, TeaNumber, TeaStr, Value};

#[test]
fn stack_is_last_in_first_out() {
    let mut s = Scope::new(None);
    assert!(s.pop().is_none());
    s.push(&Value::new(vec![1]));
    s.push(&Value::new(vec![2]));
    assert_eq!(s.pop().unwrap().data, vec![2]);
    assert_eq!(s.pop().unwrap().data, vec![1]);
    assert!(s.pop().is_none());
}

#[test]
fn root_write_is_seen_by_a_sibling() {
    let parent = Scope::new_global();
    let mut c1 = Scope::new(Some(Box::new(parent)));
    let v = TeaStr("kept".to_string()).to_value();
    c1.set_var(&7, &v);
    assert_eq!(c1.get_var(&7).unwrap().data, b"kept".to_vec());
    let parent = c1.into_parent().unwrap();
    assert_eq!(parent.get_var(&7).unwrap().data, b"kept".to_vec());
    let c2 = Scope::new(Some(Box::new(parent)));
    assert_eq!(c2.get_var(&7).unwrap().data, b"kept".to_vec());
}

#[test]
fn missing_variable_is_none() {
    let child = Scope::new(Some(Box::new(Scope::new(None))));
    assert!(child.get_var(&3).is_none());
    assert!(child.into_parent().unwrap().into_parent().is_none());
}

#[test]
fn global_scope_holds_io_and_math() {
    let g = Scope::new_global();
    let io = g.get_var(&0).unwrap().as_tea_object().ok().unwrap();
    assert_eq!(io.get(b"stdout").unwrap().data, 0.0f64.to_be_bytes().to_vec());
    assert_eq!(io.get(b"stdin").unwrap().data, 1.0f64.to_be_bytes().to_vec());
    let math = g.get_var(&1).unwrap().as_tea_object().ok().unwrap();
    assert_eq!(math.get(b"pi").unwrap().data, std::f64::consts::PI.to_be_bytes().to_vec());
    assert_eq!(math.get(b"tau").unwrap().data, std::f64::consts::TAU.to_be_bytes().to_vec());
    assert_eq!(math.entries[0].flags, 2);
    assert!(g.get_var(&2).is_none());
}

#[test]
fn overwrite_replaces_the_value() {
    let mut g = Scope::new(None);
    g.set_var(&1, &TeaNumber(1.0f64.to_be_bytes()).to_value());
    g.set_var(&1, &TeaNumber(2.0f64.to_be_bytes()).to_value());
    assert_eq!(g.get_var(&1).unwrap().data, 2.0f64.to_be_bytes().to_vec());
}

#[test]
fn descriptors_are_local() {
    let mut g = Scope::new(None);
    g.add_fd(&5, &"out.txt".to_string());
    assert_eq!(g.fd_path(&5).unwrap(), "out.txt");
    let mut child = Scope::new(Some(Box::new(g)));
    assert!(child.fd_path(&5).is_none());
    child.enter_child();
    assert!(child.leave_child());
    let g = child.into_parent().unwrap();
    assert_eq!(g.fd_path(&5).unwrap(), "out.txt");
}

#[test]
fn pop_gives_back_the_declared_length() {
    let mut s = Scope::new(None);
    let v = Value::new(vec![4, 5, 6]);
    s.push(&v);
    let w = s.pop().unwrap();
    assert_eq!(w.data, v.data);
    assert_eq!(w.data_len, 3);
    s.set_var(&2, &v);
    assert_eq!(s.get_var(&2).unwrap().data_len, 3);
}
