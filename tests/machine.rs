use tea::errors::RuntimeError;
use tea::machine::{combine_u8_to_u32, Action, ArithOp, CompareOp, Machine};
use tea::opcodes;
use tea::scope::Scope;
use tea::values::{SpecificValue, TeaBool, TeaNumber, TeaStr, Value};

fn push_payload(code: &mut Vec<u8>, payload: &[u8]) {
    code.push(opcodes::PUSH);
    code.extend_from_slice(&(payload.len() as u16).to_be_bytes());
    code.extend_from_slice(payload);
}

fn push_number(code: &mut Vec<u8>, x: f64) {
    push_payload(code, &x.to_be_bytes());
}

fn with_id(code: &mut Vec<u8>, op: u8, id: u32) {
    code.push(op);
    code.extend_from_slice(&id.to_be_bytes());
}

/// A function value as the decoder reads it: one byte, the code length,
/// then the code.
fn push_function(code: &mut Vec<u8>, body: &[u8]) {
    let mut payload = vec![0u8];
    payload.extend_from_slice(&(body.len() as u16).to_be_bytes());
    payload.extend_from_slice(body);
    push_payload(code, &payload);
}

fn num(n: &TeaNumber) -> f64 {
    f64::from_be_bytes(n.0)
}

/// Runs a program to its end as a host would, collecting what it prints
/// and writes to standard output.
fn run(m: &mut Machine) -> Result<Vec<String>, RuntimeError> {
    let mut out = Vec::new();
    loop {
        match m.step()? {
            Action::Continue => {}
            Action::Halt => return Ok(out),
            Action::Print(v) => out.push(format!("{:?}", v.map(|v| v.data))),
            Action::Arithmetic(op, l, r) => {
                let (a, b) = (num(&l), num(&r));
                let x = match op {
                    ArithOp::Add => a + b,
                    ArithOp::Sub => a - b,
                    ArithOp::Mul => a * b,
                    ArithOp::Div => a / b,
                    ArithOp::Rem => a % b,
                    ArithOp::Pow => a.powf(b),
                };
                m.give_number(&TeaNumber(x.to_be_bytes()));
            }
            Action::Compare(op, l, r) => {
                let t = match op {
                    CompareOp::Greater => num(&l) > num(&r),
                    CompareOp::Less => num(&l) < num(&r),
                };
                m.give_truth(t);
            }
            Action::Repeat(text, n) => m.give_repeat(&text, num(&n) as usize)?,
            Action::Write(fd, text) => match m.route_write(num(&fd) as u32, &text)? {
                Action::WriteStdout(s) => out.push(s),
                _ => panic!("unexpected file write"),
            },
            _ => panic!("unexpected action"),
        }
    }
}

#[test]
fn add_then_print() {
    let mut code = Vec::new();
    push_number(&mut code, 2.0);
    push_number(&mut code, 3.0);
    code.push(opcodes::NADD);
    code.push(opcodes::PRINT);
    let mut m = Machine::new(code, Scope::new_global());
    let out = run(&mut m).unwrap();
    assert_eq!(out, vec![format!("{:?}", Some(5.0f64.to_be_bytes().to_vec()))]);
    assert!(m.scope().get_var(&0).is_some());
    let mut probe = Machine::new(vec![opcodes::PRINT], Scope::new(None));
    assert!(matches!(probe.step(), Ok(Action::Print(None))));
}

#[test]
fn add_leaves_the_stack_empty() {
    let mut code = Vec::new();
    push_number(&mut code, 2.0);
    push_number(&mut code, 3.0);
    code.push(opcodes::NADD);
    code.push(opcodes::PRINT);
    code.push(opcodes::PRINT);
    let mut m = Machine::new(code, Scope::new(None));
    let out = run(&mut m).unwrap();
    assert_eq!(out[1], "None");
}

#[test]
fn repeat_then_write_to_stdout() {
    let mut code = Vec::new();
    push_number(&mut code, 0.0);
    push_payload(&mut code, b"ab");
    push_number(&mut code, 3.0);
    code.push(opcodes::SMUL);
    code.push(opcodes::WRITE);
    let mut m = Machine::new(code, Scope::new_global());
    assert_eq!(run(&mut m).unwrap(), vec!["ababab".to_string()]);
}

#[test]
fn store_in_one_call_load_in_another() {
    let mut store = Vec::new();
    push_number(&mut store, 42.0);
    with_id(&mut store, opcodes::STORE, 7);
    let mut load = Vec::new();
    with_id(&mut load, opcodes::LOAD, 7);
    load.push(opcodes::PRINT);
    let mut code = Vec::new();
    push_function(&mut code, &store);
    code.push(opcodes::CALL);
    push_function(&mut code, &load);
    code.push(opcodes::CALL);
    let mut m = Machine::new(code, Scope::new_global());
    let out = run(&mut m).unwrap();
    assert_eq!(out, vec![format!("{:?}", Some(42.0f64.to_be_bytes().to_vec()))]);
    assert_eq!(m.scope().get_var(&7).unwrap().data, 42.0f64.to_be_bytes().to_vec());
}

#[test]
fn forward_jump_does_not_resolve() {
    let mut code = Vec::new();
    with_id(&mut code, opcodes::GOTO, 1);
    with_id(&mut code, opcodes::MARKER, 1);
    let mut m = Machine::new(code, Scope::new(None));
    assert!(matches!(m.step(), Err(RuntimeError::NoValue(_))));
}

#[test]
fn backward_jump_lands_after_the_marker() {
    let mut code = Vec::new();
    push_payload(&mut code, &[1]);
    with_id(&mut code, opcodes::STORE, 5);
    with_id(&mut code, opcodes::MARKER, 1);
    push_payload(&mut code, b"x");
    code.push(opcodes::PRINT);
    with_id(&mut code, opcodes::LOAD, 5);
    push_payload(&mut code, &[0]);
    with_id(&mut code, opcodes::STORE, 5);
    with_id(&mut code, opcodes::GOTO_IF, 1);
    let mut m = Machine::new(code, Scope::new(None));
    let out = run(&mut m).unwrap();
    assert_eq!(out.len(), 2);
}

#[test]
fn equality_is_untyped() {
    let mut code = Vec::new();
    push_number(&mut code, 0.0);
    push_payload(&mut code, &TeaBool(false).to_value().data);
    code.push(opcodes::EQ);
    code.push(opcodes::PRINT);
    push_payload(&mut code, &[0]);
    push_payload(&mut code, &TeaBool(false).to_value().data);
    code.push(opcodes::EQ);
    code.push(opcodes::PRINT);
    let mut m = Machine::new(code, Scope::new(None));
    let out = run(&mut m).unwrap();
    assert_eq!(out, vec![format!("{:?}", Some(vec![0u8])), format!("{:?}", Some(vec![1u8]))]);
}

#[test]
fn division_by_zero_is_no_error() {
    let mut code = Vec::new();
    push_number(&mut code, 1.0);
    push_number(&mut code, 0.0);
    code.push(opcodes::NDIV);
    let mut m = Machine::new(code, Scope::new(None));
    m.step().unwrap();
    m.step().unwrap();
    match m.step() {
        Ok(Action::Arithmetic(ArithOp::Div, l, r)) => {
            assert_eq!(num(&l), 1.0);
            assert_eq!(num(&r), 0.0);
            assert!((num(&l) / num(&r)).is_infinite());
        }
        _ => panic!("expected a division"),
    }
}

#[test]
fn arithmetic_results() {
    let cases = [
        (opcodes::NSUB, 7.0, 2.0, 5.0f64),
        (opcodes::NMUL, 7.0, 2.0, 14.0),
        (opcodes::NMOD, 7.0, 2.0, 1.0),
        (opcodes::NPOW, 2.0, 10.0, 1024.0),
    ];
    for (op, a, b, want) in cases {
        let mut code = Vec::new();
        push_number(&mut code, a);
        push_number(&mut code, b);
        code.push(op);
        code.push(opcodes::PRINT);
        let mut m = Machine::new(code, Scope::new(None));
        assert_eq!(run(&mut m).unwrap(), vec![format!("{:?}", Some(want.to_be_bytes().to_vec()))]);
    }
}

#[test]
fn comparisons() {
    let mut code = Vec::new();
    push_number(&mut code, 3.0);
    push_number(&mut code, 2.0);
    code.push(opcodes::NGT);
    code.push(opcodes::PRINT);
    push_number(&mut code, 3.0);
    push_number(&mut code, 2.0);
    code.push(opcodes::NLT);
    code.push(opcodes::PRINT);
    let mut m = Machine::new(code, Scope::new(None));
    let out = run(&mut m).unwrap();
    assert_eq!(out, vec![format!("{:?}", Some(vec![1u8])), format!("{:?}", Some(vec![0u8]))]);
}

#[test]
fn get_reads_a_key_from_the_code() {
    let mut code = Vec::new();
    with_id(&mut code, opcodes::LOAD, 1);
    code.push(opcodes::GET);
    code.push(2);
    code.extend_from_slice(b"pi");
    code.push(opcodes::PRINT);
    let mut m = Machine::new(code, Scope::new_global());
    let out = run(&mut m).unwrap();
    assert_eq!(out, vec![format!("{:?}", Some(std::f64::consts::PI.to_be_bytes().to_vec()))]);
}

#[test]
fn get_of_a_missing_key_fails() {
    let mut code = Vec::new();
    with_id(&mut code, opcodes::LOAD, 0);
    code.push(opcodes::GET);
    code.push(1);
    code.push(b'z');
    let mut m = Machine::new(code, Scope::new_global());
    assert!(matches!(run(&mut m), Err(RuntimeError::NoValue(_))));
}

#[test]
fn missing_variable_fails() {
    let mut code = Vec::new();
    with_id(&mut code, opcodes::LOAD, 9);
    let mut m = Machine::new(code, Scope::new(None));
    assert!(matches!(m.step(), Err(RuntimeError::NoValue(_))));
}

#[test]
fn empty_stack_fails() {
    let mut m = Machine::new(vec![opcodes::NADD], Scope::new(None));
    assert!(matches!(m.step(), Err(RuntimeError::NoValue(_))));
}

#[test]
fn wrong_view_fails() {
    let mut code = Vec::new();
    push_payload(&mut code, b"abc");
    push_number(&mut code, 1.0);
    code.push(opcodes::NADD);
    let mut m = Machine::new(code, Scope::new(None));
    assert!(matches!(run(&mut m), Err(RuntimeError::CannotConstruct(_))));
}

#[test]
fn truncated_push_fails() {
    let mut m = Machine::new(vec![opcodes::PUSH, 0, 5, 1], Scope::new(None));
    assert!(matches!(m.step(), Err(RuntimeError::NoValue(_))));
}

#[test]
fn unknown_and_reserved_bytes_are_skipped() {
    let mut m = Machine::new(vec![opcodes::RET, 200, opcodes::PRINT], Scope::new(None));
    assert!(matches!(m.step(), Ok(Action::Continue)));
    assert!(matches!(m.step(), Ok(Action::Continue)));
    assert!(matches!(m.step(), Ok(Action::Print(None))));
    assert!(matches!(m.step(), Ok(Action::Halt)));
}

#[test]
fn writing_stdin_is_not_allowed() {
    let m = Machine::new(vec![], Scope::new(None));
    let text = TeaStr("x".to_string());
    assert!(matches!(m.route_write(1, &text), Err(RuntimeError::NotAllowed(_))));
    match m.route_write(4, &text) {
        Err(RuntimeError::FileError(None, message)) => assert_eq!(message, "could not find file at fd 4"),
        _ => panic!("expected a file error"),
    }
    match m.route_read(1234567) {
        Err(RuntimeError::FileError(None, message)) => assert_eq!(message, "could not find file at fd 1234567"),
        _ => panic!("expected a file error"),
    }
    match m.route_read(10) {
        Err(RuntimeError::FileError(None, message)) => assert_eq!(message, "could not find file at fd 10"),
        _ => panic!("expected a file error"),
    }
    assert!(matches!(m.route_read(0), Err(RuntimeError::NotAllowed(_))));
    assert!(matches!(m.route_read(1), Ok(Action::ReadLine)));
}

#[test]
fn registered_descriptors_route_to_files() {
    let mut s = Scope::new(None);
    s.add_fd(&4, &"log.txt".to_string());
    let m = Machine::new(vec![], s);
    match m.route_write(4, &TeaStr("hi".to_string())) {
        Ok(Action::WriteFile(path, bytes)) => {
            assert_eq!(path, "log.txt");
            assert_eq!(bytes, b"hi".to_vec());
        }
        _ => panic!("expected a file write"),
    }
    assert!(matches!(m.route_read(4), Ok(Action::ReadFile(p)) if p == "log.txt"));
}

#[test]
fn read_line_is_pushed_as_a_string() {
    let mut code = Vec::new();
    push_number(&mut code, 1.0);
    code.push(opcodes::READLN);
    code.push(opcodes::PRINT);
    let mut m = Machine::new(code, Scope::new(None));
    m.step().unwrap();
    let fd = match m.step() {
        Ok(Action::Read(fd)) => fd,
        _ => panic!("expected a read"),
    };
    assert!(matches!(m.route_read(num(&fd) as u32), Ok(Action::ReadLine)));
    m.give_line(&"hello\n".to_string()).unwrap();
    assert!(matches!(m.step(), Ok(Action::Print(Some(v))) if v.data == b"hello\n".to_vec()));
}

#[test]
fn too_long_repeat_is_refused() {
    let mut m = Machine::new(vec![], Scope::new(None));
    let text = Value::new(vec![b'a'; 1000]);
    assert!(m.give_repeat(&text, 66).is_err());
    assert!(m.give_repeat(&text, 65).is_ok());
    assert!(m.give_repeat(&Value::new(vec![]), usize::MAX).is_ok());
    assert!(m.give_repeat(&text, 0).is_ok());
}

#[test]
fn negative_count_repeats_nothing() {
    let mut code = Vec::new();
    push_number(&mut code, 0.0);
    push_payload(&mut code, b"ab");
    push_number(&mut code, -2.5);
    code.push(opcodes::SMUL);
    code.push(opcodes::WRITE);
    let mut m = Machine::new(code, Scope::new(None));
    assert_eq!(run(&mut m).unwrap(), vec![String::new()]);
}

#[test]
fn operands_are_big_endian() {
    assert_eq!(combine_u8_to_u32(&[0, 0, 1, 2], 0), Some(258));
    assert_eq!(combine_u8_to_u32(&[9, 0x12, 0x34, 0x56, 0x78], 1), Some(0x12345678));
    assert_eq!(combine_u8_to_u32(&[1, 2, 3], 0), None);
    assert_eq!(combine_u8_to_u32(&[1, 2, 3, 4], 4), None);
}

#[test]
fn load_of_an_unbound_id_fails_with_no_value() {
    let mut code = Vec::new();
    with_id(&mut code, opcodes::LOAD, 42);
    let mut m = Machine::new(code, Scope::new_global());
    assert!(matches!(m.step(), Err(RuntimeError::NoValue(_))));
}
