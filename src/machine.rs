//! The dispatch of instructions as a step machine. Each step carries out
//! one instruction; what needs the outside world (streams, files, the
//! arithmetic of doubles) comes back as an action that the host performs,
//! handing any result back through one of the `give_` methods.
use vstd::prelude::*;
use vstd::string::*;
use vstd::utf8::*;
use std::collections::HashMap;
use crate::errors::{RuntimeError, missing_fd_message};
use crate::opcodes;
use crate::scope::{Frame, Scope, empty_frame, lookup, set_root, with_stack};
use crate::values::{
    SpecificValue, TeaBool, TeaNumber, TeaStr, Value, bool_payload, bool_view, function_view,
    lookup_entry, number_view, object_view, same_bytes, string_view, unframe,
};

verus! {

broadcast use vstd::std_specs::hash::group_hash_axioms;

/// The big-endian 32-bit number in the four bytes of `b` from `at`.
pub open spec fn be32_at(b: Seq<u8>, at: int) -> Option<u32> {
    if 0 <= at && at + 4 <= b.len() {
        Some(
            (b[at] as int * 0x1000000 + b[at + 1] as int * 0x10000 + b[at + 2] as int * 0x100
                + b[at + 3] as int) as u32,
        )
    } else {
        None
    }
}

/// Reads the big-endian 32-bit number at `offset`; `None` where fewer
/// than four bytes are left.
pub fn combine_u8_to_u32(bytes: &[u8], offset: usize) -> (r: Option<u32>)
    ensures
        r == be32_at(bytes@, offset as int),
{
    if offset >= bytes.len() || bytes.len() - offset < 4 {
        return None;
    }
    let b0 = bytes[offset] as u32;
    let b1 = bytes[offset + 1] as u32;
    let b2 = bytes[offset + 2] as u32;
    let b3 = bytes[offset + 3] as u32;
    assert(b0 * 0x1000000 + b1 * 0x10000 + b2 * 0x100 + b3 <= 0xffffffff) by (nonlinear_arith)
        requires
            b0 < 256,
            b1 < 256,
            b2 < 256,
            b3 < 256,
    ;
    Some(b0 * 0x1000000 + b1 * 0x10000 + b2 * 0x100 + b3)
}

/// An arithmetic operation on two Numbers.
#[derive(Debug, Clone, Copy, PartialEq, Eq)]
pub enum ArithOp {
    Add,
    Sub,
    Mul,
    Div,
    Rem,
    Pow,
}

/// A numeric comparison of two Numbers.
#[derive(Debug, Clone, Copy, PartialEq, Eq)]
pub enum CompareOp {
    Greater,
    Less,
}

pub open spec fn arith_op_of(op: u8) -> Option<ArithOp> {
    if op == opcodes::NADD {
        Some(ArithOp::Add)
    } else if op == opcodes::NSUB {
        Some(ArithOp::Sub)
    } else if op == opcodes::NMUL {
        Some(ArithOp::Mul)
    } else if op == opcodes::NDIV {
        Some(ArithOp::Div)
    } else if op == opcodes::NMOD {
        Some(ArithOp::Rem)
    } else if op == opcodes::NPOW {
        Some(ArithOp::Pow)
    } else {
        None
    }
}

pub open spec fn compare_op_of(op: u8) -> Option<CompareOp> {
    if op == opcodes::NGT {
        Some(CompareOp::Greater)
    } else if op == opcodes::NLT {
        Some(CompareOp::Less)
    } else {
        None
    }
}

/// What the host is to do after a step.
#[derive(Debug, Clone)]
pub enum Action {
    /// Nothing: the instruction was carried out in full.
    Continue,
    /// The program has run to its end.
    Halt,
    /// Print a debug rendering of the value taken off the stack, or of its
    /// absence.
    Print(Option<Value>),
    /// Compute the operation on the left and right Numbers as doubles and
    /// hand the result to `give_number`.
    Arithmetic(ArithOp, TeaNumber, TeaNumber),
    /// Compare the left and right Numbers as doubles and hand the outcome
    /// to `give_truth`.
    Compare(CompareOp, TeaNumber, TeaNumber),
    /// Truncate the Number toward zero to a count (negative and NaN give
    /// zero, too large gives the largest count) and hand it with the text
    /// to `give_repeat`.
    Repeat(Value, TeaNumber),
    /// Convert the Number to a file descriptor as `Repeat` does and hand it
    /// with the text to `route_write`.
    Write(TeaNumber, TeaStr),
    /// Convert the Number to a file descriptor and hand it to `route_read`.
    Read(TeaNumber),
    /// Write the text to standard output.
    WriteStdout(String),
    /// Write the bytes to the file at the path, which must not exist yet.
    WriteFile(String, Vec<u8>),
    /// Read a line from standard input and hand it to `give_line`.
    ReadLine,
    /// Read the whole file at the path; nothing is pushed.
    ReadFile(String),
}

/// One running invocation as plain values.
pub struct InvocationView {
    pub code: Seq<u8>,
    pub pc: int,
    pub labels: Map<u32, int>,
}

/// The machine as plain values.
pub struct MachineView {
    /// The innermost invocation.
    pub current: InvocationView,
    /// The invocations waiting for a call to end, outermost first.
    pub callers: Seq<InvocationView>,
    /// The scope chain of the innermost invocation.
    pub chain: Seq<Frame>,
}

pub open spec fn with_pc(m: MachineView, pc: int) -> MachineView {
    MachineView {
        current: InvocationView { code: m.current.code, pc, labels: m.current.labels },
        callers: m.callers,
        chain: m.chain,
    }
}

/// The machine with the current stack replaced and the pc moved on by `n`.
pub open spec fn stack_then(m: MachineView, stack: Seq<Seq<u8>>, n: int) -> MachineView {
    MachineView {
        current: InvocationView { code: m.current.code, pc: m.current.pc + n, labels: m.current.labels },
        callers: m.callers,
        chain: m.chain.update(0, with_stack(m.chain[0], stack)),
    }
}

pub open spec fn stack_of(m: MachineView) -> Seq<Seq<u8>> {
    m.chain[0].stack
}

/// The code after the current instruction byte.
pub open spec fn operand_bytes(m: MachineView) -> Seq<u8> {
    m.current.code.subrange(m.current.pc + 1, m.current.code.len() as int)
}

/// The 32-bit operand of the current instruction.
pub open spec fn operand_u32(m: MachineView) -> Option<u32> {
    be32_at(m.current.code, m.current.pc + 1)
}

pub open spec fn continues(r: Result<Action, RuntimeError>) -> bool {
    r matches Ok(a) && a is Continue
}

/// A failure for want of a stack value, variable, operand, label or key.
pub open spec fn lacks<T>(r: Result<T, RuntimeError>) -> bool {
    r matches Err(e) && e is NoValue
}

/// A failure because bytes do not have the shape of the view asked for.
pub open spec fn misshapen<T>(r: Result<T, RuntimeError>) -> bool {
    r matches Err(e) && e is CannotConstruct
}

/// How taking one value of a view off the stack `s` fails, where it does.
pub open spec fn one_take_fails<T>(s: Seq<Seq<u8>>, r: Result<T, RuntimeError>) -> bool {
    if s.len() == 0 {
        lacks(r)
    } else {
        misshapen(r)
    }
}

/// How taking the top, then the next value of the stack `s` fails, each
/// read in its own view: whichever comes first of an empty stack or a
/// value of the wrong shape.
pub open spec fn two_takes_fail<T>(
    s: Seq<Seq<u8>>,
    top_fits: bool,
    r: Result<T, RuntimeError>,
) -> bool {
    if s.len() == 0 {
        lacks(r)
    } else if !top_fits {
        misshapen(r)
    } else if s.len() == 1 {
        lacks(r)
    } else {
        misshapen(r)
    }
}

/// The machine with the current stack replaced and the scope chain then
/// written at its root.
pub open spec fn store_then(m: MachineView, stack: Seq<Seq<u8>>, idx: u32, v: Seq<u8>) -> MachineView {
    MachineView {
        current: InvocationView { code: m.current.code, pc: m.current.pc + 5, labels: m.current.labels },
        callers: m.callers,
        chain: set_root(m.chain.update(0, with_stack(m.chain[0], stack)), idx, v),
    }
}

/// The end of the innermost code: the run halts, or the call returns to
/// its caller, whose scope becomes current again.
pub open spec fn end_post(o: MachineView, n: MachineView, r: Result<Action, RuntimeError>) -> bool {
    if o.callers.len() == 0 {
        (r matches Ok(a) && a is Halt) && n == o
    } else {
        continues(r) && n == MachineView {
            current: o.callers.last(),
            callers: o.callers.drop_last(),
            chain: o.chain.drop_first(),
        }
    }
}

pub open spec fn push_post(o: MachineView, n: MachineView, r: Result<Action, RuntimeError>) -> bool {
    match unframe(operand_bytes(o)) {
        Some(p) => continues(r) && n == stack_then(o, stack_of(o).push(p), 3 + p.len() as int),
        None => lacks(r),
    }
}

pub open spec fn store_post(o: MachineView, n: MachineView, r: Result<Action, RuntimeError>) -> bool {
    if stack_of(o).len() == 0 || operand_u32(o) is None {
        lacks(r)
    } else {
        continues(r) && n == store_then(
            o,
            stack_of(o).drop_last(),
            operand_u32(o).unwrap(),
            stack_of(o).last(),
        )
    }
}

pub open spec fn load_post(o: MachineView, n: MachineView, r: Result<Action, RuntimeError>) -> bool {
    match operand_u32(o) {
        None => lacks(r),
        Some(idx) => match lookup(o.chain, idx) {
            None => lacks(r),
            Some(v) => continues(r) && n == stack_then(o, stack_of(o).push(v), 5),
        },
    }
}

/// The two topmost payloads read as Numbers, left below right.
pub open spec fn two_numbers(o: MachineView) -> Option<(Seq<u8>, Seq<u8>)> {
    let s = stack_of(o);
    if s.len() >= 2 && number_view(s[s.len() - 2]) is Some && number_view(s.last()) is Some {
        Some((s[s.len() - 2], s.last()))
    } else {
        None
    }
}

pub open spec fn arith_post(
    o: MachineView,
    n: MachineView,
    r: Result<Action, RuntimeError>,
    op: ArithOp,
) -> bool {
    match two_numbers(o) {
        None => two_takes_fail(stack_of(o), number_view(stack_of(o).last()) is Some, r),
        Some((left, right)) => (r matches Ok(Action::Arithmetic(a, x, y)) && a == op && x.0@ == left
            && y.0@ == right) && n == stack_then(o, stack_of(o).drop_last().drop_last(), 1),
    }
}

pub open spec fn compare_post(
    o: MachineView,
    n: MachineView,
    r: Result<Action, RuntimeError>,
    op: CompareOp,
) -> bool {
    match two_numbers(o) {
        None => two_takes_fail(stack_of(o), number_view(stack_of(o).last()) is Some, r),
        Some((left, right)) => (r matches Ok(Action::Compare(a, x, y)) && a == op && x.0@ == left
            && y.0@ == right) && n == stack_then(o, stack_of(o).drop_last().drop_last(), 1),
    }
}

pub open spec fn repeat_post(o: MachineView, n: MachineView, r: Result<Action, RuntimeError>) -> bool {
    let s = stack_of(o);
    if s.len() >= 2 && number_view(s.last()) is Some && string_view(s[s.len() - 2]) is Some {
        (r matches Ok(Action::Repeat(text, count)) && text@ == s[s.len() - 2] && count.0@ == s.last())
            && n == stack_then(o, s.drop_last().drop_last(), 1)
    } else {
        two_takes_fail(s, number_view(s.last()) is Some, r)
    }
}

pub open spec fn call_post(o: MachineView, n: MachineView, r: Result<Action, RuntimeError>) -> bool {
    let s = stack_of(o);
    if s.len() >= 1 && function_view(s.last()) is Some {
        continues(r) && n == MachineView {
            current: InvocationView {
                code: function_view(s.last()).unwrap(),
                pc: 0,
                labels: Map::empty(),
            },
            callers: o.callers.push(with_pc(o, o.current.pc + 1).current),
            chain: seq![empty_frame()] + o.chain.update(0, with_stack(o.chain[0], s.drop_last())),
        }
    } else {
        one_take_fails(s, r)
    }
}

/// The inline key of a GET: its one-byte length, then its bytes.
pub open spec fn get_key(o: MachineView) -> Option<Seq<u8>> {
    let c = o.current.code;
    let at = o.current.pc + 1;
    if at < c.len() && at + 1 + c[at] <= c.len() {
        Some(c.subrange(at + 1, at + 1 + c[at]))
    } else {
        None
    }
}

pub open spec fn get_post(o: MachineView, n: MachineView, r: Result<Action, RuntimeError>) -> bool {
    let s = stack_of(o);
    if s.len() >= 1 && object_view(s.last()) is Some && get_key(o) is Some && lookup_entry(
        object_view(s.last()).unwrap(),
        get_key(o).unwrap(),
    ) is Some {
        continues(r) && n == stack_then(
            o,
            s.drop_last().push(
                lookup_entry(object_view(s.last()).unwrap(), get_key(o).unwrap()).unwrap().0,
            ),
            2 + get_key(o).unwrap().len() as int,
        )
    } else if s.len() == 0 {
        lacks(r)
    } else if object_view(s.last()) is None {
        misshapen(r)
    } else {
        lacks(r)
    }
}

pub open spec fn write_post(o: MachineView, n: MachineView, r: Result<Action, RuntimeError>) -> bool {
    let s = stack_of(o);
    if s.len() >= 2 && string_view(s.last()) is Some && number_view(s[s.len() - 2]) is Some {
        (r matches Ok(Action::Write(fd, text)) && fd.0@ == s[s.len() - 2] && string_view(s.last())
            == Some(text.0@)) && n == stack_then(o, s.drop_last().drop_last(), 1)
    } else {
        two_takes_fail(s, string_view(s.last()) is Some, r)
    }
}

pub open spec fn read_post(o: MachineView, n: MachineView, r: Result<Action, RuntimeError>) -> bool {
    let s = stack_of(o);
    if s.len() >= 1 && number_view(s.last()) is Some {
        (r matches Ok(Action::Read(fd)) && fd.0@ == s.last()) && n == stack_then(o, s.drop_last(), 1)
    } else {
        one_take_fails(s, r)
    }
}

pub open spec fn marker_post(o: MachineView, n: MachineView, r: Result<Action, RuntimeError>) -> bool {
    match operand_u32(o) {
        None => lacks(r),
        Some(idx) => continues(r) && n == MachineView {
            current: InvocationView {
                code: o.current.code,
                pc: o.current.pc + 5,
                labels: o.current.labels.insert(idx, o.current.pc + 5),
            },
            callers: o.callers,
            chain: o.chain,
        },
    }
}

/// A jump to a label that a marker of this invocation has recorded; a
/// label not recorded yet does not resolve.
pub open spec fn goto_post(o: MachineView, n: MachineView, r: Result<Action, RuntimeError>) -> bool {
    match operand_u32(o) {
        Some(idx) => if o.current.labels.contains_key(idx) {
            continues(r) && n == with_pc(o, o.current.labels[idx])
        } else {
            lacks(r)
        },
        None => lacks(r),
    }
}

pub open spec fn goto_if_post(o: MachineView, n: MachineView, r: Result<Action, RuntimeError>) -> bool {
    let s = stack_of(o);
    if s.len() >= 1 && bool_view(s.last()) is Some && operand_u32(o) is Some {
        let popped = stack_then(o, s.drop_last(), 0);
        let idx = operand_u32(o).unwrap();
        if bool_view(s.last()) == Some(true) {
            if o.current.labels.contains_key(idx) {
                continues(r) && n == with_pc(popped, o.current.labels[idx])
            } else {
                lacks(r)
            }
        } else {
            continues(r) && n == stack_then(o, s.drop_last(), 5)
        }
    } else if s.len() == 0 {
        lacks(r)
    } else if bool_view(s.last()) is None {
        misshapen(r)
    } else {
        lacks(r)
    }
}

pub open spec fn eq_post(o: MachineView, n: MachineView, r: Result<Action, RuntimeError>) -> bool {
    let s = stack_of(o);
    if s.len() >= 2 {
        continues(r) && n == stack_then(
            o,
            s.drop_last().drop_last().push(bool_payload(s[s.len() - 2] == s.last())),
            1,
        )
    } else {
        lacks(r)
    }
}

pub open spec fn print_post(o: MachineView, n: MachineView, r: Result<Action, RuntimeError>) -> bool {
    let s = stack_of(o);
    if s.len() == 0 {
        (r matches Ok(Action::Print(v)) && v is None) && n == with_pc(o, o.current.pc + 1)
    } else {
        (r matches Ok(Action::Print(v)) && v matches Some(x) && x@ == s.last()) && n == stack_then(
            o,
            s.drop_last(),
            1,
        )
    }
}

/// What one step does, by the instruction at the pc; a byte that is no
/// instruction, and RET, only move the pc on.
pub open spec fn step_post(o: MachineView, n: MachineView, r: Result<Action, RuntimeError>) -> bool {
    if o.current.pc >= o.current.code.len() {
        end_post(o, n, r)
    } else {
        let op = o.current.code[o.current.pc];
        if op == opcodes::PUSH {
            push_post(o, n, r)
        } else if op == opcodes::STORE {
            store_post(o, n, r)
        } else if op == opcodes::LOAD {
            load_post(o, n, r)
        } else if arith_op_of(op) is Some {
            arith_post(o, n, r, arith_op_of(op).unwrap())
        } else if compare_op_of(op) is Some {
            compare_post(o, n, r, compare_op_of(op).unwrap())
        } else if op == opcodes::SMUL {
            repeat_post(o, n, r)
        } else if op == opcodes::CALL {
            call_post(o, n, r)
        } else if op == opcodes::GET {
            get_post(o, n, r)
        } else if op == opcodes::WRITE {
            write_post(o, n, r)
        } else if op == opcodes::READLN {
            read_post(o, n, r)
        } else if op == opcodes::MARKER {
            marker_post(o, n, r)
        } else if op == opcodes::GOTO {
            goto_post(o, n, r)
        } else if op == opcodes::GOTO_IF {
            goto_if_post(o, n, r)
        } else if op == opcodes::EQ {
            eq_post(o, n, r)
        } else if op == opcodes::PRINT {
            print_post(o, n, r)
        } else {
            continues(r) && n == with_pc(o, o.current.pc + 1)
        }
    }
}

proof fn lemma_stack_then_twice(m: MachineView, a: Seq<Seq<u8>>, b: Seq<Seq<u8>>, i: int, j: int)
    requires
        m.chain.len() >= 1,
    ensures
        stack_of(stack_then(m, a, i)) == a,
        stack_then(m, a, i).chain.len() == m.chain.len(),
        stack_then(stack_then(m, a, i), b, j) == stack_then(m, b, i + j),
{
    assert(stack_then(stack_then(m, a, i), b, j).chain =~= stack_then(m, b, i + j).chain);
}

proof fn lemma_with_pc(m: MachineView, n: int)
    requires
        m.chain.len() >= 1,
    ensures
        with_pc(m, m.current.pc + n) == stack_then(m, stack_of(m), n),
{
    assert(m.chain.update(0, with_stack(m.chain[0], m.chain[0].stack)) =~= m.chain);
}

/// `s` written `n` times over.
pub open spec fn repeat(s: Seq<u8>, n: nat) -> Seq<u8>
    decreases n,
{
    if n == 0 {
        seq![]
    } else {
        repeat(s, (n - 1) as nat) + s
    }
}

pub proof fn lemma_repeat_len(s: Seq<u8>, n: nat)
    ensures
        repeat(s, n).len() == n * s.len(),
    decreases n,
{
    if n > 0 {
        let m: nat = (n - 1) as nat;
        lemma_repeat_len(s, m);
        assert(repeat(s, n) == repeat(s, m) + s);
        assert(repeat(s, n).len() == repeat(s, m).len() + s.len());
        assert(m * s.len() + s.len() == n * s.len()) by (nonlinear_arith)
            requires
                m + 1 == n,
        ;
    } else {
        assert(repeat(s, n).len() == 0);
        assert(n * s.len() == 0);
    }
}

/// A jump to a label that no marker of the invocation has recorded yet, as
/// with a marker further on in the code, does not resolve.
pub proof fn law_forward_jump_fails(o: MachineView, n: MachineView, r: Result<Action, RuntimeError>)
    requires
        0 <= o.current.pc < o.current.code.len(),
        o.current.code[o.current.pc] == opcodes::GOTO,
        operand_u32(o) is Some,
        !o.current.labels.contains_key(operand_u32(o).unwrap()),
        step_post(o, n, r),
    ensures
        lacks(r),
{
}

/// After a marker has run, a jump to its label, from the same invocation,
/// lands just after the marker's 4-byte id.
pub proof fn law_backward_jump(
    o: MachineView,
    mid: MachineView,
    r1: Result<Action, RuntimeError>,
    n: MachineView,
    r2: Result<Action, RuntimeError>,
)
    requires
        0 <= o.current.pc < o.current.code.len(),
        o.current.code[o.current.pc] == opcodes::MARKER,
        step_post(o, mid, r1),
        r1 is Ok,
        0 <= mid.current.pc < mid.current.code.len(),
        mid.current.code[mid.current.pc] == opcodes::GOTO,
        operand_u32(mid) == operand_u32(o),
        step_post(mid, n, r2),
    ensures
        continues(r2),
        n.current.pc == o.current.pc + 5,
{
}

struct Invocation {
    code: Vec<u8>,
    /// The length of `code`.
    len: usize,
    pc: usize,
    labels: HashMap<u32, usize>,
}

impl View for Invocation {
    type V = InvocationView;

    closed spec fn view(&self) -> InvocationView {
        InvocationView {
            code: self.code@,
            pc: self.pc as int,
            labels: self.labels@.map_values(|a: usize| a as int),
        }
    }
}

impl Invocation {
    spec fn wf(&self) -> bool {
        &&& self.len == self.code@.len()
        &&& self.pc <= self.code@.len()
        &&& forall|k: u32| #[trigger] self.labels@.contains_key(k) ==> self.labels@[k] <= self.code@.len()
    }
}

/// An interpreter run: the innermost invocation, those waiting on it, and
/// the scope of the innermost one, which owns the scopes of the others.
pub struct Machine {
    current: Invocation,
    callers: Vec<Invocation>,
    scope: Scope,
    base: Ghost<nat>,
}

impl View for Machine {
    type V = MachineView;

    closed spec fn view(&self) -> MachineView {
        MachineView {
            current: self.current@,
            callers: self.callers@.map_values(|i: Invocation| i@),
            chain: self.scope.chain(),
        }
    }
}

impl Machine {
    /// Every invocation's pc and labels lie within its code, and each call
    /// waiting on another has a scope of its own in the chain.
    pub closed spec fn wf(&self) -> bool {
        &&& self.current.wf()
        &&& forall|k: int| 0 <= k < self.callers@.len() ==> (#[trigger] self.callers@[k]).wf()
        &&& self.base@ >= 1
        &&& self.scope.wf()
        &&& self.scope.chain().len() == self.base@ + self.callers@.len()
    }

    /// A run of `code` from its start against `scope`.
    pub fn new(code: Vec<u8>, scope: Scope) -> (r: Machine)
        requires
            scope.wf(),
        ensures
            r.wf(),
            r@.current.code == code@,
            r@.current.pc == 0,
            r@.current.labels == Map::<u32, int>::empty(),
            r@.callers.len() == 0,
            r@.chain == scope.chain(),
    {
        proof {
            scope.lemma_chain_len();
        }
        let r = Machine {
            current: Invocation { len: code.len(), code, pc: 0, labels: HashMap::new() },
            callers: Vec::new(),
            scope,
            base: Ghost(scope.chain().len()),
        };
        assert(r@.current.labels =~= Map::<u32, int>::empty());
        r
    }

    /// Takes the top of the current stack.
    fn take(&mut self, what: &str) -> (r: Result<Value, RuntimeError>)
        requires
            old(self).wf(),
        ensures
            final(self).wf(),
            stack_of(old(self)@).len() == 0 ==> lacks(r),
            stack_of(old(self)@).len() > 0 ==> (r matches Ok(v) && v@ == stack_of(old(self)@).last()
                && v.wf()),
            stack_of(old(self)@).len() > 0 ==> final(self)@ == stack_then(
                old(self)@,
                stack_of(old(self)@).drop_last(),
                0,
            ),
    {
        match self.scope.pop() {
            Some(v) => Ok(v),
            None => Err(RuntimeError::NoValue(String::from_str(what))),
        }
    }

    /// Puts a value on the current stack.
    fn give(&mut self, v: &Value)
        requires
            old(self).wf(),
            v.wf(),
        ensures
            final(self).wf(),
            final(self)@ == stack_then(old(self)@, stack_of(old(self)@).push(v@), 0),
    {
        self.scope.push(v);
    }

    /// Moves the pc on by `n`.
    fn advance(&mut self, n: usize)
        requires
            old(self).wf(),
            old(self)@.current.pc + n <= old(self)@.current.code.len(),
        ensures
            final(self).wf(),
            final(self)@ == with_pc(old(self)@, old(self)@.current.pc + n),
    {
        self.current.pc = self.current.pc + n;
    }

    /// Reads the 32-bit operand of the current instruction.
    fn operand(&self) -> (r: Option<u32>)
        requires
            self.wf(),
        ensures
            r == operand_u32(self@),
            r is Some ==> self@.current.pc + 5 <= self@.current.code.len(),
    {
        if self.current.pc >= self.current.code.len() {
            return None;
        }
        combine_u8_to_u32(self.current.code.as_slice(), self.current.pc + 1)
    }

    fn end_of_code(&mut self) -> (r: Result<Action, RuntimeError>)
        requires
            old(self).wf(),
        ensures
            final(self).wf(),
            end_post(old(self)@, final(self)@, r),
    {
        match self.callers.pop() {
            Some(inv) => {
                proof {
                    assert(self.callers@.len() + 1 == old(self).callers@.len());
                    assert(old(self).callers@.last() == inv);
                }
                self.current = inv;
                self.scope.leave_child();
                proof {
                    assert(self@.callers =~= old(self)@.callers.drop_last());
                }
                Ok(Action::Continue)
            },
            None => Ok(Action::Halt),
        }
    }

    fn exec_push(&mut self) -> (r: Result<Action, RuntimeError>)
        requires
            old(self).wf(),
            old(self)@.current.pc < old(self)@.current.code.len(),
        ensures
            r is Ok ==> final(self).wf(),
            push_post(old(self)@, final(self)@, r),
    {
        let at = self.current.pc + 1;
        let v = match Value::read_at(self.current.code.as_slice(), at) {
            Some(v) => v,
            None => {
                return Err(RuntimeError::NoValue(String::from_str("PUSH::operand")));
            },
        };
        self.give(&v);
        self.advance(3 + v.data.len());
        Ok(Action::Continue)
    }

    fn exec_store(&mut self) -> (r: Result<Action, RuntimeError>)
        requires
            old(self).wf(),
            old(self)@.current.pc < old(self)@.current.code.len(),
        ensures
            r is Ok ==> final(self).wf(),
            store_post(old(self)@, final(self)@, r),
    {
        let v = match self.take("Store::stack::value") {
            Ok(v) => v,
            Err(e) => {
                return Err(e);
            },
        };
        let idx = match self.operand() {
            Some(i) => i,
            None => {
                return Err(RuntimeError::NoValue(String::from_str("Store::operand")));
            },
        };
        self.scope.set_var(&idx, &v);
        self.advance(5);
        Ok(Action::Continue)
    }

    fn exec_load(&mut self) -> (r: Result<Action, RuntimeError>)
        requires
            old(self).wf(),
            old(self)@.current.pc < old(self)@.current.code.len(),
        ensures
            r is Ok ==> final(self).wf(),
            load_post(old(self)@, final(self)@, r),
    {
        let idx = match self.operand() {
            Some(i) => i,
            None => {
                return Err(RuntimeError::NoValue(String::from_str("Load::operand")));
            },
        };
        let v = match self.scope.get_var(&idx) {
            Some(v) => v,
            None => {
                return Err(RuntimeError::NoValue(String::from_str("Load::variable")));
            },
        };
        self.give(&v);
        self.advance(5);
        Ok(Action::Continue)
    }

    /// Takes the right, then the left Number off the stack.
    fn take_two_numbers(&mut self) -> (r: Result<(TeaNumber, TeaNumber), RuntimeError>)
        requires
            old(self).wf(),
            old(self)@.current.pc < old(self)@.current.code.len(),
        ensures
            r is Ok ==> final(self).wf(),
            two_numbers(old(self)@) is None ==> two_takes_fail(stack_of(old(self)@), number_view(stack_of(old(self)@).last()) is Some, r),
            two_numbers(old(self)@) matches Some((left, right)) ==> (r matches Ok((x, y)) && x.0@ == left
                && y.0@ == right) && final(self)@ == stack_then(
                old(self)@,
                stack_of(old(self)@).drop_last().drop_last(),
                0,
            ),
    {
        let right = match self.take("Number::stack::right") {
            Ok(v) => v,
            Err(e) => {
                return Err(e);
            },
        };
        let right = match right.as_tea_number() {
            Ok(n) => n,
            Err(e) => {
                return Err(RuntimeError::CannotConstruct(e));
            },
        };
        let left = match self.take("Number::stack::left") {
            Ok(v) => v,
            Err(e) => {
                return Err(e);
            },
        };
        let left = match left.as_tea_number() {
            Ok(n) => n,
            Err(e) => {
                return Err(RuntimeError::CannotConstruct(e));
            },
        };
        proof {
            let o = old(self)@;
            let s = stack_of(o);
            lemma_stack_then_twice(o, s.drop_last(), s.drop_last().drop_last(), 0, 0);
            assert(s.drop_last().last() == s[s.len() - 2]);
        }
        Ok((left, right))
    }

    fn exec_arith(&mut self, op: ArithOp) -> (r: Result<Action, RuntimeError>)
        requires
            old(self).wf(),
            old(self)@.current.pc < old(self)@.current.code.len(),
        ensures
            r is Ok ==> final(self).wf(),
            arith_post(old(self)@, final(self)@, r, op),
    {
        let (left, right) = match self.take_two_numbers() {
            Ok(v) => v,
            Err(e) => {
                return Err(e);
            },
        };
        self.advance(1);
        Ok(Action::Arithmetic(op, left, right))
    }

    fn exec_compare(&mut self, op: CompareOp) -> (r: Result<Action, RuntimeError>)
        requires
            old(self).wf(),
            old(self)@.current.pc < old(self)@.current.code.len(),
        ensures
            r is Ok ==> final(self).wf(),
            compare_post(old(self)@, final(self)@, r, op),
    {
        let (left, right) = match self.take_two_numbers() {
            Ok(v) => v,
            Err(e) => {
                return Err(e);
            },
        };
        self.advance(1);
        Ok(Action::Compare(op, left, right))
    }

    fn exec_eq(&mut self) -> (r: Result<Action, RuntimeError>)
        requires
            old(self).wf(),
            old(self)@.current.pc < old(self)@.current.code.len(),
        ensures
            r is Ok ==> final(self).wf(),
            eq_post(old(self)@, final(self)@, r),
    {
        let right = match self.take("EQ::stack::right") {
            Ok(v) => v,
            Err(e) => {
                return Err(e);
            },
        };
        let left = match self.take("EQ::stack::left") {
            Ok(v) => v,
            Err(e) => {
                return Err(e);
            },
        };
        let same = same_bytes(left.data.as_slice(), right.data.as_slice());
        let v = TeaBool(same).to_value();
        self.give(&v);
        let ghost before = self@;
        self.advance(1);
        proof {
            let o = old(self)@;
            let s = stack_of(o);
            let t = s.drop_last().drop_last().push(bool_payload(s[s.len() - 2] == s.last()));
            assert(s.drop_last().last() == s[s.len() - 2]);
            lemma_stack_then_twice(o, s.drop_last(), s.drop_last().drop_last(), 0, 0);
            lemma_stack_then_twice(o, s.drop_last().drop_last(), t, 0, 0);
            lemma_with_pc(before, 1);
            lemma_stack_then_twice(o, t, t, 0, 1);
        }
        Ok(Action::Continue)
    }

    fn exec_print(&mut self) -> (r: Result<Action, RuntimeError>)
        requires
            old(self).wf(),
            old(self)@.current.pc < old(self)@.current.code.len(),
        ensures
            r is Ok ==> final(self).wf(),
            print_post(old(self)@, final(self)@, r),
    {
        let v = self.scope.pop();
        self.advance(1);
        Ok(Action::Print(v))
    }

    fn exec_repeat(&mut self) -> (r: Result<Action, RuntimeError>)
        requires
            old(self).wf(),
            old(self)@.current.pc < old(self)@.current.code.len(),
        ensures
            r is Ok ==> final(self).wf(),
            repeat_post(old(self)@, final(self)@, r),
    {
        let right = match self.take("SMUL::stack::right") {
            Ok(v) => v,
            Err(e) => {
                return Err(e);
            },
        };
        let count = match right.as_tea_number() {
            Ok(n) => n,
            Err(e) => {
                return Err(RuntimeError::CannotConstruct(e));
            },
        };
        let left = match self.take("SMUL::stack::left") {
            Ok(v) => v,
            Err(e) => {
                return Err(e);
            },
        };
        if let Err(e) = left.as_tea_string() {
            return Err(RuntimeError::CannotConstruct(e));
        }
        let ghost before = self@;
        self.advance(1);
        proof {
            let o = old(self)@;
            let s = stack_of(o);
            assert(s.drop_last().last() == s[s.len() - 2]);
            lemma_stack_then_twice(o, s.drop_last(), s.drop_last().drop_last(), 0, 0);
            lemma_with_pc(before, 1);
            lemma_stack_then_twice(o, s.drop_last().drop_last(), s.drop_last().drop_last(), 0, 1);
        }
        Ok(Action::Repeat(left, count))
    }

    fn exec_write(&mut self) -> (r: Result<Action, RuntimeError>)
        requires
            old(self).wf(),
            old(self)@.current.pc < old(self)@.current.code.len(),
        ensures
            r is Ok ==> final(self).wf(),
            write_post(old(self)@, final(self)@, r),
    {
        let value = match self.take("WRITE::stack::value") {
            Ok(v) => v,
            Err(e) => {
                return Err(e);
            },
        };
        let text = match value.as_tea_string() {
            Ok(t) => t,
            Err(e) => {
                return Err(RuntimeError::CannotConstruct(e));
            },
        };
        let fd = match self.take("WRITE::stack::fd") {
            Ok(v) => v,
            Err(e) => {
                return Err(e);
            },
        };
        let fd = match fd.as_tea_number() {
            Ok(n) => n,
            Err(e) => {
                return Err(RuntimeError::CannotConstruct(e));
            },
        };
        let ghost before = self@;
        self.advance(1);
        proof {
            let o = old(self)@;
            let s = stack_of(o);
            assert(s.drop_last().last() == s[s.len() - 2]);
            lemma_stack_then_twice(o, s.drop_last(), s.drop_last().drop_last(), 0, 0);
            lemma_with_pc(before, 1);
            lemma_stack_then_twice(o, s.drop_last().drop_last(), s.drop_last().drop_last(), 0, 1);
        }
        Ok(Action::Write(fd, text))
    }

    fn exec_read(&mut self) -> (r: Result<Action, RuntimeError>)
        requires
            old(self).wf(),
            old(self)@.current.pc < old(self)@.current.code.len(),
        ensures
            r is Ok ==> final(self).wf(),
            read_post(old(self)@, final(self)@, r),
    {
        let fd = match self.take("READ::stack::fd") {
            Ok(v) => v,
            Err(e) => {
                return Err(e);
            },
        };
        let fd = match fd.as_tea_number() {
            Ok(n) => n,
            Err(e) => {
                return Err(RuntimeError::CannotConstruct(e));
            },
        };
        let ghost before = self@;
        self.advance(1);
        proof {
            let o = old(self)@;
            let s = stack_of(o);
            lemma_with_pc(before, 1);
            lemma_stack_then_twice(o, s.drop_last(), s.drop_last(), 0, 1);
        }
        Ok(Action::Read(fd))
    }

    fn exec_call(&mut self) -> (r: Result<Action, RuntimeError>)
        requires
            old(self).wf(),
            old(self)@.current.pc < old(self)@.current.code.len(),
        ensures
            r is Ok ==> final(self).wf(),
            call_post(old(self)@, final(self)@, r),
    {
        let f = match self.take("CALL::stack::fn") {
            Ok(v) => v,
            Err(e) => {
                return Err(e);
            },
        };
        let f = match f.as_tea_function() {
            Ok(f) => f,
            Err(e) => {
                return Err(RuntimeError::CannotConstruct(e));
            },
        };
        self.advance(1);
        let mut inv = Invocation { len: f.code.len(), code: f.code, pc: 0, labels: HashMap::new() };
        core::mem::swap(&mut self.current, &mut inv);
        self.callers.push(inv);
        self.scope.enter_child();
        proof {
            assert(self@.current.labels =~= Map::<u32, int>::empty());
            assert(self@.callers =~= old(self)@.callers.push(with_pc(old(self)@, old(self)@.current.pc + 1).current));
        }
        Ok(Action::Continue)
    }

    fn exec_get(&mut self) -> (r: Result<Action, RuntimeError>)
        requires
            old(self).wf(),
            old(self)@.current.pc < old(self)@.current.code.len(),
        ensures
            r is Ok ==> final(self).wf(),
            get_post(old(self)@, final(self)@, r),
    {
        let obj = match self.take("GET::stack::obj") {
            Ok(v) => v,
            Err(e) => {
                return Err(e);
            },
        };
        let obj = match obj.as_tea_object() {
            Ok(o) => o,
            Err(e) => {
                return Err(RuntimeError::CannotConstruct(e));
            },
        };
        let len = self.current.code.len();
        let at = self.current.pc + 1;
        if at >= len {
            return Err(RuntimeError::NoValue(String::from_str("GET::key_len")));
        }
        let key_len = self.current.code[at] as usize;
        if len - at - 1 < key_len {
            return Err(RuntimeError::NoValue(String::from_str("GET::key")));
        }
        let key = vstd::slice::slice_subrange(self.current.code.as_slice(), at + 1, at + 1 + key_len);
        let v = match obj.get(key) {
            Some(v) => v.copy(),
            None => {
                return Err(RuntimeError::NoValue(String::from_str("GET::stack::Object")));
            },
        };
        self.give(&v);
        let ghost before = self@;
        self.advance(2 + key_len);
        proof {
            let o = old(self)@;
            let s = stack_of(o);
            let t = s.drop_last().push(v@);
            lemma_stack_then_twice(o, s.drop_last(), t, 0, 0);
            lemma_with_pc(before, 2 + key_len);
            lemma_stack_then_twice(o, t, t, 0, 2 + key_len);
        }
        Ok(Action::Continue)
    }

    fn exec_marker(&mut self) -> (r: Result<Action, RuntimeError>)
        requires
            old(self).wf(),
            old(self)@.current.pc < old(self)@.current.code.len(),
        ensures
            r is Ok ==> final(self).wf(),
            marker_post(old(self)@, final(self)@, r),
    {
        let idx = match self.operand() {
            Some(i) => i,
            None => {
                return Err(RuntimeError::NoValue(String::from_str("MARKER::operand")));
            },
        };
        let target = self.current.pc + 5;
        self.current.labels.insert(idx, target);
        self.current.pc = target;
        proof {
            assert(self@.current.labels =~= old(self)@.current.labels.insert(idx, target as int));
        }
        Ok(Action::Continue)
    }

    /// Moves the pc to the label `idx` that a marker recorded.
    fn jump(&mut self, idx: u32) -> (r: Result<Action, RuntimeError>)
        requires
            old(self).wf(),
        ensures
            final(self).wf(),
            old(self)@.current.labels.contains_key(idx) ==> continues(r) && final(self)@ == with_pc(
                old(self)@,
                old(self)@.current.labels[idx],
            ),
            !old(self)@.current.labels.contains_key(idx) ==> lacks(r),
    {
        match self.current.labels.get(&idx) {
            Some(target) => {
                self.current.pc = *target;
                Ok(Action::Continue)
            },
            None => Err(RuntimeError::NoValue(String::from_str("GOTO::label"))),
        }
    }

    fn exec_goto(&mut self) -> (r: Result<Action, RuntimeError>)
        requires
            old(self).wf(),
            old(self)@.current.pc < old(self)@.current.code.len(),
        ensures
            r is Ok ==> final(self).wf(),
            goto_post(old(self)@, final(self)@, r),
    {
        match self.operand() {
            Some(idx) => self.jump(idx),
            None => Err(RuntimeError::NoValue(String::from_str("GOTO::operand"))),
        }
    }

    fn exec_goto_if(&mut self) -> (r: Result<Action, RuntimeError>)
        requires
            old(self).wf(),
            old(self)@.current.pc < old(self)@.current.code.len(),
        ensures
            r is Ok ==> final(self).wf(),
            goto_if_post(old(self)@, final(self)@, r),
    {
        let cond = match self.take("GOTO_IF::stack::cond") {
            Ok(v) => v,
            Err(e) => {
                return Err(e);
            },
        };
        let cond = match cond.as_tea_bool() {
            Ok(b) => b,
            Err(e) => {
                return Err(RuntimeError::CannotConstruct(e));
            },
        };
        let idx = match self.operand() {
            Some(i) => i,
            None => {
                return Err(RuntimeError::NoValue(String::from_str("GOTO_IF::operand")));
            },
        };
        if cond.0 {
            self.jump(idx)
        } else {
            let ghost before = self@;
            self.advance(5);
            proof {
                let o = old(self)@;
                let s = stack_of(o);
                lemma_with_pc(before, 5);
                lemma_stack_then_twice(o, s.drop_last(), s.drop_last(), 0, 5);
            }
            Ok(Action::Continue)
        }
    }

    /// Carries out the instruction at the pc of the innermost invocation,
    /// or ends that invocation where its code is done.
    pub fn step(&mut self) -> (r: Result<Action, RuntimeError>)
        requires
            old(self).wf(),
        ensures
            r is Ok ==> final(self).wf(),
            step_post(old(self)@, final(self)@, r),
    {
        if self.current.pc >= self.current.len {
            return self.end_of_code();
        }
        let op = self.current.code[self.current.pc];
        if op == opcodes::PUSH {
            self.exec_push()
        } else if op == opcodes::STORE {
            self.exec_store()
        } else if op == opcodes::LOAD {
            self.exec_load()
        } else if op == opcodes::NADD {
            self.exec_arith(ArithOp::Add)
        } else if op == opcodes::NSUB {
            self.exec_arith(ArithOp::Sub)
        } else if op == opcodes::NMUL {
            self.exec_arith(ArithOp::Mul)
        } else if op == opcodes::NDIV {
            self.exec_arith(ArithOp::Div)
        } else if op == opcodes::NMOD {
            self.exec_arith(ArithOp::Rem)
        } else if op == opcodes::NPOW {
            self.exec_arith(ArithOp::Pow)
        } else if op == opcodes::NGT {
            self.exec_compare(CompareOp::Greater)
        } else if op == opcodes::NLT {
            self.exec_compare(CompareOp::Less)
        } else if op == opcodes::SMUL {
            self.exec_repeat()
        } else if op == opcodes::CALL {
            self.exec_call()
        } else if op == opcodes::GET {
            self.exec_get()
        } else if op == opcodes::WRITE {
            self.exec_write()
        } else if op == opcodes::READLN {
            self.exec_read()
        } else if op == opcodes::MARKER {
            self.exec_marker()
        } else if op == opcodes::GOTO {
            self.exec_goto()
        } else if op == opcodes::GOTO_IF {
            self.exec_goto_if()
        } else if op == opcodes::EQ {
            self.exec_eq()
        } else if op == opcodes::PRINT {
            self.exec_print()
        } else {
            self.advance(1);
            Ok(Action::Continue)
        }
    }

    /// Puts the result of an `Arithmetic` action on the stack.
    pub fn give_number(&mut self, n: &TeaNumber)
        requires
            old(self).wf(),
        ensures
            final(self).wf(),
            final(self)@ == stack_then(old(self)@, stack_of(old(self)@).push(n.0@), 0),
    {
        let v = n.to_value();
        self.give(&v);
    }

    /// Puts the outcome of a `Compare` action on the stack.
    pub fn give_truth(&mut self, b: bool)
        requires
            old(self).wf(),
        ensures
            final(self).wf(),
            final(self)@ == stack_then(old(self)@, stack_of(old(self)@).push(bool_payload(b)), 0),
    {
        let v = TeaBool(b).to_value();
        self.give(&v);
    }

    /// Puts the line read for a `ReadLine` action on the stack as a String;
    /// a line too long for a value is refused.
    pub fn give_line(&mut self, line: &String) -> (r: Result<(), RuntimeError>)
        requires
            old(self).wf(),
        ensures
            final(self).wf(),
            r is Ok <==> encode_utf8(line@).len() < 65536,
            r is Ok ==> final(self)@ == stack_then(old(self)@, stack_of(old(self)@).push(encode_utf8(line@)), 0),
    {
        let bytes = line.as_str().as_bytes_vec();
        if bytes.len() > 65535 {
            return Err(RuntimeError::NoValue(String::from_str("READ::line")));
        }
        let v = Value::new(bytes);
        self.give(&v);
        Ok(())
    }

    /// Puts `text` repeated `count` times on the stack, the result of a
    /// `Repeat` action; a result too long for a value is refused.
    pub fn give_repeat(&mut self, text: &Value, count: usize) -> (r: Result<(), RuntimeError>)
        requires
            old(self).wf(),
        ensures
            final(self).wf(),
            r is Ok <==> text@.len() * count < 65536,
            r is Ok ==> final(self)@ == stack_then(old(self)@, stack_of(old(self)@).push(repeat(text@, count as nat)), 0),
    {
        let len = text.data.len();
        let mut out: Vec<u8> = Vec::new();
        if len == 0 || count == 0 {
            proof {
                lemma_repeat_len(text@, count as nat);
                assert(len * count == 0) by (nonlinear_arith)
                    requires
                        len == 0 || count == 0,
                ;
                assert(out@ =~= repeat(text@, count as nat));
            }
            self.give(&Value::new(out));
            return Ok(());
        }
        let mut i: usize = 0;
        while i < count
            invariant
                self.wf(),
                *self == *old(self),
                i <= count,
                len == text@.len(),
                len > 0,
                out@ == repeat(text@, i as nat),
                out@.len() == i * len,
                out@.len() < 65536,
            decreases count - i,
        {
            if 65535 - out.len() < len {
                proof {
                    assert(i * len + len <= count * len) by (nonlinear_arith)
                        requires
                            i + 1 <= count,
                    ;
                }
                return Err(RuntimeError::CannotConstruct(crate::errors::CannotConstruct {
                    target: String::from_str("SMUL::result"),
                    value: text.copy(),
                }));
            }
            let mut j: usize = 0;
            while j < len
                invariant
                    j <= len,
                    len == text@.len(),
                    out@ == repeat(text@, i as nat) + text@.subrange(0, j as int),
                    out@.len() + len - j < 65536,
                decreases len - j,
            {
                out.push(text.data[j]);
                j = j + 1;
                assert(out@ =~= repeat(text@, i as nat) + text@.subrange(0, j as int));
            }
            assert(text@.subrange(0, len as int) =~= text@);
            i = i + 1;
            proof {
                lemma_repeat_len(text@, i as nat);
            }
        }
        assert(text@.len() * count == i * len) by (nonlinear_arith)
            requires
                i == count,
                len == text@.len(),
        ;
        self.give(&Value::new(out));
        Ok(())
    }

    /// Decides where the text of a `Write` action goes, given the file
    /// descriptor the host made of its Number: descriptor 0 is standard
    /// output, 1 may not be written, any other goes to the path registered
    /// for it in the current scope.
    pub fn route_write(&self, fd: u32, text: &TeaStr) -> (r: Result<Action, RuntimeError>)
        requires
            self.wf(),
        ensures
            fd == 0 ==> (r matches Ok(Action::WriteStdout(s)) && s@ == text.0@),
            fd == 1 ==> (r matches Err(e) && e is NotAllowed),
            fd > 1 && self@.chain[0].fds.contains_key(fd) ==> (r matches Ok(Action::WriteFile(path, bytes))
                && path@ == self@.chain[0].fds[fd] && bytes@ == encode_utf8(text.0@)),
            fd > 1 && !self@.chain[0].fds.contains_key(fd) ==> (r matches Err(RuntimeError::FileError(
                path,
                message,
            )) && path is None && message@ == missing_fd_message(fd)),
    {
        if fd == 0 {
            Ok(Action::WriteStdout(text.0.clone()))
        } else if fd == 1 {
            Err(RuntimeError::NotAllowed(String::from_str("writing to stdin")))
        } else {
            match self.scope.fd_path(&fd) {
                Some(path) => Ok(Action::WriteFile(path, text.0.as_str().as_bytes_vec())),
                None => Err(RuntimeError::missing_fd(fd)),
            }
        }
    }

    /// Decides what a `Read` action reads, given the file descriptor the
    /// host made of its Number: descriptor 0 may not be read, 1 is a line
    /// of standard input, any other the file registered for it in the
    /// current scope.
    pub fn route_read(&self, fd: u32) -> (r: Result<Action, RuntimeError>)
        requires
            self.wf(),
        ensures
            fd == 0 ==> (r matches Err(e) && e is NotAllowed),
            fd == 1 ==> (r matches Ok(a) && a is ReadLine),
            fd > 1 && self@.chain[0].fds.contains_key(fd) ==> (r matches Ok(Action::ReadFile(path))
                && path@ == self@.chain[0].fds[fd]),
            fd > 1 && !self@.chain[0].fds.contains_key(fd) ==> (r matches Err(RuntimeError::FileError(
                path,
                message,
            )) && path is None && message@ == missing_fd_message(fd)),
    {
        if fd == 0 {
            Err(RuntimeError::NotAllowed(String::from_str("reading from stdout")))
        } else if fd == 1 {
            Ok(Action::ReadLine)
        } else {
            match self.scope.fd_path(&fd) {
                Some(path) => Ok(Action::ReadFile(path)),
                None => Err(RuntimeError::missing_fd(fd)),
            }
        }
    }

    /// The scope of the innermost invocation.
    pub fn scope(&self) -> (r: &Scope)
        ensures
            r.chain() == self@.chain,
    {
        &self.scope
    }
}

} // verus!
