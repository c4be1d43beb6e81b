use vstd::prelude::*;
use crate::ast::AST;
use crate::parser::is_compare;
use crate::token::{Operator, Type, Value};

verus! {

/// How deeply nested a tree may be for lowering.
pub const MAX_DEPTH: usize = 10000;

/// An IR value: a 64-bit constant, the result of an instruction, a
/// parameter, a stack slot of the entry block, or a module global.
#[derive(Clone, Copy, Debug, PartialEq, Eq, Structural)]
pub enum Operand {
    Const(i64),
    Reg(usize),
    Param(usize),
    Slot(usize),
    Global(usize),
}

/// An instruction; its result, if any, is `Operand::Reg` of its index in
/// `Function::code`. Every value is a 64-bit integer; a comparison gives 0 or 1.
#[derive(Debug)]
pub enum Inst {
    Store { value: Operand, slot: Operand },
    Load { slot: Operand },
    Arith { op: Operator, lhs: Operand, rhs: Operand },
    Cmp { op: Operator, lhs: Operand, rhs: Operand },
    Call { callee: String, args: Vec<Operand> },
    /// The join of an `if`: one incoming value for each arm, with the block
    /// that ends that arm.
    Phi { then_value: Operand, then_block: usize, else_value: Operand, else_block: usize },
}

/// The instruction that ends a basic block.
#[derive(Clone, Copy, Debug, PartialEq, Eq, Structural)]
pub enum Terminator {
    Br(usize),
    /// Branch to the first block if the value is not zero, else to the second.
    CondBr(Operand, usize, usize),
    Ret(Operand),
}

#[derive(Clone, Copy, Debug, PartialEq, Eq, Structural)]
pub enum BlockKind {
    Entry,
    Then,
    Else,
    Merge,
}

/// A basic block; its instructions are those of `Function::code` tagged
/// with its index.
#[derive(Clone, Copy, Debug, PartialEq, Eq, Structural)]
pub struct Block {
    pub kind: BlockKind,
    pub term: Option<Terminator>,
}

/// A function returning a 64-bit integer, with one 64-bit parameter per name.
#[derive(Debug)]
pub struct Function {
    pub name: String,
    pub params: Vec<String>,
    /// Whether the function is private to the module.
    pub internal: bool,
    /// The stack slots of the entry block, by variable name.
    pub slots: Vec<String>,
    pub blocks: Vec<Block>,
    /// The instructions in order, each with the index of its block.
    pub code: Vec<(usize, Inst)>,
}

impl Function {
    /// Every basic block ends with exactly one terminator.
    pub open spec fn well_terminated(&self) -> bool {
        &&& self.blocks@.len() > 0
        &&& forall|b: int| 0 <= b < self.blocks@.len() ==> (#[trigger] self.blocks@[b]).term is Some
    }
}

#[derive(Debug)]
pub struct Global {
    pub name: String,
    pub init: i64,
}

#[derive(Debug)]
pub struct Module {
    pub name: String,
    pub functions: Vec<Function>,
    pub globals: Vec<Global>,
}

impl Module {
    pub open spec fn wf(&self) -> bool {
        forall|i: int| 0 <= i < self.functions@.len() ==> (#[trigger] self.functions@[i]).well_terminated()
    }
}

/// Why a tree cannot be lowered.
#[derive(Clone, Copy, Debug, PartialEq, Eq, Structural)]
pub enum GenError {
    ExpectedIdentifier,
    VariableLocation,
    UndefinedVariable,
    UnsupportedOperator,
    FunctionNotFound,
    ArityMismatch,
    Unsupported,
    NestingTooDeep,
}

impl GenError {
    pub fn message(&self) -> (r: &'static str)
        ensures
            *self == GenError::ExpectedIdentifier ==> r@ == "Expected Identifier"@,
            *self == GenError::VariableLocation ==> r@ == "Variable Location Error"@,
            *self == GenError::UndefinedVariable ==> r@ == "Undefined Variable"@,
            *self == GenError::UnsupportedOperator ==> r@ == "Unimplemented Operator"@,
            *self == GenError::FunctionNotFound ==> r@ == "Function Not Found"@,
            *self == GenError::ArityMismatch ==> r@ == "Argument Count Mismatch"@,
            *self == GenError::Unsupported ==> r@ == "Unsupported Expression"@,
            *self == GenError::NestingTooDeep ==> r@ == "Expression Nested Too Deeply"@,
    {
        match self {
            GenError::ExpectedIdentifier => "Expected Identifier",
            GenError::VariableLocation => "Variable Location Error",
            GenError::UndefinedVariable => "Undefined Variable",
            GenError::UnsupportedOperator => "Unimplemented Operator",
            GenError::FunctionNotFound => "Function Not Found",
            GenError::ArityMismatch => "Argument Count Mismatch",
            GenError::Unsupported => "Unsupported Expression",
            GenError::NestingTooDeep => "Expression Nested Too Deeply",
        }
    }
}

/// A function under construction: the insertion block and the symbol
/// environment that maps names to slots.
pub struct Frame {
    pub func: Function,
    pub cur: usize,
    pub env: Vec<(String, Operand)>,
    /// The frame of the top-level code, whose variables are module globals.
    pub host: bool,
}

impl Frame {
    /// The insertion block is open, and every parameter is bound, in order,
    /// at the start of the environment.
    pub open spec fn wf(&self) -> bool {
        &&& self.cur < self.func.blocks@.len()
        &&& self.func.blocks@[self.cur as int].term is None
        &&& self.func.params@.len() <= self.env@.len()
        &&& forall|i: int| 0 <= i < self.func.params@.len() ==> (#[trigger] self.env@[i]).0@
            == self.func.params@[i]@ && self.env@[i].1 == Operand::Slot(i as usize)
    }

    /// What lowering one expression may do to a frame: add blocks, close the
    /// insertion block and open another, and extend the environment.
    pub open spec fn steps_to(&self, b: &Frame) -> bool {
        let a = self;
        &&& b.func.name == a.func.name
        &&& b.func.params == a.func.params
        &&& b.func.internal == a.func.internal
        &&& b.host == a.host
        &&& a.env@.len() <= b.env@.len()
        &&& forall|i: int| 0 <= i < a.env@.len() ==> b.env@[i] == #[trigger] a.env@[i]
        &&& a.func.blocks@.len() <= b.func.blocks@.len()
        &&& forall|k: int|
            0 <= k < a.func.blocks@.len() && k != a.cur ==> b.func.blocks@[k]
                == #[trigger] a.func.blocks@[k]
        &&& forall|k: int|
            (a.func.blocks@.len() <= k < b.func.blocks@.len() || k == a.cur) && k != b.cur
                ==> (#[trigger] b.func.blocks@[k]).term is Some
        &&& b.cur == a.cur || a.func.blocks@.len() <= b.cur
        &&& forall|k: int|
            0 <= k < a.func.blocks@.len() ==> (#[trigger] b.func.blocks@[k]).kind
                == a.func.blocks@[k].kind
        &&& a.func.slots@.len() <= b.func.slots@.len()
        &&& forall|k: int| 0 <= k < a.func.slots@.len() ==> b.func.slots@[k] == #[trigger] a.func.slots@[k]
        &&& a.func.code@.len() <= b.func.code@.len()
        &&& forall|k: int| 0 <= k < a.func.code@.len() ==> b.func.code@[k] == #[trigger] a.func.code@[k]
    }

    fn emit(&mut self, i: Inst) -> (r: Operand)
        requires
            old(self).wf(),
        ensures
            final(self).wf(),
            old(self).steps_to(final(self)),
            final(self).cur == old(self).cur,
            final(self).func.blocks == old(self).func.blocks,
            final(self).func.name == old(self).func.name,
            final(self).func.params == old(self).func.params,
            final(self).func.slots == old(self).func.slots,
            final(self).host == old(self).host,
            final(self).env == old(self).env,
            final(self).func.code@ == old(self).func.code@.push((old(self).cur, i)),
            r == Operand::Reg(old(self).func.code@.len() as usize),
    {
        let n = self.func.code.len();
        self.func.code.push((self.cur, i));
        Operand::Reg(n)
    }

    fn new_block(&mut self, kind: BlockKind) -> (r: usize)
        requires
            old(self).wf(),
        ensures
            final(self).wf(),
            final(self).cur == old(self).cur,
            final(self).func.name == old(self).func.name,
            final(self).func.params == old(self).func.params,
            final(self).host == old(self).host,
            final(self).env == old(self).env,
            r == old(self).func.blocks@.len(),
            final(self).func.blocks@ == old(self).func.blocks@.push(Block { kind, term: None }),
            final(self).func.code == old(self).func.code,
            final(self).func.slots == old(self).func.slots,
            final(self).func.internal == old(self).func.internal,
    {
        let n = self.func.blocks.len();
        self.func.blocks.push(Block { kind, term: None });
        n
    }

    /// Ends the insertion block with `t` and moves to the open block `next`.
    fn branch_to(&mut self, t: Terminator, next: usize)
        requires
            old(self).wf(),
            next < old(self).func.blocks@.len(),
            next != old(self).cur,
            old(self).func.blocks@[next as int].term is None,
        ensures
            final(self).wf(),
            final(self).cur == next,
            final(self).func.blocks@ == old(self).func.blocks@.update(
                old(self).cur as int,
                Block { kind: old(self).func.blocks@[old(self).cur as int].kind, term: Some(t) },
            ),
            final(self).func.name == old(self).func.name,
            final(self).func.params == old(self).func.params,
            final(self).host == old(self).host,
            final(self).env == old(self).env,
            final(self).func.code == old(self).func.code,
            final(self).func.slots == old(self).func.slots,
            final(self).func.internal == old(self).func.internal,
    {
        let kind = self.func.blocks[self.cur].kind;
        self.func.blocks.set(self.cur, Block { kind, term: Some(t) });
        self.cur = next;
    }

    /// Binds `name` to `slot`; later bindings shadow earlier ones.
    fn bind(&mut self, name: String, slot: Operand)
        requires
            old(self).wf(),
        ensures
            final(self).wf(),
            old(self).steps_to(final(self)),
            final(self).cur == old(self).cur,
            final(self).func.blocks == old(self).func.blocks,
            final(self).func.name == old(self).func.name,
            final(self).func.params == old(self).func.params,
            final(self).func.code == old(self).func.code,
            final(self).func.slots == old(self).func.slots,
            final(self).host == old(self).host,
            final(self).env@ == old(self).env@.push((name, slot)),
    {
        self.env.push((name, slot));
    }

    /// The slot most recently bound to `name`.
    fn lookup(&self, name: &String) -> (r: Option<Operand>)
        ensures
            r == lookup(self.env@.map_values(|b: (String, Operand)| (b.0@, b.1)), name@),
    {
        let ghost ev = self.env@.map_values(|b: (String, Operand)| (b.0@, b.1));
        let mut i = self.env.len();
        assert(ev.take(i as int) =~= ev);
        while i > 0
            invariant
                i <= self.env@.len(),
                ev == self.env@.map_values(|b: (String, Operand)| (b.0@, b.1)),
                lookup(ev, name@) == lookup(ev.take(i as int), name@),
            decreases i,
        {
            i = i - 1;
            assert(ev.take(i as int + 1).drop_last() =~= ev.take(i as int));
            assert(ev.take(i as int + 1).last() == ev[i as int]);
            if self.env[i].0 == *name {
                return Some(self.env[i].1);
            }
        }
        assert(ev.take(0) =~= Seq::<(Seq<char>, Operand)>::empty());
        None
    }

    /// Ends the insertion block with a return of `value`. The frame is
    /// well formed here, so the environment binds every parameter of the
    /// function when its return is emitted, and every other block is closed.
    fn finish(self, value: Operand) -> (r: Function)
        requires
            self.wf(),
            forall|k: int|
                0 <= k < self.func.blocks@.len() && k != self.cur ==> (
                #[trigger] self.func.blocks@[k]).term is Some,
        ensures
            r.well_terminated(),
            r.name == self.func.name,
            r.params == self.func.params,
            r.internal == self.func.internal,
            r.code == self.func.code,
            r.blocks@.len() == self.func.blocks@.len(),
            forall|k: int| 0 <= k < r.blocks@.len() ==> (#[trigger] r.blocks@[k]).kind == self.func.blocks@[k].kind,
            r.blocks@[self.cur as int].term == Some(Terminator::Ret(value)),
    {
        let mut func = self.func;
        let kind = func.blocks[self.cur].kind;
        func.blocks.set(self.cur, Block { kind, term: Some(Terminator::Ret(value)) });
        func
    }
}

/// A constant, or a statement of constants: lowering it emits no code.
pub open spec fn needs_no_code(ast: &AST) -> bool {
    match ast {
        AST::Value(Type::Int, Value::Int(_)) => true,
        AST::Statement(xs) => forall|i: int|
            0 <= i < xs@.len() ==> (#[trigger] xs@[i]) matches AST::Value(Type::Int, Value::Int(_)),
        _ => false,
    }
}

/// What lowering reads and changes, as plain values: the signatures of
/// the module's functions, the environment (names and their slots), the
/// function being built (so that it can call itself), whether this is the
/// top-level code, and the counts of instructions, slots, globals and
/// blocks, with the insertion block.
#[verifier::ext_equal]
pub struct Scope {
    pub sigs: Seq<(Seq<char>, nat)>,
    pub env: Seq<(Seq<char>, Operand)>,
    pub own: Option<(Seq<char>, nat)>,
    pub host: bool,
    pub code: nat,
    pub slots: nat,
    pub globals: nat,
    pub blocks: nat,
    pub cur: nat,
}

/// The slot most recently bound to `x`.
pub open spec fn lookup(env: Seq<(Seq<char>, Operand)>, x: Seq<char>) -> Option<Operand>
    decreases env.len(),
{
    if env.len() == 0 {
        None
    } else if env.last().0 == x {
        Some(env.last().1)
    } else {
        lookup(env.drop_last(), x)
    }
}

impl Scope {
    pub open spec fn bind(self, x: Seq<char>, o: Operand) -> Scope {
        Scope { env: self.env.push((x, o)), ..self }
    }

    /// One more instruction.
    pub open spec fn emit(self) -> Scope {
        Scope { code: self.code + 1, ..self }
    }

    /// The value of the next instruction.
    pub open spec fn next(self) -> Operand {
        Operand::Reg(self.code as usize)
    }
}

/// The parameter count of the first function named `x` from index `i` on.
pub open spec fn arity_from(sigs: Seq<(Seq<char>, nat)>, x: Seq<char>, i: int) -> Option<nat>
    decreases sigs.len() - i,
{
    if i < 0 || i >= sigs.len() {
        None
    } else if sigs[i].0 == x {
        Some(sigs[i].1)
    } else {
        arity_from(sigs, x, i + 1)
    }
}

/// The parameter count of the function a call of `x` reaches.
pub open spec fn callee_arity(s: Scope, x: Seq<char>) -> Option<nat> {
    match arity_from(s.sigs, x, 0) {
        Some(n) => Some(n),
        None => match s.own {
            Some((y, n)) => if y == x {
                Some(n)
            } else {
                None
            },
            None => None,
        },
    }
}

pub open spec fn is_arith(o: Operator) -> bool {
    o == Operator::Add || o == Operator::Sub || o == Operator::Mul || o == Operator::Div
}

pub open spec fn all_variables(ps: Seq<AST>) -> bool {
    forall|i: int| 0 <= i < ps.len() ==> (#[trigger] ps[i]) is Variable
}

pub open spec fn param_names(ps: Seq<AST>) -> Seq<Seq<char>> {
    ps.map_values(|a: AST| a->Variable_0@)
}

/// The scope a definition `fn name(ps) body` lowers its body in.
pub open spec fn function_scope(s: Scope, name: Seq<char>, ps: Seq<AST>) -> Scope {
    Scope {
        sigs: s.sigs,
        env: Seq::new(ps.len(), |i: int| (ps[i]->Variable_0@, Operand::Slot(i as usize))),
        own: Some((name, ps.len())),
        host: false,
        code: ps.len(),
        slots: ps.len(),
        globals: s.globals,
        blocks: 1,
        cur: 0,
    }
}

/// The scope after the start of an `if` whose condition ended in `s1`: the
/// test appended, three blocks added, `then` the insertion block.
pub open spec fn if_start(s1: Scope) -> Scope {
    Scope { code: s1.code + 1, blocks: s1.blocks + 3, cur: s1.blocks, ..s1 }
}

/// Whether lowering `ast` succeeds from scope `s`, and if so the scope
/// after it and the value it gives.
pub open spec fn outcome(s: Scope, ast: AST, depth: nat) -> Result<(Scope, Operand), GenError>
    decreases depth, 1nat, 0nat,
{
    if depth == 0 {
        Err(GenError::NestingTooDeep)
    } else {
        let d = (depth - 1) as nat;
        match ast {
            AST::Value(Type::Int, Value::Int(n)) => Ok((s, Operand::Const(n))),
            AST::Identifier(x) => match lookup(s.env, x@) {
                Some(_) => Ok((s.emit(), s.next())),
                None => Err(GenError::UndefinedVariable),
            },
            AST::Variable(x, _, init) => {
                if s.host {
                    let g = Operand::Global(s.globals as usize);
                    if *init is Empty {
                        Ok((Scope { globals: s.globals + 1, ..s }.bind(x@, g), Operand::Const(0)))
                    } else {
                        match outcome(s, *init, d) {
                            Ok((s1, Operand::Const(c))) => Ok(
                                (
                                    Scope { globals: s1.globals + 1, ..s1 }.bind(
                                        x@,
                                        Operand::Global(s1.globals as usize),
                                    ),
                                    Operand::Const(c),
                                ),
                            ),
                            Ok(_) => Err(GenError::VariableLocation),
                            Err(e) => Err(e),
                        }
                    }
                } else {
                    let k = Operand::Slot(s.slots as usize);
                    let s0 = Scope { slots: s.slots + 1, ..s };
                    if *init is Empty {
                        Ok((s0.bind(x@, k), Operand::Const(0)))
                    } else {
                        match outcome(s0, *init, d) {
                            Ok((s1, _)) => Ok(
                                (s1.emit().emit().bind(x@, k), Operand::Reg((s1.code + 1) as usize)),
                            ),
                            Err(e) => Err(e),
                        }
                    }
                }
            },
            AST::Binary(o, l, r) => {
                if o == Operator::Assign {
                    match *l {
                        AST::Identifier(x) => if lookup(s.env, x@) is Some {
                            match outcome(s, *r, d) {
                                Ok((s1, u)) => Ok((s1.emit(), u)),
                                Err(e) => Err(e),
                            }
                        } else {
                            Err(GenError::UndefinedVariable)
                        },
                        _ => Err(GenError::ExpectedIdentifier),
                    }
                } else {
                    match outcome(s, *l, d) {
                        Ok((s1, _)) => match outcome(s1, *r, d) {
                            Ok((s2, _)) => if is_arith(o) || is_compare(o) {
                                Ok((s2.emit(), s2.next()))
                            } else {
                                Err(GenError::UnsupportedOperator)
                            },
                            Err(e) => Err(e),
                        },
                        Err(e) => Err(e),
                    }
                }
            },
            AST::Unary(o, x) => {
                if o != Operator::Sub {
                    Err(GenError::UnsupportedOperator)
                } else {
                    match outcome(s, *x, d) {
                        Ok((s1, _)) => Ok((s1.emit(), s1.next())),
                        Err(e) => Err(e),
                    }
                }
            },
            AST::Function(name, ps, body) => {
                if !all_variables(ps@) {
                    Err(GenError::ExpectedIdentifier)
                } else {
                    match outcome(function_scope(s, name@, ps@), *body, d) {
                        Ok((s1, _)) => Ok(
                            (
                                Scope {
                                    sigs: s1.sigs.push((name@, ps@.len())),
                                    globals: s1.globals,
                                    ..s
                                },
                                Operand::Const(0),
                            ),
                        ),
                        Err(e) => Err(e),
                    }
                }
            },
            AST::Call(name, args) => match callee_arity(s, name@) {
                None => Err(GenError::FunctionNotFound),
                Some(n) => if n != args@.len() {
                    Err(GenError::ArityMismatch)
                } else {
                    match outcome_list(s, args@, 0, depth) {
                        Ok((s1, _)) => Ok((s1.emit(), s1.next())),
                        Err(e) => Err(e),
                    }
                },
            },
            AST::If(c, t, e) => match outcome(s, *c, d) {
                Ok((s1, _)) => match outcome(if_start(s1), *t, d) {
                    Ok((s3, _)) => {
                        let s4 = Scope { cur: s1.blocks + 1, ..s3 };
                        if *e is Empty {
                            Ok((Scope { cur: s1.blocks + 2, ..s4 }.emit(), s4.next()))
                        } else {
                            match outcome(s4, *e, d) {
                                Ok((s5, _)) => Ok(
                                    (Scope { cur: s1.blocks + 2, ..s5 }.emit(), s5.next()),
                                ),
                                Err(x) => Err(x),
                            }
                        }
                    },
                    Err(x) => Err(x),
                },
                Err(x) => Err(x),
            },
            AST::Statement(xs) => match outcome_list(s, xs@, 0, depth) {
                Ok((s1, vs)) => Ok(
                    (
                        s1,
                        if vs.len() == 0 {
                            Operand::Const(0)
                        } else {
                            vs.last()
                        },
                    ),
                ),
                Err(e) => Err(e),
            },
            _ => Err(GenError::Unsupported),
        }
    }
}

/// Lowering the trees `xs[i..]` in order, each one level deeper than
/// `depth`: the scope after them and their values.
pub open spec fn outcome_list(s: Scope, xs: Seq<AST>, i: int, depth: nat) -> Result<
    (Scope, Seq<Operand>),
    GenError,
>
    decreases depth, 0nat, (xs.len() - i) as nat,
{
    if i < 0 || i >= xs.len() {
        Ok((s, Seq::empty()))
    } else if depth == 0 {
        Err(GenError::NestingTooDeep)
    } else {
        match outcome(s, xs[i], (depth - 1) as nat) {
            Ok((s1, v)) => match outcome_list(s1, xs, i + 1, depth) {
                Ok((s2, vs)) => Ok((s2, seq![v] + vs)),
                Err(e) => Err(e),
            },
            Err(e) => Err(e),
        }
    }
}

pub open spec fn prepend_vals(vs: Seq<Operand>, r: Result<(Scope, Seq<Operand>), GenError>) -> Result<
    (Scope, Seq<Operand>),
    GenError,
> {
    match r {
        Ok((s, ws)) => Ok((s, vs + ws)),
        Err(e) => Err(e),
    }
}

/// The signatures of a module's functions.
pub open spec fn sigs_of(m: Module) -> Seq<(Seq<char>, nat)> {
    m.functions@.map_values(|g: Function| (g.name@, g.params@.len()))
}

/// The scope of lowering into frame `f` of module `m`.
pub open spec fn scope_of(m: Module, f: Frame) -> Scope {
    Scope {
        sigs: sigs_of(m),
        env: f.env@.map_values(|b: (String, Operand)| (b.0@, b.1)),
        own: if f.host {
            None
        } else {
            Some((f.func.name@, f.func.params@.len()))
        },
        host: f.host,
        code: f.func.code@.len(),
        slots: f.func.slots@.len(),
        globals: m.globals@.len(),
        blocks: f.func.blocks@.len(),
        cur: f.cur as nat,
    }
}

/// The instructions, blocks, slots, globals and functions that lowering
/// `ast` from frame `a` of module `am` left in frame `b` of module `bm`,
/// each operand being the value its sub-tree lowered to.
pub open spec fn emitted_as(depth: nat, a: Frame, am: Module, b: Frame, bm: Module, ast: AST) -> bool {
    let s = scope_of(am, a);
    let d = (depth - 1) as nat;
    let code = b.func.code@;
    let bl = b.func.blocks@;
    match ast {
        AST::Identifier(x) => code[s.code as int] == (a.cur, Inst::Load { slot: lookup(s.env, x@)->0 }),
        AST::Unary(_, x) => {
            let (s1, u) = outcome(s, *x, d)->Ok_0;
            code[s1.code as int] == (
                s1.cur as usize,
                Inst::Arith { op: Operator::Sub, lhs: Operand::Const(0), rhs: u },
            )
        },
        AST::Binary(o, l, r) => {
            if o == Operator::Assign {
                let (s1, u) = outcome(s, *r, d)->Ok_0;
                code[s1.code as int] == (
                    s1.cur as usize,
                    Inst::Store { value: u, slot: lookup(s.env, (*l)->Identifier_0@)->0 },
                )
            } else {
                let (s1, lv) = outcome(s, *l, d)->Ok_0;
                let (s2, rv) = outcome(s1, *r, d)->Ok_0;
                code[s2.code as int] == (
                    s2.cur as usize,
                    if is_arith(o) {
                        Inst::Arith { op: o, lhs: lv, rhs: rv }
                    } else {
                        Inst::Cmp { op: o, lhs: lv, rhs: rv }
                    },
                )
            }
        },
        AST::Variable(x, _, init) => {
            if s.host {
                &&& bm.globals@.len() > 0
                &&& bm.globals@.last() == Global {
                    name: x,
                    init: if *init is Empty {
                        0
                    } else {
                        outcome(s, *init, d)->Ok_0.1->Const_0
                    },
                }
            } else {
                let k = s.slots;
                let s0 = Scope { slots: s.slots + 1, ..s };
                &&& b.func.slots@[k as int] == x
                &&& !(*init is Empty) ==> {
                    let (s1, u) = outcome(s0, *init, d)->Ok_0;
                    &&& code[s1.code as int] == (
                        s1.cur as usize,
                        Inst::Store { value: u, slot: Operand::Slot(k as usize) },
                    )
                    &&& code[s1.code + 1int] == (
                        s1.cur as usize,
                        Inst::Load { slot: Operand::Slot(k as usize) },
                    )
                }
            }
        },
        AST::Call(name, args) => {
            let (s1, vs) = outcome_list(s, args@, 0, depth)->Ok_0;
            &&& code[s1.code as int].0 == s1.cur
            &&& (code[s1.code as int].1 matches Inst::Call { callee, args: xs } && callee == name
                && xs@ == vs)
        },
        AST::If(c, t, e) => {
            let (s1, cv) = outcome(s, *c, d)->Ok_0;
            let n = s1.blocks;
            let (s3, tv) = outcome(if_start(s1), *t, d)->Ok_0;
            let s4 = Scope { cur: n + 1, ..s3 };
            let (s5, ev) = if *e is Empty {
                (s4, Operand::Const(0))
            } else {
                outcome(s4, *e, d)->Ok_0
            };
            &&& code[s1.code as int] == (
                s1.cur as usize,
                Inst::Cmp { op: Operator::NE, lhs: cv, rhs: Operand::Const(0) },
            )
            &&& bl[s1.cur as int].term == Some(
                Terminator::CondBr(s1.next(), n as usize, (n + 1) as usize),
            )
            &&& bl[n as int].kind == BlockKind::Then
            &&& bl[n + 1int].kind == BlockKind::Else
            &&& bl[n + 2int].kind == BlockKind::Merge
            &&& bl[s3.cur as int].term == Some(Terminator::Br((n + 2) as usize))
            &&& bl[s5.cur as int].term == Some(Terminator::Br((n + 2) as usize))
            &&& code[s5.code as int] == (
                (n + 2) as usize,
                Inst::Phi {
                    then_value: tv,
                    then_block: s3.cur as usize,
                    else_value: ev,
                    else_block: s5.cur as usize,
                },
            )
        },
        AST::Function(name, ps, body) => {
            let (s1, bv) = outcome(function_scope(s, name@, ps@), *body, d)->Ok_0;
            let g = bm.functions@.last();
            &&& bm.functions@.len() > 0
            &&& function_built(g, name, ps@, s1, bv)
        },
        _ => true,
    }
}

/// `g` is the function a definition `fn name(ps) body` lowers to, its body
/// having ended in scope `s1` with value `bv`: internal, named `name`, one
/// parameter per declared one with the same names, an entry block whose
/// first instructions store each parameter into its own slot, every block
/// closed, and the block where the body ended returning `bv`.
pub open spec fn function_built(g: Function, name: String, ps: Seq<AST>, s1: Scope, bv: Operand) -> bool {
    &&& g.name == name
    &&& g.internal
    &&& g.params@.len() == ps.len()
    &&& forall|i: int| 0 <= i < ps.len() ==> (#[trigger] g.params@[i])@ == ps[i]->Variable_0@
    &&& g.well_terminated()
    &&& g.blocks@[0].kind == BlockKind::Entry
    &&& g.code@.len() == s1.code
    &&& g.blocks@.len() == s1.blocks
    &&& s1.cur < s1.blocks
    &&& g.blocks@[s1.cur as int].term == Some(Terminator::Ret(bv))
    &&& ps.len() <= g.code@.len()
    &&& forall|i: int|
        0 <= i < ps.len() ==> #[trigger] g.code@[i] == (
            0usize,
            Inst::Store { value: Operand::Param(i as usize), slot: Operand::Slot(i as usize) },
        )
}

/// `g` is the implicit `main` of top-level code that ended in scope `s`
/// with value `v`: external, without parameters, every block closed, and
/// the block where the code ended returning `v`.
pub open spec fn main_built(g: Function, s: Scope, v: Operand) -> bool {
    &&& g.name@ == "main"@
    &&& !g.internal
    &&& g.params@.len() == 0
    &&& g.well_terminated()
    &&& g.code@.len() == s.code
    &&& g.blocks@.len() == s.blocks
    &&& s.cur < s.blocks
    &&& g.blocks@[s.cur as int].term == Some(Terminator::Ret(v))
}

/// The scope of the top-level code of a program lowered into `m`.
pub open spec fn top_scope(m: Module) -> Scope {
    Scope {
        sigs: sigs_of(m),
        env: Seq::empty(),
        own: None,
        host: true,
        code: 0,
        slots: 0,
        globals: m.globals@.len(),
        blocks: 1,
        cur: 0,
    }
}

/// The result of a lowering is the one `expected` describes: on success
/// the value and the scope after it, otherwise the same error.
pub open spec fn lowered_as(
    r: Result<Operand, GenError>,
    expected: Result<(Scope, Operand), GenError>,
    m: Module,
    f: Frame,
) -> bool {
    match expected {
        Ok((s, v)) => r == Ok::<Operand, GenError>(v) && scope_of(m, f) == s,
        Err(e) => r == Err::<Operand, GenError>(e),
    }
}

/// Lowers syntax trees to IR functions, one module per generator.
pub struct Generator {
    module: Module,
}

impl Generator {
    pub closed spec fn wf(&self) -> bool {
        self.module.wf()
    }

    pub closed spec fn module_view(&self) -> &Module {
        &self.module
    }

    pub fn new() -> (r: Self)
        ensures
            r.wf(),
            r.module_view().name@ == "Entry"@,
            r.module_view().wf(),
            r.module_view().functions@.len() == 0,
            r.module_view().globals@.len() == 0,
    {
        Generator {
            module: Module { name: String::from_str("Entry"), functions: Vec::new(), globals: Vec::new() },
        }
    }

    pub fn get_module(&self) -> (r: &Module)
        ensures
            r == self.module_view(),
    {
        &self.module
    }

    fn find_function(&self, name: &String) -> (r: Option<usize>)
        ensures
            r matches Some(i) ==> i < self.module.functions@.len() && arity_from(
                sigs_of(self.module),
                name@,
                0,
            ) == Some(self.module.functions@[i as int].params@.len()),
            r is None ==> arity_from(sigs_of(self.module), name@, 0) is None,
    {
        let ghost sigs = sigs_of(self.module);
        let mut i: usize = 0;
        while i < self.module.functions.len()
            invariant
                i <= self.module.functions@.len(),
                sigs == sigs_of(self.module),
                arity_from(sigs, name@, 0) == arity_from(sigs, name@, i as int),
            decreases self.module.functions@.len() - i,
        {
            assert(sigs[i as int] == (self.module.functions@[i as int].name@, self.module.functions@[i as int].params@.len()));
            if self.module.functions[i].name == *name {
                return Some(i);
            }
            i = i + 1;
        }
        None
    }

    /// Lowers `ast` into the insertion block of `f` and gives its value.
    #[verifier::rlimit(100)]
    #[verifier::spinoff_prover]
    fn lower(&mut self, f: &mut Frame, ast: &AST, depth: usize) -> (r: Result<Operand, GenError>)
        requires
            old(self).wf(),
            old(f).wf(),
        ensures
            final(self).wf(),
            r is Ok ==> final(f).wf() && old(f).steps_to(final(f)),
            lowered_as(
                r,
                outcome(scope_of(old(self).module, *old(f)), *ast, depth as nat),
                final(self).module,
                *final(f),
            ),
            r is Ok ==> emitted_as(depth as nat, *old(f), old(self).module, *final(f), final(self).module, *ast),
            (*ast matches AST::Value(Type::Int, Value::Int(_))) && depth >= 1 ==> {
                &&& r is Ok
                &&& *final(f) == *old(f)
                &&& *final(self) == *old(self)
            },
            needs_no_code(ast) && depth >= 2 ==> {
                &&& r is Ok
                &&& *final(f) == *old(f)
                &&& *final(self) == *old(self)
            },
        decreases depth, 1nat,
    {
        if depth == 0 {
            return Err(GenError::NestingTooDeep);
        }
        let ghost s0 = scope_of(self.module, *f);
        match ast {
            AST::Value(Type::Int, Value::Int(n)) => Ok(Operand::Const(*n)),
            AST::Value(_, _) => Err(GenError::Unsupported),
            AST::Identifier(name) => match f.lookup(name) {
                Some(slot) => {
                    let v = f.emit(Inst::Load { slot });
                    assert(scope_of(self.module, *f) =~= s0.emit());
                    Ok(v)
                },
                None => Err(GenError::UndefinedVariable),
            },
            AST::Variable(_, _, _) => self.lower_variable(f, ast, depth),
            AST::Binary(_, _, _) => self.lower_binary(f, ast, depth),
            AST::Unary(op, x) => {
                if *op != Operator::Sub {
                    return Err(GenError::UnsupportedOperator);
                }
                let v = match self.lower(f, x, depth - 1) {
                    Ok(v) => v,
                    Err(e) => {
                        return Err(e);
                    },
                };
                let ghost s1 = scope_of(self.module, *f);
                let ghost f1 = *f;
                let res = f.emit(Inst::Arith { op: Operator::Sub, lhs: Operand::Const(0), rhs: v });
                proof {
                    assert(scope_of(self.module, *f) =~= s1.emit());
                    lemma_steps_trans(*old(f), f1, *f);
                }
                Ok(res)
            },
            AST::Function(_, _, _) => self.lower_function(f, ast, depth),
            AST::Call(_, _) => self.lower_call(f, ast, depth),
            AST::If(_, _, _) => self.lower_if(f, ast, depth),
            AST::Loop(_) => Err(GenError::Unsupported),
            AST::Statement(xs) => {
                let mut v = Operand::Const(0);
                let mut i: usize = 0;
                let ghost f0 = *f;
                let ghost expected = outcome_list(s0, xs@, 0, depth as nat);
                let ghost mut vals: Seq<Operand> = Seq::empty();
                assert(prepend_vals(vals, expected) == expected) by {
                    if let Ok((s9, ws)) = expected {
                        assert(vals + ws =~= ws);
                    }
                }
                while i < xs.len()
                    invariant
                        self.wf(),
                        f.wf(),
                        f0.steps_to(f),
                        f0 == *old(f),
                        f0.wf(),
                        depth > 0,
                        i <= xs@.len(),
                        *ast == AST::Statement(*xs),
                        s0 == scope_of(old(self).module, *old(f)),
                        expected == outcome_list(s0, xs@, 0, depth as nat),
                        expected == prepend_vals(vals, outcome_list(scope_of(self.module, *f), xs@, i as int, depth as nat)),
                        v == (if vals.len() == 0 {
                            Operand::Const(0)
                        } else {
                            vals.last()
                        }),
                        needs_no_code(ast) && depth >= 2 ==> *f == f0 && *self == *old(self),
                    decreases xs@.len() - i,
                {
                    let ghost fi = *f;
                    let ghost si = scope_of(self.module, *f);
                    v = match self.lower(f, &xs[i], depth - 1) {
                        Ok(v) => v,
                        Err(e) => {
                            return Err(e);
                        },
                    };
                    proof {
                        lemma_steps_trans(f0, fi, *f);
                        let old_vals = vals;
                        vals = vals.push(v);
                        if let Ok((s9, ws)) = outcome_list(scope_of(self.module, *f), xs@, i as int + 1, depth as nat) {
                            assert(old_vals + (seq![v] + ws) =~= vals + ws);
                        }
                    }
                    i = i + 1;
                }
                Ok(v)
            },
            AST::Empty => Err(GenError::Unsupported),
        }
    }

    #[verifier::rlimit(100)]
    #[verifier::spinoff_prover]
    fn lower_variable(&mut self, f: &mut Frame, ast: &AST, depth: usize) -> (r: Result<Operand, GenError>)
        requires
            *ast is Variable,
            depth > 0,
            old(self).wf(),
            old(f).wf(),
        ensures
            final(self).wf(),
            r is Ok ==> final(f).wf() && old(f).steps_to(final(f)),
            lowered_as(
                r,
                outcome(scope_of(old(self).module, *old(f)), *ast, depth as nat),
                final(self).module,
                *final(f),
            ),
            r is Ok ==> emitted_as(depth as nat, *old(f), old(self).module, *final(f), final(self).module, *ast),
        decreases depth, 0nat,
    {
        let ghost f0 = *f;
        let ghost s = scope_of(self.module, *f);
        match ast {
            AST::Variable(name, _, init) => {
                if f.host {
                    let n: i64 = if init.is_none() {
                        0
                    } else {
                        match self.lower(f, init, depth - 1) {
                            Ok(Operand::Const(n)) => n,
                            Ok(_) => {
                                return Err(GenError::VariableLocation);
                            },
                            Err(e) => {
                                return Err(e);
                            },
                        }
                    };
                    let ghost f1 = *f;
                    let ghost s1 = scope_of(self.module, *f);
                    let gi = self.module.globals.len();
                    self.module.globals.push(Global { name: name.clone(), init: n });
                    let nm = name.clone();
                    f.bind(nm, Operand::Global(gi));
                    proof {
                        lemma_steps_trans(f0, f1, *f);
                        assert(scope_of(self.module, *f) =~= Scope { globals: s1.globals + 1, ..s1 }.bind(
                            name@,
                            Operand::Global(gi),
                        ));
                    }
                    Ok(Operand::Const(n))
                } else {
                    let slot = Operand::Slot(f.func.slots.len());
                    f.func.slots.push(name.clone());
                    let ghost f1 = *f;
                    let ghost s0 = scope_of(self.module, *f);
                    assert(f0.steps_to(&f1));
                    assert(s0 =~= Scope { slots: s.slots + 1, ..s });
                    if init.is_none() {
                        let nm = name.clone();
                        f.bind(nm, slot);
                        proof {
                            lemma_steps_trans(f0, f1, *f);
                            assert(scope_of(self.module, *f) =~= s0.bind(name@, slot));
                        }
                        return Ok(Operand::Const(0));
                    }
                    let v = match self.lower(f, init, depth - 1) {
                        Ok(v) => v,
                        Err(e) => {
                            return Err(e);
                        },
                    };
                    let ghost f2 = *f;
                    let ghost s1 = scope_of(self.module, *f);
                    f.emit(Inst::Store { value: v, slot });
                    let ghost f3 = *f;
                    let nm = name.clone();
                    f.bind(nm, slot);
                    let ghost f4 = *f;
                    let r = f.emit(Inst::Load { slot });
                    proof {
                        lemma_steps_trans(f0, f1, f2);
                        lemma_steps_trans(f0, f2, f3);
                        lemma_steps_trans(f0, f3, f4);
                        lemma_steps_trans(f0, f4, *f);
                        assert(scope_of(self.module, *f) =~= s1.emit().emit().bind(name@, slot));
                        let k = s.slots as int;
                        assert(f1.func.slots@[k] == *name);
                        assert(f2.func.slots@[k] == f1.func.slots@[k]);
                        assert(f.func.slots@[k] == *name);
                    }
                    Ok(r)
                }
            },
            _ => Err(GenError::Unsupported),
        }
    }

    #[verifier::rlimit(100)]
    #[verifier::spinoff_prover]
    fn lower_binary(&mut self, f: &mut Frame, ast: &AST, depth: usize) -> (r: Result<Operand, GenError>)
        requires
            *ast is Binary,
            depth > 0,
            old(self).wf(),
            old(f).wf(),
        ensures
            final(self).wf(),
            r is Ok ==> final(f).wf() && old(f).steps_to(final(f)),
            lowered_as(
                r,
                outcome(scope_of(old(self).module, *old(f)), *ast, depth as nat),
                final(self).module,
                *final(f),
            ),
            r is Ok ==> emitted_as(depth as nat, *old(f), old(self).module, *final(f), final(self).module, *ast),
        decreases depth, 0nat,
    {
        let ghost f0 = *f;
        match ast {
            AST::Binary(op, l, r) => {
                if *op == Operator::Assign {
                    let slot = match &**l {
                        AST::Identifier(x) => match f.lookup(x) {
                            Some(s) => s,
                            None => {
                                return Err(GenError::UndefinedVariable);
                            },
                        },
                        _ => {
                            return Err(GenError::ExpectedIdentifier);
                        },
                    };
                    let v = match self.lower(f, r, depth - 1) {
                        Ok(v) => v,
                        Err(e) => {
                            return Err(e);
                        },
                    };
                    let ghost f1 = *f;
                    let ghost s1 = scope_of(self.module, *f);
                    f.emit(Inst::Store { value: v, slot });
                    proof {
                        lemma_steps_trans(f0, f1, *f);
                        assert(scope_of(self.module, *f) =~= s1.emit());
                    }
                    return Ok(v);
                }
                let a = match self.lower(f, l, depth - 1) {
                    Ok(v) => v,
                    Err(e) => {
                        return Err(e);
                    },
                };
                let ghost f1 = *f;
                let b = match self.lower(f, r, depth - 1) {
                    Ok(v) => v,
                    Err(e) => {
                        return Err(e);
                    },
                };
                let ghost f2 = *f;
                let ghost s2 = scope_of(self.module, *f);
                proof {
                    lemma_steps_trans(f0, f1, f2);
                }
                let o = *op;
                let v = if o == Operator::Add || o == Operator::Sub || o == Operator::Mul || o
                    == Operator::Div {
                    f.emit(Inst::Arith { op: o, lhs: a, rhs: b })
                } else if o == Operator::Equal || o == Operator::NE || o == Operator::LT || o
                    == Operator::LTE || o == Operator::GT || o == Operator::GTE {
                    f.emit(Inst::Cmp { op: o, lhs: a, rhs: b })
                } else {
                    return Err(GenError::UnsupportedOperator);
                };
                proof {
                    lemma_steps_trans(f0, f2, *f);
                    assert(scope_of(self.module, *f) =~= s2.emit());
                }
                Ok(v)
            },
            _ => Err(GenError::Unsupported),
        }
    }

    #[verifier::rlimit(100)]
    #[verifier::spinoff_prover]
    fn lower_call(&mut self, f: &mut Frame, ast: &AST, depth: usize) -> (r: Result<Operand, GenError>)
        requires
            *ast is Call,
            depth > 0,
            old(self).wf(),
            old(f).wf(),
        ensures
            final(self).wf(),
            r is Ok ==> final(f).wf() && old(f).steps_to(final(f)),
            lowered_as(
                r,
                outcome(scope_of(old(self).module, *old(f)), *ast, depth as nat),
                final(self).module,
                *final(f),
            ),
            r is Ok ==> emitted_as(depth as nat, *old(f), old(self).module, *final(f), final(self).module, *ast),
        decreases depth, 0nat,
    {
        let ghost f0 = *f;
        match ast {
            AST::Call(name, args) => {
                let ghost s0 = scope_of(self.module, *f);
                let n = match self.find_function(name) {
                    Some(i) => self.module.functions[i].params.len(),
                    None => {
                        if !f.host && f.func.name == *name {
                            f.func.params.len()
                        } else {
                            return Err(GenError::FunctionNotFound);
                        }
                    },
                };
                assert(callee_arity(s0, name@) == Some(n as nat));
                if n != args.len() {
                    return Err(GenError::ArityMismatch);
                }
                let ghost expected = outcome_list(s0, args@, 0, depth as nat);
                let ghost mut gv: Seq<Operand> = Seq::empty();
                assert(prepend_vals(gv, expected) == expected) by {
                    if let Ok((s9, ws)) = expected {
                        assert(gv + ws =~= ws);
                    }
                }
                let mut vals: Vec<Operand> = Vec::new();
                let mut i: usize = 0;
                while i < args.len()
                    invariant
                        self.wf(),
                        f.wf(),
                        f0.steps_to(f),
                        f0 == *old(f),
                        f0.wf(),
                        depth > 0,
                        i <= args@.len(),
                        vals@ == gv,
                        *ast == AST::Call(*name, *args),
                        callee_arity(s0, name@) == Some(args@.len()),
                        s0 == scope_of(old(self).module, *old(f)),
                        expected == outcome_list(s0, args@, 0, depth as nat),
                        expected == prepend_vals(gv, outcome_list(scope_of(self.module, *f), args@, i as int, depth as nat)),
                    decreases args@.len() - i,
                {
                    let ghost fi = *f;
                    let v = match self.lower(f, &args[i], depth - 1) {
                        Ok(v) => v,
                        Err(e) => {
                            return Err(e);
                        },
                    };
                    proof {
                        lemma_steps_trans(f0, fi, *f);
                        let old_gv = gv;
                        gv = gv.push(v);
                        if let Ok((s9, ws)) = outcome_list(scope_of(self.module, *f), args@, i as int + 1, depth as nat) {
                            assert(old_gv + (seq![v] + ws) =~= gv + ws);
                        }
                    }
                    vals.push(v);
                    i = i + 1;
                }
                let ghost f1 = *f;
                let ghost s1 = scope_of(self.module, *f);
                let r = f.emit(Inst::Call { callee: name.clone(), args: vals });
                proof {
                    lemma_steps_trans(f0, f1, *f);
                    assert(scope_of(self.module, *f) =~= s1.emit());
                }
                Ok(r)
            },
            _ => Err(GenError::Unsupported),
        }
    }

    #[verifier::rlimit(100)]
    #[verifier::spinoff_prover]
    fn lower_if(&mut self, f: &mut Frame, ast: &AST, depth: usize) -> (r: Result<Operand, GenError>)
        requires
            *ast is If,
            depth > 0,
            old(self).wf(),
            old(f).wf(),
        ensures
            final(self).wf(),
            r is Ok ==> final(f).wf() && old(f).steps_to(final(f)),
            lowered_as(
                r,
                outcome(scope_of(old(self).module, *old(f)), *ast, depth as nat),
                final(self).module,
                *final(f),
            ),
            r is Ok ==> emitted_as(depth as nat, *old(f), old(self).module, *final(f), final(self).module, *ast),
        decreases depth, 0nat,
    {
        let ghost f0 = *f;
        match ast {
            AST::If(c, t, e) => {
                let cv = match self.lower(f, c, depth - 1) {
                    Ok(v) => v,
                    Err(e) => {
                        return Err(e);
                    },
                };
                let ghost f1 = *f;
                let ghost s1 = scope_of(self.module, *f);
                let test = f.emit(Inst::Cmp { op: Operator::NE, lhs: cv, rhs: Operand::Const(0) });
                let ghost f2 = *f;
                proof {
                    lemma_steps_trans(f0, f1, f2);
                }
                let tb = f.new_block(BlockKind::Then);
                let eb = f.new_block(BlockKind::Else);
                let mb = f.new_block(BlockKind::Merge);
                f.branch_to(Terminator::CondBr(test, tb, eb), tb);
                let ghost f3 = *f;
                assert(scope_of(self.module, *f) =~= if_start(s1));
                let tv = match self.lower(f, t, depth - 1) {
                    Ok(v) => v,
                    Err(e) => {
                        return Err(e);
                    },
                };
                let ghost f4 = *f;
                let tend = f.cur;
                assert(f3.func.blocks@[eb as int].term is None);
                assert(f4.func.blocks@[eb as int] == f3.func.blocks@[eb as int]);
                assert(f4.func.blocks@[mb as int] == f3.func.blocks@[mb as int]);
                let ghost s3 = scope_of(self.module, *f);
                f.branch_to(Terminator::Br(mb), eb);
                let ghost f5 = *f;
                assert(scope_of(self.module, *f) =~= Scope { cur: s1.blocks + 1, ..s3 });
                let ev = if e.is_none() {
                    Operand::Const(0)
                } else {
                    match self.lower(f, e, depth - 1) {
                        Ok(v) => v,
                        Err(e) => {
                            return Err(e);
                        },
                    }
                };
                let ghost f6 = *f;
                let ghost s5 = scope_of(self.module, *f);
                let eend = f.cur;
                assert(f5.func.blocks@[mb as int] == f4.func.blocks@[mb as int]);
                assert(f6.func.blocks@[mb as int] == f5.func.blocks@[mb as int]);
                f.branch_to(Terminator::Br(mb), mb);
                let ghost f7 = *f;
                assert(scope_of(self.module, *f) =~= Scope { cur: s1.blocks + 2, ..s5 });
                let r = f.emit(
                    Inst::Phi { then_value: tv, then_block: tend, else_value: ev, else_block: eend },
                );
                proof {
                    let l0 = f0.func.blocks@.len();
                    let l2 = f2.func.blocks@.len();
                    assert forall|k: int|
                        0 <= k < l0 && k != f0.cur implies f.func.blocks@[k]
                            == #[trigger] f0.func.blocks@[k] by {
                        assert(f2.func.blocks@[k] == f0.func.blocks@[k]);
                        assert(f3.func.blocks@[k] == f2.func.blocks@[k]);
                        assert(f4.func.blocks@[k] == f3.func.blocks@[k]);
                        assert(f5.func.blocks@[k] == f4.func.blocks@[k]);
                        assert(f6.func.blocks@[k] == f5.func.blocks@[k]);
                    }
                    assert forall|k: int|
                        (l0 <= k < f.func.blocks@.len() || k == f0.cur) && k != f.cur implies (
                        #[trigger] f.func.blocks@[k]).term is Some by {
                        let l3 = f3.func.blocks@.len();
                        let l5 = f5.func.blocks@.len();
                        if k == eend {
                            assert(f7.func.blocks@[k].term is Some);
                        } else {
                            assert(f7.func.blocks@[k] == f6.func.blocks@[k]);
                            if k >= l5 || k == eb {
                                assert(f6.func.blocks@[k].term is Some);
                            } else {
                                assert(f6.func.blocks@[k] == f5.func.blocks@[k]);
                                if k == tend {
                                    assert(f5.func.blocks@[k].term is Some);
                                } else {
                                    assert(f5.func.blocks@[k] == f4.func.blocks@[k]);
                                    if k >= l3 || k == tb {
                                        assert(f4.func.blocks@[k].term is Some);
                                    } else {
                                        assert(f4.func.blocks@[k] == f3.func.blocks@[k]);
                                        if k == f2.cur {
                                            assert(f3.func.blocks@[k].term is Some);
                                        } else {
                                            assert(f3.func.blocks@[k] == f2.func.blocks@[k]);
                                            assert(f2.func.blocks@[k].term is Some);
                                        }
                                    }
                                }
                            }
                        }
                    }
                    assert forall|k: int| 0 <= k < f0.func.slots@.len() implies f.func.slots@[k]
                        == #[trigger] f0.func.slots@[k] by {
                        assert(f2.func.slots@[k] == f0.func.slots@[k]);
                        assert(f4.func.slots@[k] == f3.func.slots@[k]);
                        assert(f6.func.slots@[k] == f5.func.slots@[k]);
                    }
                    assert forall|k: int| 0 <= k < f0.func.code@.len() implies f.func.code@[k]
                        == #[trigger] f0.func.code@[k] by {
                        assert(f2.func.code@[k] == f0.func.code@[k]);
                        assert(f3.func.code@[k] == f2.func.code@[k]);
                        assert(f4.func.code@[k] == f3.func.code@[k]);
                        assert(f5.func.code@[k] == f4.func.code@[k]);
                        assert(f6.func.code@[k] == f5.func.code@[k]);
                        assert(f7.func.code@[k] == f6.func.code@[k]);
                    }
                    assert forall|k: int| 0 <= k < l0 implies (
                    #[trigger] f.func.blocks@[k]).kind == f0.func.blocks@[k].kind by {
                        assert(f2.func.blocks@[k].kind == f0.func.blocks@[k].kind);
                        assert(f3.func.blocks@[k].kind == f2.func.blocks@[k].kind);
                        assert(f4.func.blocks@[k].kind == f3.func.blocks@[k].kind);
                        assert(f5.func.blocks@[k].kind == f4.func.blocks@[k].kind);
                        assert(f6.func.blocks@[k].kind == f5.func.blocks@[k].kind);
                        assert(f7.func.blocks@[k].kind == f6.func.blocks@[k].kind);
                    }
                    assert forall|i: int| 0 <= i < f0.env@.len() implies f.env@[i]
                        == #[trigger] f0.env@[i] by {
                        assert(f2.env@[i] == f0.env@[i]);
                        assert(f4.env@[i] == f3.env@[i]);
                        assert(f6.env@[i] == f5.env@[i]);
                    }
                }
                proof {
                    let n = tb as int;
                    let c1 = f2.cur as int;
                    assert(f3.func.blocks@[n].kind == BlockKind::Then);
                    assert(f3.func.blocks@[n + 1].kind == BlockKind::Else);
                    assert(f3.func.blocks@[n + 2].kind == BlockKind::Merge);
                    assert(f3.func.blocks@[c1].term == Some(Terminator::CondBr(test, tb, eb)));
                    assert(f4.func.blocks@[c1] == f3.func.blocks@[c1]);
                    assert(f5.func.blocks@[c1] == f4.func.blocks@[c1]);
                    assert(f6.func.blocks@[c1] == f5.func.blocks@[c1]);
                    assert(f7.func.blocks@[c1] == f6.func.blocks@[c1]);
                    assert(f.func.blocks@[c1].term matches Some(Terminator::CondBr(_, t, e)) && t
                        == n && e == n + 1);
                    assert(f4.func.blocks@[n + 2] == f3.func.blocks@[n + 2]);
                    assert(f5.func.blocks@[n + 2] == f4.func.blocks@[n + 2]);
                    assert(f6.func.blocks@[n + 2] == f5.func.blocks@[n + 2]);
                    assert(f4.func.blocks@[n].kind == BlockKind::Then);
                    assert(f5.func.blocks@[n].kind == BlockKind::Then);
                    assert(f6.func.blocks@[n].kind == BlockKind::Then);
                    assert(f7.func.blocks@[n].kind == BlockKind::Then);
                    assert(f4.func.blocks@[n + 1].kind == BlockKind::Else);
                    assert(f5.func.blocks@[n + 1].kind == BlockKind::Else);
                    assert(f6.func.blocks@[n + 1].kind == BlockKind::Else);
                    assert(f7.func.blocks@[n + 1].kind == BlockKind::Else);
                    assert(f7.func.blocks@[n + 2].kind == BlockKind::Merge);
                    assert(f6.func.blocks@[tend as int] == f5.func.blocks@[tend as int]);
                    assert(f.func.blocks@[tend as int].term == Some(Terminator::Br(mb)));
                    assert(f.func.blocks@[eend as int].term == Some(Terminator::Br(mb)));
                    assert(f.func.code@.last() == (mb, Inst::Phi { then_value: tv, then_block: tend, else_value: ev, else_block: eend }));
                    assert(scope_of(self.module, *f) =~= Scope { cur: s1.blocks + 2, ..s5 }.emit());
                    assert(f.func.code@[s1.code as int] == f3.func.code@[s1.code as int]);
                    assert(f.func.code@[s5.code as int] == f.func.code@.last());
                }
                Ok(r)
            },
            _ => Err(GenError::Unsupported),
        }
    }

    fn lower_function(&mut self, f: &mut Frame, ast: &AST, depth: usize) -> (r: Result<Operand, GenError>)
        requires
            *ast is Function,
            depth > 0,
            old(self).wf(),
            old(f).wf(),
        ensures
            final(self).wf(),
            r is Ok ==> final(f).wf() && old(f).steps_to(final(f)),
            lowered_as(
                r,
                outcome(scope_of(old(self).module, *old(f)), *ast, depth as nat),
                final(self).module,
                *final(f),
            ),
            r is Ok ==> emitted_as(depth as nat, *old(f), old(self).module, *final(f), final(self).module, *ast),
            r is Ok ==> *final(f) == *old(f),
        decreases depth, 0nat,
    {
        match ast {
            AST::Function(name, params, body) => {
                let mut names: Vec<String> = Vec::new();
                let mut env: Vec<(String, Operand)> = Vec::new();
                let mut code: Vec<(usize, Inst)> = Vec::new();
                let mut i: usize = 0;
                while i < params.len()
                    invariant
                        self.wf(),
                        i <= params@.len(),
                        names@.len() == i,
                        env@.len() == i,
                        forall|j: int| 0 <= j < i ==> (#[trigger] env@[j]).0@ == names@[j]@,
                        forall|j: int| 0 <= j < i ==> (#[trigger] params@[j]) is Variable,
                        *ast == AST::Function(*name, *params, *body),
                        depth > 0,
                        forall|j: int| 0 <= j < i ==> (#[trigger] names@[j])@ == params@[j]->Variable_0@,
                        forall|j: int| 0 <= j < i ==> (#[trigger] env@[j]) == (names@[j], Operand::Slot(j as usize)),
                        code@.len() == i,
                        forall|j: int| 0 <= j < i ==> (#[trigger] code@[j]) == (0usize, Inst::Store { value: Operand::Param(j as usize), slot: Operand::Slot(j as usize) }),
                    decreases params@.len() - i,
                {
                    match &params[i] {
                        AST::Variable(x, _, _) => {
                            names.push(x.clone());
                            env.push((x.clone(), Operand::Slot(i)));
                            code.push((0, Inst::Store { value: Operand::Param(i), slot: Operand::Slot(i) }));
                        },
                        _ => {
                            assert(!all_variables(params@));
                            return Err(GenError::ExpectedIdentifier);
                        },
                    }
                    i = i + 1;
                }
                let mut blocks: Vec<Block> = Vec::new();
                blocks.push(Block { kind: BlockKind::Entry, term: None });
                let slots = names.clone();
                let mut g = Frame {
                    func: Function {
                        name: name.clone(),
                        params: names,
                        internal: true,
                        slots,
                        blocks,
                        code,
                    },
                    cur: 0,
                    env,
                    host: false,
                };
                let ghost g0 = g;
                proof {
                    assert(all_variables(params@));
                    assert(scope_of(self.module, g).env =~= function_scope(
                        scope_of(old(self).module, *old(f)),
                        name@,
                        params@,
                    ).env);
                    assert(scope_of(self.module, g) =~= function_scope(
                        scope_of(old(self).module, *old(f)),
                        name@,
                        params@,
                    ));
                }
                let v = match self.lower(&mut g, body, depth - 1) {
                    Ok(v) => v,
                    Err(e) => {
                        return Err(e);
                    },
                };
                proof {
                    assert forall|k: int|
                        0 <= k < g.func.blocks@.len() && k != g.cur implies (
                        #[trigger] g.func.blocks@[k]).term is Some by {
                        if k < 1 {
                            assert(k == g0.cur);
                        }
                    }
                }
                let ghost m1 = self.module;
                let done = g.finish(v);
                let ghost fs = self.module.functions@;
                self.module.functions.push(done);
                proof {
                    assert(self.module.functions@.last() == done);
                    assert(g.func.blocks@[0].kind == g0.func.blocks@[0].kind);
                    assert(g.func.code@.len() >= params@.len());
                    assert forall|i: int| 0 <= i < params@.len() implies #[trigger] done.code@[i]
                        == (0usize, Inst::Store { value: Operand::Param(i as usize), slot: Operand::Slot(i as usize) }) by {
                        assert(g.func.code@[i] == g0.func.code@[i]);
                    }
                    assert(done.blocks@[g.cur as int].term->0 is Ret);
                    assert(done.name@ == name@);
                    assert(done.internal);
                    assert(done.params@.len() == params@.len());
                    assert(forall|i: int| 0 <= i < params@.len() ==> (#[trigger] done.params@[i])@ == params@[i]->Variable_0@);
                    assert(done.well_terminated());
                    assert(done.blocks@[0].kind == BlockKind::Entry);
                    assert(function_built(done, *name, params@, scope_of(m1, g), v));
                    assert(sigs_of(self.module) =~= sigs_of(m1).push((name@, params@.len())));
                    assert(scope_of(self.module, *f) =~= Scope {
                        sigs: sigs_of(m1).push((name@, params@.len())),
                        globals: m1.globals@.len(),
                        ..scope_of(old(self).module, *old(f))
                    });
                }
                proof {
                    assert forall|i: int| 0 <= i < self.module.functions@.len() implies (
                    #[trigger] self.module.functions@[i]).well_terminated() by {
                        if i < self.module.functions@.len() - 1 {
                            assert(fs[i] == self.module.functions@[i]);
                        }
                    }
                }
                Ok(Operand::Const(0))
            },
            _ => Err(GenError::Unsupported),
        }
    }

    /// Lowers a whole program. Top-level code that needs instructions goes
    /// into an implicit `main` function, which is added only if it holds
    /// any; top-level variables become module globals.
    pub fn gen_code(&mut self, ast: AST) -> (r: Result<(), GenError>)
        requires
            old(self).wf(),
        ensures
            final(self).wf(),
            final(self).module_view().wf(),
            match outcome(top_scope(*old(self).module_view()), ast, MAX_DEPTH as nat) {
                Ok((s, v)) => {
                    &&& r is Ok
                    &&& final(self).module_view().globals@.len() == s.globals
                    &&& if s.code > 0 || s.blocks > 1 {
                        &&& sigs_of(*final(self).module_view()) == s.sigs.push(("main"@, 0nat))
                        &&& main_built(final(self).module_view().functions@.last(), s, v)
                    } else {
                        sigs_of(*final(self).module_view()) == s.sigs
                    }
                },
                Err(e) => r == Err::<(), GenError>(e),
            },
            needs_no_code(&ast) ==> r is Ok && *final(self) == *old(self),
    {
        let mut blocks: Vec<Block> = Vec::new();
        blocks.push(Block { kind: BlockKind::Entry, term: None });
        let mut host = Frame {
            func: Function {
                name: String::from_str("main"),
                params: Vec::new(),
                internal: false,
                slots: Vec::new(),
                blocks,
                code: Vec::new(),
            },
            cur: 0,
            env: Vec::new(),
            host: true,
        };
        let ghost h0 = host;
        proof {
            assert(scope_of(self.module, host) =~= top_scope(self.module));
        }
        let v = match self.lower(&mut host, &ast, MAX_DEPTH) {
            Ok(v) => v,
            Err(e) => {
                return Err(e);
            },
        };
        if host.func.code.len() > 0 || host.func.blocks.len() > 1 {
            proof {
                assert forall|k: int|
                    0 <= k < host.func.blocks@.len() && k != host.cur implies (
                    #[trigger] host.func.blocks@[k]).term is Some by {
                    if k < 1 {
                        assert(k == h0.cur);
                    }
                }
            }
            let ghost m1 = self.module;
            let done = host.finish(v);
            let ghost fs = self.module.functions@;
            self.module.functions.push(done);
            proof {
                assert(sigs_of(self.module) =~= sigs_of(m1).push(("main"@, 0nat)));
                assert(self.module.functions@.last() == done);
                assert(main_built(done, scope_of(m1, host), v));
            }
            proof {
                assert forall|i: int| 0 <= i < self.module.functions@.len() implies (
                #[trigger] self.module.functions@[i]).well_terminated() by {
                    if i < self.module.functions@.len() - 1 {
                        assert(fs[i] == self.module.functions@[i]);
                    }
                }
            }
        }
        Ok(())
    }
}


/// Lowering steps compose.
pub proof fn lemma_steps_trans(a: Frame, b: Frame, c: Frame)
    requires
        a.wf(),
        b.wf(),
        a.steps_to(&b),
        b.steps_to(&c),
    ensures
        a.steps_to(&c),
{
    assert forall|k: int|
        (a.func.blocks@.len() <= k < c.func.blocks@.len() || k == a.cur) && k != c.cur implies (
        #[trigger] c.func.blocks@[k]).term is Some by {
        if k < b.func.blocks@.len() {
            if k == b.cur {
            } else if k == a.cur || a.func.blocks@.len() <= k {
                assert(b.func.blocks@[k].term is Some);
                assert(c.func.blocks@[k] == b.func.blocks@[k]);
            }
        }
    }
    assert forall|k: int| 0 <= k < a.func.code@.len() implies c.func.code@[k]
        == #[trigger] a.func.code@[k] by {
        assert(b.func.code@[k] == a.func.code@[k]);
    }
    assert forall|k: int| 0 <= k < a.func.slots@.len() implies c.func.slots@[k]
        == #[trigger] a.func.slots@[k] by {
        assert(b.func.slots@[k] == a.func.slots@[k]);
    }
    assert forall|k: int| 0 <= k < a.func.blocks@.len() implies (
    #[trigger] c.func.blocks@[k]).kind == a.func.blocks@[k].kind by {
        assert(b.func.blocks@[k].kind == a.func.blocks@[k].kind);
    }
    assert forall|k: int|
        0 <= k < a.func.blocks@.len() && k != a.cur implies c.func.blocks@[k]
            == #[trigger] a.func.blocks@[k] by {
        if k == b.cur {
            assert(b.func.blocks@[k] == a.func.blocks@[k]);
            assert(b.func.blocks@[k].term is None);
        }
    }
}

} // verus!
