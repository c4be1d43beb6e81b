use bok::generator::{GenError, Generator, Inst, Operand, Terminator};
use bok::parser::Parser;
use bok::tokenizer::Tokenizer;

fn compile(s: &str) -> Result<Generator, GenError> {
    let toks = Tokenizer::new().tokenize(s).unwrap();
    let ast = Parser::new().parse(toks).unwrap();
    let mut g = Generator::new();
    g.gen_code(ast)?;
    Ok(g)
}

fn all_terminated(g: &Generator) -> bool {
    g.get_module().functions.iter().all(|f| f.blocks.iter().all(|b| b.term.is_some()))
}

#[test]
fn empty_source_gives_empty_module() {
    let g = compile("").unwrap();
    assert_eq!(g.get_module().functions.len(), 0);
    assert_eq!(g.get_module().name, "Entry");
}

#[test]
fn constant_gives_empty_module() {
    let g = compile("1").unwrap();
    assert_eq!(g.get_module().functions.len(), 0);
}

#[test]
fn function_and_call_scenario() {
    let g = compile("fn add(a:Int, b:Int) { a + b } add(2,3)").unwrap();
    let m = g.get_module();
    assert_eq!(m.functions.len(), 2);
    let add = &m.functions[0];
    assert_eq!(add.name, "add");
    assert!(add.internal);
    assert_eq!(add.params, vec!["a".to_string(), "b".to_string()]);
    let host = &m.functions[1];
    assert_eq!(host.name, "main");
    assert!(host.code.iter().any(|(_, i)| matches!(i, Inst::Call { callee, args } if callee == "add" && args.len() == 2)));
    assert!(all_terminated(&g));
}

#[test]
fn if_scenario_blocks_and_phi() {
    let g = compile("if 1 { 10 } else { 20 }").unwrap();
    let m = g.get_module();
    assert_eq!(m.functions.len(), 1);
    let f = &m.functions[0];
    assert_eq!(f.blocks.len(), 4);
    let conds = f.blocks.iter().filter(|b| matches!(b.term, Some(Terminator::CondBr(_, _, _)))).count();
    assert_eq!(conds, 1);
    let phis: Vec<&Inst> = f.code.iter().map(|(_, i)| i).filter(|i| matches!(i, Inst::Phi { .. })).collect();
    assert_eq!(phis.len(), 1);
    match phis[0] {
        Inst::Phi { then_value, else_value, then_block, else_block } => {
            assert_eq!(*then_value, Operand::Const(10));
            assert_eq!(*else_value, Operand::Const(20));
            assert_eq!(f.blocks[*then_block].term, Some(Terminator::Br(3)));
            assert_eq!(f.blocks[*else_block].term, Some(Terminator::Br(3)));
        }
        _ => unreachable!(),
    }
    assert!(all_terminated(&g));
}

#[test]
fn if_without_else_joins_zero() {
    let g = compile("fn f(x) { if x { 5 } }").unwrap();
    let f = &g.get_module().functions[0];
    assert!(f.code.iter().any(|(_, i)| matches!(i, Inst::Phi { else_value: Operand::Const(0), .. })));
    assert!(all_terminated(&g));
}

#[test]
fn nested_ifs_leave_every_block_terminated() {
    let g = compile("fn f(x, y) { if x { if y { 1 } else { 2 } } else { if y { 3 } } }").unwrap();
    assert!(all_terminated(&g));
    assert_eq!(g.get_module().functions[0].blocks.len(), 10);
}

#[test]
fn declaration_then_assignment_scenario() {
    let g = compile("let a = 0  a = 5 a").unwrap();
    let m = g.get_module();
    assert_eq!(m.globals.len(), 1);
    assert_eq!(m.globals[0].name, "a");
    assert_eq!(m.globals[0].init, 0);
    let host = &m.functions[0];
    assert!(matches!(host.code[0].1, Inst::Store { value: Operand::Const(5), slot: Operand::Global(0) }));
    assert!(matches!(host.code[1].1, Inst::Load { slot: Operand::Global(0) }));
}

#[test]
fn locals_get_entry_slots() {
    let g = compile("fn f(p) { let x = p * 2  x = x + 1  x }").unwrap();
    let f = &g.get_module().functions[0];
    assert_eq!(f.slots, vec!["p".to_string(), "x".to_string()]);
    assert!(matches!(f.code[0].1, Inst::Store { value: Operand::Param(0), slot: Operand::Slot(0) }));
    assert_eq!(f.blocks[0].term, Some(Terminator::Ret(Operand::Reg(f.code.len() - 1))));
}

#[test]
fn comparison_and_negation_lowering() {
    let g = compile("fn f(a) { -a <= 3 }").unwrap();
    let f = &g.get_module().functions[0];
    assert!(f.code.iter().any(|(_, i)| matches!(i, Inst::Arith { lhs: Operand::Const(0), .. })));
    assert!(f.code.iter().any(|(_, i)| matches!(i, Inst::Cmp { .. })));
}

#[test]
fn codegen_errors() {
    assert_eq!(compile("fn f() { x }").err(), Some(GenError::UndefinedVariable));
    assert_eq!(compile("fn f(a) { a } f(1, 2)").err(), Some(GenError::ArityMismatch));
    assert_eq!(compile("g(1)").err(), Some(GenError::FunctionNotFound));
    assert_eq!(compile("1 = 2").err(), Some(GenError::ExpectedIdentifier));
    assert_eq!(compile("loop { 1 }").err(), Some(GenError::Unsupported));
    assert_eq!(compile("fn f(a, b) { a & b }").err(), Some(GenError::UnsupportedOperator));
    assert_eq!(compile("let a = 0 let b = a + 1").err(), Some(GenError::VariableLocation));
    assert_eq!(GenError::VariableLocation.message(), "Variable Location Error");
}

#[test]
fn recursive_call_is_found() {
    let g = compile("fn f(n) { f(n) }").unwrap();
    assert!(all_terminated(&g));
}
