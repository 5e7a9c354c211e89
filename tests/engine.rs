use circuit::builder::{resolve_jumps, OpenDef};
use circuit::gate::{
    App, BuildError, BuiltinGate, BuiltinOp, DefinedGate, EvalError, Gate, Instruction, Step,
};
use circuit::lexer::LexInstruction;

fn s(x: &str) -> String {
    x.to_string()
}

fn def(name: &str, inputs: usize) -> LexInstruction {
    LexInstruction::new_def(s(name), inputs)
}

fn call(label: Option<&str>, gate: &str, ins: Vec<usize>, outs: Vec<usize>) -> LexInstruction {
    LexInstruction::new_gate(ins, s(gate), outs, label.map(s))
}

fn goto(label: Option<&str>, target: &str) -> LexInstruction {
    LexInstruction::new_goto(s(target), label.map(s))
}

fn out(nets: Vec<usize>) -> LexInstruction {
    LexInstruction::new_out(nets)
}

fn eval(app: &App, name: &str, ins: Vec<bool>) -> Result<Vec<bool>, EvalError> {
    app.evaluate(&s(name), ins)
}

fn build_err(lex: Vec<LexInstruction>) -> BuildError {
    match App::from_with_defaults(lex) {
        Ok(_) => panic!("build succeeded"),
        Err(e) => e,
    }
}

#[test]
fn builtin_truth_tables() {
    let app = App::with_defaults();
    assert_eq!(eval(&app, "AND", vec![true, true]), Ok(vec![true]));
    assert_eq!(eval(&app, "AND", vec![true, false]), Ok(vec![false]));
    assert_eq!(eval(&app, "AND", vec![false, true]), Ok(vec![false]));
    assert_eq!(eval(&app, "AND", vec![false, false]), Ok(vec![false]));
    assert_eq!(eval(&app, "NOT", vec![true]), Ok(vec![false]));
    assert_eq!(eval(&app, "NOT", vec![false]), Ok(vec![true]));
}

#[test]
fn builtin_gate_direct() {
    let and = BuiltinGate::new(BuiltinOp::And);
    assert_eq!(and.inputs(), 2);
    assert_eq!(and.calculate(vec![true, true]), Ok(vec![true]));
    assert_eq!(and.calculate(vec![true]), Err(EvalError::ArityMismatch));
    let not = BuiltinGate::new(BuiltinOp::Not);
    assert_eq!(not.inputs(), 1);
    assert_eq!(not.calculate(vec![false]), Ok(vec![true]));
}

#[test]
fn and_wrapper_reproduces_and() {
    let app = App::from_with_defaults(vec![
        def("MYAND", 2),
        call(None, "AND", vec![0, 1], vec![2]),
        out(vec![2]),
    ])
    .unwrap();
    for a in [false, true] {
        for b in [false, true] {
            assert_eq!(eval(&app, "MYAND", vec![a, b]), Ok(vec![a && b]));
        }
    }
}

#[test]
fn xor_from_and_and_not() {
    let app = App::from_with_defaults(vec![
        def("XOR", 2),
        call(Some("a"), "AND", vec![0, 1], vec![2]),
        call(Some("b"), "NOT", vec![2], vec![3]),
        call(None, "NOT", vec![0], vec![4]),
        call(None, "NOT", vec![1], vec![5]),
        call(None, "AND", vec![4, 5], vec![6]),
        call(None, "NOT", vec![6], vec![7]),
        call(None, "AND", vec![3, 7], vec![8]),
        out(vec![8]),
    ])
    .unwrap();
    assert_eq!(eval(&app, "XOR", vec![true, false]), Ok(vec![true]));
    assert_eq!(eval(&app, "XOR", vec![false, true]), Ok(vec![true]));
    assert_eq!(eval(&app, "XOR", vec![true, true]), Ok(vec![false]));
    assert_eq!(eval(&app, "XOR", vec![false, false]), Ok(vec![false]));
}

#[test]
fn nand_then_nested_use() {
    let app = App::from_with_defaults(vec![
        def("NAND", 2),
        call(None, "AND", vec![0, 1], vec![2]),
        call(None, "NOT", vec![2], vec![3]),
        out(vec![3]),
        def("OR", 2),
        call(None, "NAND", vec![0, 0], vec![2]),
        call(None, "NAND", vec![1, 1], vec![3]),
        call(None, "NAND", vec![2, 3], vec![4]),
        out(vec![4]),
    ])
    .unwrap();
    assert_eq!(eval(&app, "OR", vec![false, false]), Ok(vec![false]));
    assert_eq!(eval(&app, "OR", vec![true, false]), Ok(vec![true]));
    assert_eq!(eval(&app, "OR", vec![false, true]), Ok(vec![true]));
    assert_eq!(eval(&app, "OR", vec![true, true]), Ok(vec![true]));
    assert_eq!(eval(&app, "NAND", vec![true, true]), Ok(vec![false]));
}

#[test]
fn output_count_matches_declaration() {
    let app = App::from_with_defaults(vec![
        def("SPLIT", 1),
        call(None, "NOT", vec![0], vec![1]),
        out(vec![1, 0, 1]),
    ])
    .unwrap();
    let r = eval(&app, "SPLIT", vec![true]).unwrap();
    assert_eq!(r.len(), 3);
    assert_eq!(r, vec![false, true, false]);
    let i = app.find(&s("SPLIT")).unwrap();
    assert_eq!(app.gates[i].outputs(), 3);
    assert_eq!(app.gates[i].inputs(), 1);
}

#[test]
fn duplicate_registration_keeps_first() {
    let mut app = App::with_defaults();
    let first = Gate::Builtin(BuiltinGate::new(BuiltinOp::Not));
    assert_eq!(app.register(s("INV"), first), Ok(()));
    let second = Gate::Builtin(BuiltinGate::new(BuiltinOp::And));
    assert_eq!(app.register(s("INV"), second), Err(BuildError::DuplicateGateName));
    assert_eq!(app.names.len(), 3);
    assert_eq!(eval(&app, "INV", vec![true]), Ok(vec![false]));
}

#[test]
fn duplicate_definition_fails() {
    let e = build_err(vec![
        def("G", 1),
        call(None, "NOT", vec![0], vec![1]),
        out(vec![1]),
        def("G", 1),
        call(None, "NOT", vec![0], vec![1]),
        out(vec![1]),
    ]);
    assert_eq!(e, BuildError::DuplicateGateName);
    assert_eq!(build_err(vec![def("AND", 2)]), BuildError::DuplicateGateName);
}

#[test]
fn unknown_label_fails_anywhere() {
    let late = build_err(vec![
        def("G", 1),
        call(Some("x"), "NOT", vec![0], vec![1]),
        goto(None, "nowhere"),
        out(vec![1]),
    ]);
    assert_eq!(late, BuildError::UnknownLabel);
    let early = build_err(vec![
        def("G", 1),
        goto(None, "nowhere"),
        call(Some("x"), "NOT", vec![0], vec![1]),
        out(vec![1]),
    ]);
    assert_eq!(early, BuildError::UnknownLabel);
}

#[test]
fn label_in_other_definition_is_unknown() {
    let e = build_err(vec![
        def("F", 1),
        call(Some("x"), "NOT", vec![0], vec![1]),
        out(vec![1]),
        def("G", 1),
        goto(None, "x"),
        call(None, "NOT", vec![0], vec![1]),
        out(vec![1]),
    ]);
    assert_eq!(e, BuildError::UnknownLabel);
}

#[test]
fn forward_jump_skips_instructions() {
    let app = App::from_with_defaults(vec![
        def("ID", 1),
        goto(None, "skip"),
        call(None, "NOT", vec![0], vec![1]),
        call(Some("skip"), "AND", vec![0, 0], vec![1]),
        out(vec![1]),
    ])
    .unwrap();
    assert_eq!(eval(&app, "ID", vec![true]), Ok(vec![true]));
    assert_eq!(eval(&app, "ID", vec![false]), Ok(vec![false]));
}

#[test]
fn backward_jump_hits_step_limit() {
    let app = App::from_with_defaults(vec![
        def("LOOP", 1),
        call(Some("top"), "NOT", vec![0], vec![1]),
        goto(None, "top"),
        out(vec![1]),
    ])
    .unwrap();
    assert_eq!(eval(&app, "LOOP", vec![true]), Err(EvalError::StepLimitExceeded));
}

#[test]
fn wrong_input_count_is_arity_mismatch() {
    let app = App::from_with_defaults(vec![
        def("MYAND", 2),
        call(None, "AND", vec![0, 1], vec![2]),
        out(vec![2]),
    ])
    .unwrap();
    assert_eq!(eval(&app, "AND", vec![true, true, true]), Err(EvalError::ArityMismatch));
    assert_eq!(eval(&app, "MYAND", vec![true]), Err(EvalError::ArityMismatch));
    assert_eq!(eval(&app, "NOT", vec![]), Err(EvalError::ArityMismatch));
}

#[test]
fn inner_wiring_mismatch_is_arity_mismatch() {
    let app = App::from_with_defaults(vec![
        def("BAD", 1),
        call(None, "AND", vec![0], vec![1]),
        out(vec![1]),
    ])
    .unwrap();
    assert_eq!(eval(&app, "BAD", vec![true]), Err(EvalError::ArityMismatch));
}

#[test]
fn undefined_net_is_reported() {
    let app = App::from_with_defaults(vec![
        def("READ", 1),
        call(None, "NOT", vec![5], vec![1]),
        out(vec![1]),
        def("NOOUT", 1),
        call(None, "NOT", vec![0], vec![1]),
        out(vec![2]),
    ])
    .unwrap();
    assert_eq!(eval(&app, "READ", vec![true]), Err(EvalError::UndefinedNet));
    assert_eq!(eval(&app, "NOOUT", vec![true]), Err(EvalError::UndefinedNet));
}

#[test]
fn unknown_gate_on_evaluate() {
    let app = App::with_defaults();
    assert_eq!(eval(&app, "OR", vec![true, true]), Err(EvalError::UnknownGate));
    assert_eq!(eval(&app, "and", vec![true, true]), Err(EvalError::UnknownGate));
}

#[test]
fn build_error_variants() {
    assert_eq!(build_err(vec![def("Z", 0)]), BuildError::ZeroArity);
    assert_eq!(
        build_err(vec![def("G", 1), call(None, "OR", vec![0], vec![1]), out(vec![1])]),
        BuildError::UnknownGate
    );
    assert_eq!(
        build_err(vec![call(None, "NOT", vec![0], vec![1])]),
        BuildError::InstructionOutsideDefinition
    );
    assert_eq!(build_err(vec![out(vec![1])]), BuildError::InstructionOutsideDefinition);
    assert_eq!(build_err(vec![goto(None, "x")]), BuildError::InstructionOutsideDefinition);
    assert_eq!(
        build_err(vec![def("G", 1), call(None, "NOT", vec![0], vec![1])]),
        BuildError::MissingOutputDeclaration
    );
}

#[test]
fn gate_cannot_reference_itself() {
    let e = build_err(vec![def("SELF", 1), call(None, "SELF", vec![0], vec![1]), out(vec![1])]);
    assert_eq!(e, BuildError::UnknownGate);
}

#[test]
fn last_out_declaration_wins() {
    let app = App::from_with_defaults(vec![
        def("G", 1),
        call(None, "NOT", vec![0], vec![1]),
        out(vec![0]),
        out(vec![1]),
    ])
    .unwrap();
    assert_eq!(eval(&app, "G", vec![true]), Ok(vec![false]));
}

#[test]
fn empty_stream_gives_builtins() {
    let app = App::from_with_defaults(vec![]).unwrap();
    assert_eq!(app.names, vec![s("AND"), s("NOT")]);
}

#[test]
fn jumps_resolve_to_first_label() {
    let process = vec![
        Step::Jump(0),
        Step::Invoke(Instruction::new(vec![0], 1, vec![1])),
        Step::Invoke(Instruction::new(vec![0], 1, vec![2])),
    ];
    let labels = vec![None, Some(s("l")), Some(s("l"))];
    let targets = vec![Some(s("l")), None, None];
    let r = resolve_jumps(process, &labels, &targets).unwrap();
    assert!(matches!(r[0], Step::Jump(1)));
    assert!(matches!(&r[1], Step::Invoke(i) if i.outputs() == &vec![1usize] && i.inputs() == &vec![0usize]));
}

#[test]
fn seal_reports_missing_outputs_first() {
    let open = OpenDef {
        name: s("G"),
        inputs: 1,
        process: vec![Step::Jump(0)],
        labels: vec![None],
        targets: vec![Some(s("nowhere"))],
        outputs: None,
    };
    assert!(matches!(open.seal(), Err(BuildError::MissingOutputDeclaration)));
}

#[test]
fn defined_gate_direct() {
    let mut app = App::with_defaults();
    let d = DefinedGate::new(1, vec![Step::Invoke(Instruction::new(vec![0], 1, vec![1]))], vec![1]);
    assert_eq!(app.register(s("INV"), Gate::Defined(d)), Ok(()));
    assert_eq!(app.calculate(2, vec![false]), Ok(vec![true]));
}

#[test]
fn failed_instruction_writes_nothing() {
    let mut app = App::with_defaults();
    let d = DefinedGate::new(1, vec![Step::Invoke(Instruction::new(vec![0], 1, vec![1]))], vec![1]);
    assert_eq!(app.register(s("INV"), Gate::Defined(d)), Ok(()));
    let mut vars = std::collections::HashMap::new();
    vars.insert(0usize, true);
    vars.insert(1usize, false);
    vars.insert(2usize, true);
    let bad = Instruction::new(vec![0, 1, 2], 0, vec![5]);
    assert_eq!(bad.calculate(&app, 2, &mut vars), Err(EvalError::ArityMismatch));
    assert_eq!(vars.len(), 3);
    assert!(!vars.contains_key(&5));
    let good = Instruction::new(vec![0, 2], 0, vec![5]);
    assert_eq!(good.calculate(&app, 2, &mut vars), Ok(()));
    assert_eq!(vars.get(&5), Some(&true));
    let later = Instruction::new(vec![0], 2, vec![6]);
    assert_eq!(later.calculate(&app, 2, &mut vars), Err(EvalError::UnknownGate));
}

#[test]
fn skipped_instruction_leaves_net_undefined() {
    let app = App::from_with_defaults(vec![
        def("G", 1),
        goto(None, "end"),
        call(None, "NOT", vec![0], vec![1]),
        call(Some("end"), "NOT", vec![0], vec![2]),
        out(vec![1]),
    ])
    .unwrap();
    assert_eq!(eval(&app, "G", vec![true]), Err(EvalError::UndefinedNet));
    let i = app.find(&s("G")).unwrap();
    match &app.gates[i] {
        Gate::Defined(d) => {
            assert_eq!(d.inputs, 1);
            assert_eq!(d.outputs, vec![1]);
            assert!(matches!(d.process[0], Step::Jump(2)));
        },
        _ => panic!("not a defined gate"),
    }
}
